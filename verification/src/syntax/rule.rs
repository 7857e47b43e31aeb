use vstd::prelude::*;

use crate::syntax::describe::{named, sorted_names, texts_sorted, texts_view};

verus! {

broadcast use vstd::array::group_array_axioms;

/// A numeric type that denotes a syntax parsing rule within the programming
/// language grammar.
pub type NodeRule = u16;

/// Denotes a syntax parse rule of the root node of the syntax tree.
pub const ROOT_RULE: NodeRule = 0;

/// Denotes an invalid syntax parse rule. It never belongs to any node set.
pub const NON_RULE: NodeRule = 65535;

/// The maximum number of entries a [NodeSet] can address.
pub const NODE_SET_LIMIT: usize = 16;

/// True when `s` is strictly increasing.
pub open spec fn strictly_sorted(s: Seq<NodeRule>) -> bool {
    forall|i: int, j: int| 0 <= i < j < s.len() ==> s[i] < s[j]
}

/// The layout of a node set buffer with exactly `n` occupied slots: the
/// first `n` slots hold strictly increasing rules, the rest hold [NON_RULE].
pub open spec fn layout(v: Seq<NodeRule>, n: int) -> bool {
    &&& v.len() == NODE_SET_LIMIT
    &&& 0 <= n <= NODE_SET_LIMIT
    &&& forall|i: int| 0 <= i < n ==> #[trigger] v[i] != NON_RULE
    &&& forall|i: int| n <= i < NODE_SET_LIMIT ==> #[trigger] v[i] == NON_RULE
    &&& forall|i: int, j: int| 0 <= i < j < n ==> v[i] < v[j]
}

proof fn lemma_layout_unique(v: Seq<NodeRule>, n: int, m: int)
    requires
        layout(v, n),
        layout(v, m),
    ensures
        n == m,
{
    if n < m {
        assert(v[n] == NON_RULE);
    } else if m < n {
        assert(v[m] == NON_RULE);
    }
}

proof fn lemma_insert_layout(old_v: Seq<NodeRule>, v: Seq<NodeRule>, n: int, start: int, rule: NodeRule)
    requires
        layout(old_v, n),
        0 <= start <= n < NODE_SET_LIMIT,
        v.len() == NODE_SET_LIMIT,
        rule != NON_RULE,
        forall|i: int| 0 <= i < start ==> v[i] == old_v[i] && old_v[i] < rule,
        start < n ==> rule < old_v[start],
        v[start] == rule,
        forall|i: int| start < i <= n ==> v[i] == old_v[i - 1],
        forall|i: int| n < i < NODE_SET_LIMIT ==> v[i] == old_v[i],
    ensures
        layout(v, n + 1),
{
    assert forall|i: int, j: int| 0 <= i < j < n + 1 implies v[i] < v[j] by {
        if j < start {
        } else if j == start {
        } else if i < start {
            assert(old_v[i] < rule);
            if start < n {
                assert(old_v[start] <= old_v[j - 1]);
            }
        } else if i == start {
            assert(old_v[start] <= old_v[j - 1]);
        } else {
            assert(old_v[i - 1] < old_v[j - 1]);
        }
    }
    assert forall|i: int| 0 <= i < n + 1 implies #[trigger] v[i] != NON_RULE by {
        if i < start {
            assert(old_v[i] != NON_RULE);
        } else if i > start {
            assert(old_v[i - 1] != NON_RULE);
        }
    }
}

proof fn lemma_remove_layout(old_v: Seq<NodeRule>, v: Seq<NodeRule>, n: int, k: int)
    requires
        layout(old_v, n),
        0 <= k < n,
        v.len() == NODE_SET_LIMIT,
        forall|i: int| 0 <= i < k ==> v[i] == old_v[i],
        forall|i: int| k <= i < n - 1 ==> v[i] == old_v[i + 1],
        forall|i: int| n - 1 <= i < NODE_SET_LIMIT ==> v[i] == NON_RULE,
    ensures
        layout(v, n - 1),
{
    assert forall|i: int, j: int| 0 <= i < j < n - 1 implies v[i] < v[j] by {
        if j < k {
        } else if i < k {
            assert(old_v[i] < old_v[j + 1]);
        } else {
            assert(old_v[i + 1] < old_v[j + 1]);
        }
    }
    assert forall|i: int| 0 <= i < n - 1 implies #[trigger] v[i] != NON_RULE by {
        if i < k {
            assert(old_v[i] != NON_RULE);
        } else {
            assert(old_v[i + 1] != NON_RULE);
        }
    }
}

/// Two strictly sorted sequences with the same elements are equal.
pub proof fn lemma_sorted_unique(a: Seq<NodeRule>, b: Seq<NodeRule>)
    requires
        strictly_sorted(a),
        strictly_sorted(b),
        a.to_set() == b.to_set(),
    ensures
        a == b,
    decreases a.len(),
{
    if a.len() == 0 {
        if b.len() > 0 {
            assert(b.to_set().contains(b[0]));
            assert(a.to_set().contains(b[0]));
        }
        assert(a =~= b);
    } else if b.len() == 0 {
        assert(a.to_set().contains(a[0]));
        assert(b.to_set().contains(a[0]));
    } else {
        assert(a.to_set().contains(a[0]));
        assert(b.to_set().contains(b[0]));
        let ja = choose|j: int| 0 <= j < b.len() && b[j] == a[0];
        let jb = choose|j: int| 0 <= j < a.len() && a[j] == b[0];
        assert(b[0] <= b[ja]);
        assert(a[0] <= a[jb]);
        assert(a[0] == b[0]);
        let a1 = a.drop_first();
        let b1 = b.drop_first();
        assert forall|x: NodeRule| a1.to_set().contains(x) <==> b1.to_set().contains(x) by {
            if a1.to_set().contains(x) {
                let i = choose|i: int| 0 <= i < a1.len() && a1[i] == x;
                assert(a[i + 1] == x);
                assert(a.to_set().contains(x));
                let j = choose|j: int| 0 <= j < b.len() && b[j] == x;
                assert(a[0] < a[i + 1]);
                assert(j != 0);
                assert(b1[j - 1] == x);
            }
            if b1.to_set().contains(x) {
                let i = choose|i: int| 0 <= i < b1.len() && b1[i] == x;
                assert(b[i + 1] == x);
                assert(b.to_set().contains(x));
                let j = choose|j: int| 0 <= j < a.len() && a[j] == x;
                assert(b[0] < b[i + 1]);
                assert(j != 0);
                assert(a1[j - 1] == x);
            }
        }
        assert(a1.to_set() =~= b1.to_set());
        lemma_sorted_unique(a1, b1);
        assert(a =~= b) by {
            assert forall|i: int| 0 <= i < a.len() implies a[i] == b[i] by {
                if i > 0 {
                    assert(a[i] == a1[i - 1]);
                    assert(b[i] == b1[i - 1]);
                }
            }
        }
    }
}

/// A set of syntax parse rules of fixed size, kept in place as a sorted
/// buffer terminated by [NON_RULE] sentinels.
#[derive(Clone, Copy, PartialEq, Eq, Hash, Debug)]
pub struct NodeSet {
    vector: [NodeRule; 16],
}

impl NodeSet {
    /// Well-formedness: the buffer has the sorted, sentinel-terminated layout.
    pub closed spec fn wf(self) -> bool {
        exists|n: int| layout(self.vector@, n)
    }

    /// The number of occupied slots.
    pub closed spec fn spec_len(self) -> int {
        choose|n: int| layout(self.vector@, n)
    }

    /// The entries of the set in increasing order.
    pub closed spec fn entries(self) -> Seq<NodeRule> {
        self.vector@.subrange(0, self.spec_len())
    }

    /// The abstract set of rules.
    pub open spec fn view(self) -> Set<NodeRule> {
        self.entries().to_set()
    }

    proof fn lemma_wf(self)
        requires
            self.wf(),
        ensures
            layout(self.vector@, self.spec_len()),
            self.entries().len() == self.spec_len(),
            self.entries().len() <= NODE_SET_LIMIT,
            strictly_sorted(self.entries()),
            !self.entries().contains(NON_RULE),
            forall|i: int| 0 <= i < self.entries().len() ==> self.entries()[i] == self.vector@[i],
            self.entries().no_duplicates(),
            self@.len() == self.entries().len(),
            self@.finite(),
    {
        let n = choose|n: int| layout(self.vector@, n);
        assert(layout(self.vector@, n));
        self.entries().unique_seq_to_set();
        vstd::seq_lib::seq_to_set_is_finite(self.entries());
    }

    /// The entries are strictly sorted, never hold [NON_RULE], and fit
    /// into [NODE_SET_LIMIT] slots.
    pub proof fn lemma_entries_wf(self)
        requires
            self.wf(),
        ensures
            strictly_sorted(self.entries()),
            !self.entries().contains(NON_RULE),
            self.entries().len() <= NODE_SET_LIMIT,
            self@ == self.entries().to_set(),
            self@.finite(),
            self@.len() == self.entries().len(),
    {
        self.lemma_wf();
    }

    /// Creates a node set without entries.
    pub fn empty() -> (result: Self)
        ensures
            result.wf(),
            result.entries() == Seq::<NodeRule>::empty(),
            result@ == Set::<NodeRule>::empty(),
    {
        let result = NodeSet { vector: [NON_RULE; 16] };
        assert(layout(result.vector@, 0));
        proof {
            lemma_layout_unique(result.vector@, 0, result.spec_len());
        }
        assert(result.entries() =~= Seq::<NodeRule>::empty());
        assert(result@ =~= Set::<NodeRule>::empty());
        result
    }

    /// Returns true if the node set contains the specified node `rule`.
    pub fn contains(&self, rule: NodeRule) -> (result: bool)
        requires
            self.wf(),
        ensures
            result == self@.contains(rule),
    {
        proof {
            self.lemma_wf();
        }
        let ghost n = self.spec_len();
        if rule == NON_RULE {
            return false;
        }
        let mut entry: usize = 0;
        while entry < NODE_SET_LIMIT
            invariant
                layout(self.vector@, n),
                n == self.entries().len(),
                forall|i: int| 0 <= i < n ==> self.entries()[i] == self.vector@[i],
                0 <= entry <= n,
                rule != NON_RULE,
                forall|i: int| 0 <= i < entry ==> self.vector@[i] != rule,
            decreases NODE_SET_LIMIT - entry,
        {
            let probe = self.vector[entry];
            if probe == NON_RULE {
                proof {
                    assert(entry == n) by {
                        if entry < n {
                            assert(self.vector@[entry as int] != NON_RULE);
                        }
                    }
                    assert(!self@.contains(rule)) by {
                        if self@.contains(rule) {
                            let k = choose|k: int| 0 <= k < n && self.entries()[k] == rule;
                            assert(self.vector@[k] == rule);
                        }
                    }
                }
                return false;
            }
            if probe == rule {
                assert(self.entries()[entry as int] == rule);
                return true;
            }
            entry = entry + 1;
        }
        proof {
            assert(!self@.contains(rule)) by {
                if self@.contains(rule) {
                    let k = choose|k: int| 0 <= k < n && self.entries()[k] == rule;
                    assert(self.vector@[k] == rule);
                }
            }
        }
        false
    }

    /// Returns true if the set has the sorted, sentinel-terminated layout
    /// that every node set built by this module has.
    pub fn is_well_formed(&self) -> (result: bool)
        ensures
            result == self.wf(),
    {
        let mut n: usize = 0;
        while n < NODE_SET_LIMIT && self.vector[n] != NON_RULE
            invariant
                n <= NODE_SET_LIMIT,
                forall|i: int| 0 <= i < n ==> #[trigger] self.vector@[i] != NON_RULE,
                forall|i: int, j: int| 0 <= i < j < n ==> self.vector@[i] < self.vector@[j],
            decreases NODE_SET_LIMIT - n,
        {
            if n > 0 && self.vector[n] <= self.vector[n - 1] {
                proof {
                    assert forall|m: int| !layout(self.vector@, m) by {
                        if layout(self.vector@, m) {
                            if m > n {
                                assert(self.vector@[n - 1] < self.vector@[n as int]);
                            } else if m <= n - 1 {
                                assert(self.vector@[m] == NON_RULE);
                            } else {
                                assert(self.vector@[n as int] == NON_RULE);
                            }
                        }
                    }
                }
                return false;
            }
            n = n + 1;
        }
        let mut k: usize = n;
        while k < NODE_SET_LIMIT
            invariant
                n <= k <= NODE_SET_LIMIT,
                n < NODE_SET_LIMIT ==> self.vector@[n as int] == NON_RULE,
                forall|i: int| n <= i < k ==> #[trigger] self.vector@[i] == NON_RULE,
            decreases NODE_SET_LIMIT - k,
        {
            if self.vector[k] != NON_RULE {
                proof {
                    assert forall|m: int| !layout(self.vector@, m) by {
                        if layout(self.vector@, m) {
                            if m <= k {
                                assert(self.vector@[k as int] == NON_RULE);
                            } else {
                                assert(self.vector@[n as int] != NON_RULE);
                            }
                        }
                    }
                }
                return false;
            }
            k = k + 1;
        }
        assert(layout(self.vector@, n as int));
        true
    }

    /// Returns true if the node set has no entries.
    pub fn is_empty(&self) -> (result: bool)
        requires
            self.wf(),
        ensures
            result == (self.entries().len() == 0),
            result == (self@ == Set::<NodeRule>::empty()),
    {
        proof {
            self.lemma_wf();
            if self.entries().len() > 0 {
                assert(self@.contains(self.entries()[0]));
            }
            if self.entries().len() == 0 {
                assert(self@ =~= Set::<NodeRule>::empty());
            }
        }
        self.vector[0] == NON_RULE
    }

    /// Returns the number of entries in this node set.
    pub fn len(&self) -> (result: usize)
        requires
            self.wf(),
        ensures
            result == self.entries().len(),
            result <= NODE_SET_LIMIT,
    {
        proof {
            self.lemma_wf();
        }
        let ghost n = self.spec_len();
        let mut length: usize = 0;
        while length < NODE_SET_LIMIT
            invariant
                layout(self.vector@, n),
                n == self.entries().len(),
                0 <= length <= n,
            decreases NODE_SET_LIMIT - length,
        {
            if self.vector[length] == NON_RULE {
                assert(length == n) by {
                    if length < n {
                        assert(self.vector@[length as int] != NON_RULE);
                    }
                }
                return length;
            }
            length = length + 1;
        }
        length
    }

    /// Returns a node set that additionally includes `rule`.
    ///
    /// This set must not hold [NODE_SET_LIMIT] entries already unless
    /// `rule` is one of them, and `rule` must not be [NON_RULE].
    pub fn insert(self, rule: NodeRule) -> (result: Self)
        requires
            self.wf(),
            rule != NON_RULE,
            self@.contains(rule) || self.entries().len() < NODE_SET_LIMIT,
        ensures
            result.wf(),
            result@ == self@.insert(rule),
    {
        proof {
            self.lemma_wf();
        }
        let ghost n = self.spec_len();
        let ghost old_v = self.vector@;
        let mut entry: usize = 0;
        while entry < NODE_SET_LIMIT
            invariant
                layout(old_v, n),
                old_v == self.vector@,
                n == self.entries().len(),
                forall|i: int| 0 <= i < n ==> self.entries()[i] == old_v[i],
                self@.contains(rule) || n < NODE_SET_LIMIT,
                rule != NON_RULE,
                0 <= entry <= n,
                forall|i: int| 0 <= i < entry ==> old_v[i] < rule,
            decreases NODE_SET_LIMIT - entry,
        {
            let probe = self.vector[entry];
            if probe == rule {
                proof {
                    assert(self.entries()[entry as int] == rule);
                    assert(self@.insert(rule) =~= self@);
                }
                return self;
            }
            if probe > rule {
                let mut v = self.vector;
                let ghost start = entry as int;
                let mut carry = rule;
                let mut e: usize = entry;
                while e < NODE_SET_LIMIT
                    invariant
                        layout(old_v, n),
                        old_v == self.vector@,
                        n == self.entries().len(),
                        forall|i: int| 0 <= i < n ==> self.entries()[i] == old_v[i],
                        rule != NON_RULE,
                        0 <= start <= e <= NODE_SET_LIMIT,
                        start <= n,
                        e <= n + 1,
                        v@.len() == NODE_SET_LIMIT,
                        forall|i: int| 0 <= i < start ==> old_v[i] < rule,
                        start < NODE_SET_LIMIT ==> rule < old_v[start],
                        forall|i: int| 0 <= i < start ==> v@[i] == old_v[i],
                        forall|i: int| e <= i < NODE_SET_LIMIT ==> v@[i] == old_v[i],
                        e > start ==> v@[start] == rule,
                        forall|i: int| start < i < e ==> v@[i] == old_v[i - 1],
                        e == start ==> carry == rule,
                        e > start ==> carry == old_v[e - 1],
                        e > start ==> old_v[e - 1] != NON_RULE,
                    decreases NODE_SET_LIMIT - e,
                {
                    let p = v[e];
                    assert(p == old_v[e as int]);
                    v[e] = carry;
                    if p == NON_RULE {
                        let result = NodeSet { vector: v };
                        proof {
                            assert(e == n);
                            lemma_insert_layout(old_v, v@, n, start, rule);
                            lemma_layout_unique(v@, n + 1, result.spec_len());
                            assert forall|x: NodeRule| result@.contains(x) <==> self@.insert(rule).contains(x) by {
                                if result@.contains(x) {
                                    let k = choose|k: int| 0 <= k < n + 1 && result.entries()[k] == x;
                                    if k < start {
                                        assert(self.entries()[k] == x);
                                    } else if k > start {
                                        assert(self.entries()[k - 1] == x);
                                    }
                                }
                                if self@.contains(x) {
                                    let k = choose|k: int| 0 <= k < n && self.entries()[k] == x;
                                    if k < start {
                                        assert(result.entries()[k] == x);
                                    } else {
                                        assert(result.entries()[k + 1] == x);
                                    }
                                }
                                if x == rule {
                                    assert(result.entries()[start] == x);
                                }
                            }
                            assert(result@ =~= self@.insert(rule));
                        }
                        return result;
                    }
                    carry = p;
                    e = e + 1;
                }
                proof {
                    assert(old_v[15] != NON_RULE);
                    assert(n == NODE_SET_LIMIT);
                    assert(!self@.contains(rule)) by {
                        if self@.contains(rule) {
                            let k = choose|k: int| 0 <= k < n && self.entries()[k] == rule;
                            if k < start {
                            } else {
                                assert(old_v[start] <= old_v[k]);
                            }
                        }
                    }
                }
                return self;
            }
            entry = entry + 1;
        }
        proof {
            assert(n == NODE_SET_LIMIT) by {
                if entry < NODE_SET_LIMIT {
                    assert(old_v[entry as int] == NON_RULE);
                }
            }
            assert(!self@.contains(rule)) by {
                if self@.contains(rule) {
                    let k = choose|k: int| 0 <= k < n && self.entries()[k] == rule;
                    assert(old_v[k] < rule);
                }
            }
        }
        self
    }

    /// Returns a node set without the specified `rule`.
    pub fn exclude(self, rule: NodeRule) -> (result: Self)
        requires
            self.wf(),
        ensures
            result.wf(),
            result@ == self@.remove(rule),
    {
        proof {
            self.lemma_wf();
        }
        let ghost n = self.spec_len();
        let ghost old_v = self.vector@;
        if rule == NON_RULE {
            assert(self@.remove(rule) =~= self@);
            return self;
        }
        let mut entry: usize = 0;
        while entry < NODE_SET_LIMIT
            invariant
                layout(old_v, n),
                old_v == self.vector@,
                n == self.entries().len(),
                forall|i: int| 0 <= i < n ==> self.entries()[i] == old_v[i],
                rule != NON_RULE,
                0 <= entry <= n,
                forall|i: int| 0 <= i < entry ==> old_v[i] < rule,
            decreases NODE_SET_LIMIT - entry,
        {
            let probe = self.vector[entry];
            if probe > rule {
                proof {
                    assert(!self@.contains(rule)) by {
                        if self@.contains(rule) {
                            let k = choose|k: int| 0 <= k < n && self.entries()[k] == rule;
                            if k >= entry {
                                assert(old_v[entry as int] <= old_v[k]);
                            }
                        }
                    }
                    assert(self@.remove(rule) =~= self@);
                }
                return self;
            }
            if probe == rule {
                let ghost k = entry as int;
                let mut v = self.vector;
                let mut e: usize = entry;
                loop
                    invariant
                        layout(old_v, n),
                        old_v == self.vector@,
                        n == self.entries().len(),
                        forall|i: int| 0 <= i < n ==> self.entries()[i] == old_v[i],
                        old_v[k] == rule,
                        0 <= k <= e < n,
                        v@.len() == NODE_SET_LIMIT,
                        forall|i: int| 0 <= i < k ==> v@[i] == old_v[i],
                        forall|i: int| k <= i < e ==> v@[i] == old_v[i + 1],
                        forall|i: int| e <= i < NODE_SET_LIMIT ==> v@[i] == old_v[i],
                    decreases NODE_SET_LIMIT - e,
                {
                    let next = e + 1;
                    let p = if next < NODE_SET_LIMIT {
                        v[next]
                    } else {
                        NON_RULE
                    };
                    assert(next < NODE_SET_LIMIT ==> p == old_v[next as int]);
                    assert(next >= NODE_SET_LIMIT ==> next >= n);
                    v[e] = p;
                    if p == NON_RULE {
                        let result = NodeSet { vector: v };
                        proof {
                            assert(e == n - 1) by {
                                if e < n - 1 {
                                    assert(old_v[e + 1] != NON_RULE);
                                }
                            }
                            assert forall|i: int| n - 1 <= i < NODE_SET_LIMIT implies v@[i] == NON_RULE by {
                                if i > n - 1 {
                                    assert(old_v[i] == NON_RULE);
                                }
                            }
                            lemma_remove_layout(old_v, v@, n, k);
                            lemma_layout_unique(v@, n - 1, result.spec_len());
                            assert forall|x: NodeRule| result@.contains(x) <==> self@.remove(rule).contains(x) by {
                                if result@.contains(x) {
                                    let j = choose|j: int| 0 <= j < n - 1 && result.entries()[j] == x;
                                    if j < k {
                                        assert(self.entries()[j] == x);
                                        assert(old_v[j] < old_v[k]);
                                    } else {
                                        assert(self.entries()[j + 1] == x);
                                        assert(old_v[k] < old_v[j + 1]);
                                    }
                                }
                                if self@.contains(x) && x != rule {
                                    let j = choose|j: int| 0 <= j < n && self.entries()[j] == x;
                                    if j < k {
                                        assert(result.entries()[j] == x);
                                    } else {
                                        assert(j != k);
                                        assert(result.entries()[j - 1] == x);
                                    }
                                }
                            }
                            assert(result@ =~= self@.remove(rule));
                        }
                        return result;
                    }
                    e = next;
                }
            }
            entry = entry + 1;
        }
        proof {
            assert(!self@.contains(rule)) by {
                if self@.contains(rule) {
                    let k = choose|k: int| 0 <= k < n && self.entries()[k] == rule;
                    assert(old_v[k] < rule);
                }
            }
            assert(self@.remove(rule) =~= self@);
        }
        self
    }

    /// Returns a node set that additionally includes every rule of `rules`.
    ///
    /// None of `rules` may be [NON_RULE], and the union must fit into
    /// [NODE_SET_LIMIT] entries.
    pub fn include_all(self, rules: &[NodeRule]) -> (result: Self)
        requires
            self.wf(),
            forall|i: int| 0 <= i < rules@.len() ==> rules@[i] != NON_RULE,
            self@.union(rules@.to_set()).len() <= NODE_SET_LIMIT,
        ensures
            result.wf(),
            result@ == self@.union(rules@.to_set()),
    {
        proof {
            self.lemma_wf();
            vstd::seq_lib::seq_to_set_is_finite(rules@);
            vstd::set_lib::lemma_set_union_finite_iff(self@, rules@.to_set());
        }
        let mut current = self;
        let mut slice_index: usize = 0;
        while slice_index < rules.len()
            invariant
                self.wf(),
                current.wf(),
                self@.finite(),
                rules@.to_set().finite(),
                self@.union(rules@.to_set()).finite(),
                forall|i: int| 0 <= i < rules@.len() ==> rules@[i] != NON_RULE,
                self@.union(rules@.to_set()).len() <= NODE_SET_LIMIT,
                0 <= slice_index <= rules@.len(),
                current@ == self@.union(rules@.subrange(0, slice_index as int).to_set()),
            decreases rules@.len() - slice_index,
        {
            let rule = rules[slice_index];
            proof {
                current.lemma_wf();
                let total = self@.union(rules@.to_set());
                assert(current@.subset_of(total)) by {
                    assert forall|x: NodeRule| current@.contains(x) implies total.contains(x) by {
                        if !self@.contains(x) {
                            let j = choose|j: int| 0 <= j < slice_index && rules@.subrange(0, slice_index as int)[j] == x;
                            assert(rules@[j] == x);
                        }
                    }
                }
                assert(rules@.contains(rule)) by {
                    assert(rules@[slice_index as int] == rule);
                }
                if !current@.contains(rule) {
                    assert(current@.insert(rule).subset_of(total));
                    vstd::set_lib::lemma_len_subset(current@.insert(rule), total);
                }
            }
            current = current.insert(rule);
            proof {
                let before = rules@.subrange(0, slice_index as int);
                let after = rules@.subrange(0, slice_index + 1);
                assert forall|x: NodeRule| after.to_set().contains(x) <==> before.to_set().insert(rule).contains(x) by {
                    if after.to_set().contains(x) {
                        let j = choose|j: int| 0 <= j < slice_index + 1 && after[j] == x;
                        if j < slice_index {
                            assert(before[j] == x);
                        }
                    }
                    if before.to_set().insert(rule).contains(x) {
                        if x == rule {
                            assert(after[slice_index as int] == x);
                        } else {
                            let j = choose|j: int| 0 <= j < slice_index && before[j] == x;
                            assert(after[j] == x);
                        }
                    }
                }
                assert(current@ =~= self@.union(rules@.subrange(0, slice_index + 1).to_set()));
            }
            slice_index = slice_index + 1;
        }
        assert(rules@.subrange(0, rules@.len() as int) =~= rules@);
        current
    }

    /// Returns a node set without every rule of `rules`.
    pub fn exclude_all(self, rules: &[NodeRule]) -> (result: Self)
        requires
            self.wf(),
        ensures
            result.wf(),
            result@ == self@.difference(rules@.to_set()),
    {
        let mut current = self;
        let mut slice_index: usize = 0;
        while slice_index < rules.len()
            invariant
                current.wf(),
                0 <= slice_index <= rules@.len(),
                current@ == self@.difference(rules@.subrange(0, slice_index as int).to_set()),
            decreases rules@.len() - slice_index,
        {
            let rule = rules[slice_index];
            current = current.exclude(rule);
            proof {
                let before = rules@.subrange(0, slice_index as int);
                let after = rules@.subrange(0, slice_index + 1);
                assert forall|x: NodeRule| after.to_set().contains(x) <==> before.to_set().insert(rule).contains(x) by {
                    if after.to_set().contains(x) {
                        let j = choose|j: int| 0 <= j < slice_index + 1 && after[j] == x;
                        if j < slice_index {
                            assert(before[j] == x);
                        }
                    }
                    if before.to_set().insert(rule).contains(x) {
                        if x == rule {
                            assert(after[slice_index as int] == x);
                        } else {
                            let j = choose|j: int| 0 <= j < slice_index && before[j] == x;
                            assert(after[j] == x);
                        }
                    }
                }
                assert(current@ =~= self@.difference(after.to_set()));
            }
            slice_index = slice_index + 1;
        }
        assert(rules@.subrange(0, rules@.len() as int) =~= rules@);
        current
    }

    /// Constructs a node set from the slice of the node rules.
    ///
    /// None of `rules` may be [NON_RULE], and `rules` may hold at most
    /// [NODE_SET_LIMIT] distinct rules.
    pub fn new(rules: &[NodeRule]) -> (result: Self)
        requires
            forall|i: int| 0 <= i < rules@.len() ==> rules@[i] != NON_RULE,
            rules@.to_set().len() <= NODE_SET_LIMIT,
        ensures
            result.wf(),
            result@ == rules@.to_set(),
    {
        let empty = Self::empty();
        assert(empty@.union(rules@.to_set()) =~= rules@.to_set());
        empty.include_all(rules)
    }

    /// The names of the rules of this set, sorted, for display: `names`
    /// holds the name of each rule at the rule's index, and rules without a
    /// name are left out.
    pub fn display<'a>(&self, names: &[Option<&'a str>]) -> (result: Vec<&'a str>)
        requires
            self.wf(),
        ensures
            texts_sorted(texts_view(result@)),
            texts_view(result@).to_multiset() == named(self.entries(), names@).to_multiset(),
    {
        let mut rules: Vec<NodeRule> = Vec::new();
        let mut iter = self.iter();
        assert(self.entries().take(0) =~= rules@);
        loop
            invariant
                iter.wf(),
                iter.source() == *self,
                rules@ == self.entries().take(iter.next_index()),
            ensures
                rules@ == self.entries(),
            decreases self.entries().len() - iter.next_index(),
        {
            let ghost k = iter.next_index();
            match iter.next() {
                None => {
                    assert(self.entries().take(k) =~= self.entries());
                    break;
                },
                Some(rule) => {
                    rules.push(rule);
                    assert(self.entries().take(k + 1) =~= self.entries().take(k).push(rule));
                },
            }
        }
        sorted_names(rules.as_slice(), names)
    }

    /// Returns an iterator over the entries of this set in increasing order.
    pub fn iter(&self) -> (result: NodeSetIter<'_>)
        requires
            self.wf(),
        ensures
            result.source() == *self,
            result.next_index() == 0,
            result.wf(),
    {
        NodeSetIter { set: self, next: 0 }
    }
}

/// Node sets are canonical: two well-formed node sets with the same rules
/// have the same entries, slot by slot.
pub proof fn law_node_set_canonical(a: NodeSet, b: NodeSet)
    requires
        a.wf(),
        b.wf(),
        a@ == b@,
    ensures
        a.entries() == b.entries(),
{
    a.lemma_entries_wf();
    b.lemma_entries_wf();
    lemma_sorted_unique(a.entries(), b.entries());
}

/// Excluding a rule that was just included into a set without it gives
/// back the entries of the set before the inclusion.
pub proof fn law_exclude_undoes_insert(s: NodeSet, inserted: NodeSet, excluded: NodeSet, rule: NodeRule)
    requires
        s.wf(),
        inserted.wf(),
        excluded.wf(),
        !s@.contains(rule),
        inserted@ == s@.insert(rule),
        excluded@ == inserted@.remove(rule),
    ensures
        excluded.entries() == s.entries(),
{
    assert(excluded@ =~= s@);
    law_node_set_canonical(excluded, s);
}

/// Including a rule that is already in the set leaves the entries unchanged.
pub proof fn law_insert_idempotent(s: NodeSet, inserted: NodeSet, rule: NodeRule)
    requires
        s.wf(),
        inserted.wf(),
        s@.contains(rule),
        inserted@ == s@.insert(rule),
    ensures
        inserted.entries() == s.entries(),
{
    assert(inserted@ =~= s@);
    law_node_set_canonical(inserted, s);
}

/// The rules of `set` left after excluding each rule of `rules` in turn.
pub open spec fn excluded_in_turn(set: Set<NodeRule>, rules: Seq<NodeRule>) -> Set<NodeRule>
    decreases rules.len(),
{
    if rules.len() == 0 {
        set
    } else {
        excluded_in_turn(set, rules.drop_last()).remove(rules.last())
    }
}

proof fn lemma_excluded_in_turn(set: Set<NodeRule>, rules: Seq<NodeRule>)
    ensures
        excluded_in_turn(set, rules) == set.difference(rules.to_set()),
    decreases rules.len(),
{
    if rules.len() == 0 {
        assert(set.difference(rules.to_set()) =~= set);
    } else {
        let prefix = rules.drop_last();
        lemma_excluded_in_turn(set, prefix);
        assert(rules =~= prefix.push(rules.last()));
        prefix.lemma_push_to_set_commute(rules.last());
        assert(set.difference(rules.to_set()) =~= set.difference(prefix.to_set()).remove(rules.last()));
    }
}

/// Excluding a batch of rules is excluding them one by one: a set that
/// `exclude_all` builds has the entries of the set built by excluding each
/// rule in turn.
pub proof fn law_exclude_all_in_turn(s: NodeSet, rules: Seq<NodeRule>, all: NodeSet, stepwise: NodeSet)
    requires
        s.wf(),
        all.wf(),
        stepwise.wf(),
        all@ == s@.difference(rules.to_set()),
        stepwise@ == excluded_in_turn(s@, rules),
    ensures
        all.entries() == stepwise.entries(),
{
    lemma_excluded_in_turn(s@, rules);
    law_node_set_canonical(all, stepwise);
}

/// An iterator over the rules of a [NodeSet] in increasing order.
pub struct NodeSetIter<'set> {
    set: &'set NodeSet,
    next: usize,
}

impl<'set> NodeSetIter<'set> {
    /// The set being iterated.
    pub closed spec fn source(self) -> NodeSet {
        *self.set
    }

    /// The position of the next entry to yield.
    pub closed spec fn next_index(self) -> int {
        self.next as int
    }

    /// The iterator refers to a well-formed set and has not run past its end.
    pub open spec fn wf(self) -> bool {
        &&& self.source().wf()
        &&& 0 <= self.next_index() <= self.source().entries().len()
    }

    /// Yields the next entry of the set, or `None` after the last one.
    pub fn next(&mut self) -> (result: Option<NodeRule>)
        requires
            old(self).wf(),
        ensures
            final(self).wf(),
            final(self).source() == old(self).source(),
            old(self).next_index() < old(self).source().entries().len() ==> {
                &&& result == Some(old(self).source().entries()[old(self).next_index()])
                &&& final(self).next_index() == old(self).next_index() + 1
            },
            old(self).next_index() == old(self).source().entries().len() ==> {
                &&& result is None
                &&& final(self).next_index() == old(self).next_index()
            },
    {
        proof {
            self.set.lemma_wf();
        }
        if self.next == NODE_SET_LIMIT {
            return None;
        }
        let probe = self.set.vector[self.next];
        if probe == NON_RULE {
            proof {
                if self.next < self.set.entries().len() {
                    assert(self.set.entries()[self.next as int] != NON_RULE);
                }
            }
            return None;
        }
        proof {
            if self.next == self.set.entries().len() {
                assert(layout(self.set.vector@, self.set.spec_len()));
                assert(self.set.vector@[self.next as int] == NON_RULE);
            }
        }
        self.next = self.next + 1;
        Some(probe)
    }
}

} // verus!
