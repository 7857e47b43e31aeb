use vstd::prelude::*;

use crate::syntax::describe::{named, sorted_names, texts_sorted, texts_view};

verus! {

broadcast use vstd::array::group_array_axioms;

/// A static identifier of an arbitrary syntax grammar rule.
pub type RuleIndex = u16;

/// The maximum number of rules a [RuleSet] can hold.
pub const RULE_SET_LIMIT: usize = 16;

/// The entries after appending each rule of `rules` that is not among them
/// yet, in order: the first occurrences of new rules, after `entries`.
pub open spec fn appended(entries: Seq<RuleIndex>, rules: Seq<RuleIndex>) -> Seq<RuleIndex>
    decreases rules.len(),
{
    if rules.len() == 0 {
        entries
    } else {
        let prefix = appended(entries, rules.drop_last());
        if prefix.contains(rules.last()) {
            prefix
        } else {
            prefix.push(rules.last())
        }
    }
}

/// The entries without `rule`, the others kept in order.
pub open spec fn without(entries: Seq<RuleIndex>, rule: RuleIndex) -> Seq<RuleIndex> {
    if entries.contains(rule) {
        entries.remove(entries.index_of(rule))
    } else {
        entries
    }
}

/// The entries without each rule of `rules`, the others kept in order.
pub open spec fn removed(entries: Seq<RuleIndex>, rules: Seq<RuleIndex>) -> Seq<RuleIndex>
    decreases rules.len(),
{
    if rules.len() == 0 {
        entries
    } else {
        without(removed(entries, rules.drop_last()), rules.last())
    }
}

/// A small set of grammar rules that keeps the rules in insertion order.
#[derive(Clone, Copy, PartialEq, Eq)]
pub struct RuleSet {
    vector: [RuleIndex; 16],
    occupied: usize,
}

impl RuleSet {
    /// Well-formedness: the occupied prefix holds distinct rules.
    pub closed spec fn wf(self) -> bool {
        &&& self.occupied <= RULE_SET_LIMIT
        &&& self.entries().no_duplicates()
    }

    /// The rules of the set in insertion order.
    pub closed spec fn entries(self) -> Seq<RuleIndex> {
        self.vector@.subrange(0, self.occupied as int)
    }

    /// The abstract set of rules.
    pub open spec fn view(self) -> Set<RuleIndex> {
        self.entries().to_set()
    }

    proof fn lemma_wf(self)
        requires
            self.wf(),
        ensures
            self.entries().len() == self.occupied,
            self.occupied <= RULE_SET_LIMIT,
            forall|i: int| 0 <= i < self.occupied ==> self.entries()[i] == self.vector@[i],
            self@.len() == self.entries().len(),
            self@.finite(),
    {
        self.entries().unique_seq_to_set();
        vstd::seq_lib::seq_to_set_is_finite(self.entries());
    }

    /// The entries never repeat and fit into [RULE_SET_LIMIT] slots.
    pub proof fn lemma_entries_wf(self)
        requires
            self.wf(),
        ensures
            self.entries().no_duplicates(),
            self.entries().len() <= RULE_SET_LIMIT,
            self@.len() == self.entries().len(),
            self@.finite(),
    {
        self.lemma_wf();
    }

    /// Creates a rule set without entries.
    pub fn empty() -> (result: Self)
        ensures
            result.wf(),
            result.entries() == Seq::<RuleIndex>::empty(),
            result@ == Set::<RuleIndex>::empty(),
    {
        let result = RuleSet { vector: [0; 16], occupied: 0 };
        assert(result.entries() =~= Seq::<RuleIndex>::empty());
        assert(result@ =~= Set::<RuleIndex>::empty());
        result
    }

    /// The rules of the set in insertion order.
    pub fn to_vec(&self) -> (result: Vec<RuleIndex>)
        requires
            self.wf(),
        ensures
            result@ == self.entries(),
    {
        proof {
            self.lemma_wf();
        }
        let mut rules: Vec<RuleIndex> = Vec::new();
        let mut i: usize = 0;
        while i < self.occupied
            invariant
                self.wf(),
                i <= self.occupied,
                rules@ == self.entries().take(i as int),
            decreases self.occupied - i,
        {
            proof {
                self.lemma_wf();
            }
            rules.push(self.vector[i]);
            assert(self.entries().take(i + 1) =~= self.entries().take(i as int).push(self.vector@[i as int]));
            i = i + 1;
        }
        assert(self.entries().take(i as int) =~= self.entries());
        rules
    }

    /// The descriptions of the rules of this set, sorted, for display:
    /// `descriptions` holds the description of each rule at the rule's
    /// index, and rules without one are left out.
    pub fn display<'a>(&self, descriptions: &[Option<&'a str>]) -> (result: Vec<&'a str>)
        requires
            self.wf(),
        ensures
            texts_sorted(texts_view(result@)),
            texts_view(result@).to_multiset() == named(self.entries(), descriptions@).to_multiset(),
    {
        let rules = self.to_vec();
        sorted_names(rules.as_slice(), descriptions)
    }

    /// Returns true if the set contains `rule`.
    pub fn contains(&self, rule: RuleIndex) -> (result: bool)
        requires
            self.wf(),
        ensures
            result == self@.contains(rule),
    {
        proof {
            self.lemma_wf();
        }
        let mut entry: usize = 0;
        while entry < self.occupied
            invariant
                self.wf(),
                self.entries().len() == self.occupied,
                self.occupied <= RULE_SET_LIMIT,
                forall|i: int| 0 <= i < self.occupied ==> self.entries()[i] == self.vector@[i],
                0 <= entry <= self.occupied,
                forall|i: int| 0 <= i < entry ==> self.vector@[i] != rule,
            decreases self.occupied - entry,
        {
            if self.vector[entry] == rule {
                assert(self.entries()[entry as int] == rule);
                return true;
            }
            entry = entry + 1;
        }
        proof {
            if self@.contains(rule) {
                let k = choose|k: int| 0 <= k < self.occupied && self.entries()[k] == rule;
                assert(self.vector@[k] == rule);
            }
        }
        false
    }

    /// Returns a rule set that additionally holds `rule`, appended after the
    /// existing entries if it is new.
    ///
    /// A new rule needs a free slot: the set must hold fewer than
    /// [RULE_SET_LIMIT] entries.
    pub fn insert(self, rule: RuleIndex) -> (result: Self)
        requires
            self.wf(),
            self@.contains(rule) || self.entries().len() < RULE_SET_LIMIT,
        ensures
            result.wf(),
            self@.contains(rule) ==> result.entries() == self.entries(),
            !self@.contains(rule) ==> result.entries() == self.entries().push(rule),
            result@ == self@.insert(rule),
    {
        proof {
            self.lemma_wf();
        }
        if self.contains(rule) {
            assert(self@.insert(rule) =~= self@);
            return self;
        }
        let mut result = self;
        result.vector[self.occupied] = rule;
        result.occupied = self.occupied + 1;
        proof {
            assert(result.entries() =~= self.entries().push(rule));
            assert(result@ =~= self@.insert(rule)) by {
                assert forall|x: RuleIndex| result@.contains(x) <==> self@.insert(rule).contains(x) by {
                    if result@.contains(x) {
                        let k = choose|k: int| 0 <= k < result.entries().len() && result.entries()[k] == x;
                        if k < self.occupied {
                            assert(self.entries()[k] == x);
                        }
                    }
                    if self@.contains(x) {
                        let k = choose|k: int| 0 <= k < self.entries().len() && self.entries()[k] == x;
                        assert(result.entries()[k] == x);
                    }
                    if x == rule {
                        assert(result.entries()[self.occupied as int] == x);
                    }
                }
            }
        }
        result
    }

    /// Returns a rule set that additionally holds every rule of `rules`.
    ///
    /// The union must fit into [RULE_SET_LIMIT] entries.
    pub fn include_all(self, rules: &[RuleIndex]) -> (result: Self)
        requires
            self.wf(),
            self@.union(rules@.to_set()).len() <= RULE_SET_LIMIT,
        ensures
            result.wf(),
            result@ == self@.union(rules@.to_set()),
            result.entries() == appended(self.entries(), rules@),
    {
        proof {
            self.lemma_wf();
            vstd::seq_lib::seq_to_set_is_finite(rules@);
            vstd::set_lib::lemma_set_union_finite_iff(self@, rules@.to_set());
        }
        let mut current = self;
        let mut slice_index: usize = 0;
        assert(rules@.subrange(0, 0) =~= Seq::<RuleIndex>::empty());
        while slice_index < rules.len()
            invariant
                current.wf(),
                self@.finite(),
                self@.union(rules@.to_set()).finite(),
                self@.union(rules@.to_set()).len() <= RULE_SET_LIMIT,
                0 <= slice_index <= rules@.len(),
                current@ == self@.union(rules@.subrange(0, slice_index as int).to_set()),
                current.entries() == appended(self.entries(), rules@.subrange(0, slice_index as int)),
            decreases rules@.len() - slice_index,
        {
            let rule = rules[slice_index];
            let ghost before = rules@.subrange(0, slice_index as int);
            proof {
                assert(rules@.subrange(0, slice_index + 1).drop_last() =~= before);
                assert(rules@.subrange(0, slice_index + 1).last() == rule);
            }
            let ghost after = rules@.subrange(0, slice_index + 1);
            proof {
                current.lemma_wf();
                let total = self@.union(rules@.to_set());
                assert forall|x: RuleIndex| current@.insert(rule).contains(x) implies total.contains(x) by {
                    if x == rule {
                        assert(rules@[slice_index as int] == x);
                    } else if !self@.contains(x) {
                        let j = choose|j: int| 0 <= j < slice_index && before[j] == x;
                        assert(rules@[j] == x);
                    }
                }
                if !current@.contains(rule) {
                    vstd::set_lib::lemma_len_subset(current@.insert(rule), total);
                }
            }
            current = current.insert(rule);
            proof {
                assert forall|x: RuleIndex| after.to_set().contains(x) <==> before.to_set().insert(rule).contains(x) by {
                    if after.to_set().contains(x) {
                        let j = choose|j: int| 0 <= j < slice_index + 1 && after[j] == x;
                        if j < slice_index {
                            assert(before[j] == x);
                        }
                    }
                    if before.to_set().insert(rule).contains(x) {
                        if x == rule {
                            assert(after[slice_index as int] == x);
                        } else {
                            let j = choose|j: int| 0 <= j < slice_index && before[j] == x;
                            assert(after[j] == x);
                        }
                    }
                }
                assert(current@ =~= self@.union(after.to_set()));
            }
            slice_index = slice_index + 1;
        }
        assert(rules@.subrange(0, rules@.len() as int) =~= rules@);
        current
    }

    /// Constructs a rule set from a slice of rules, keeping the order of their
    /// first occurrences.
    ///
    /// `rules` may hold at most [RULE_SET_LIMIT] distinct rules.
    pub fn new(rules: &[RuleIndex]) -> (result: Self)
        requires
            rules@.to_set().len() <= RULE_SET_LIMIT,
        ensures
            result.wf(),
            result@ == rules@.to_set(),
            result.entries() == appended(Seq::empty(), rules@),
    {
        let empty = Self::empty();
        assert(empty@.union(rules@.to_set()) =~= rules@.to_set());
        empty.include_all(rules)
    }

    /// Returns a rule set without `rule`; the remaining entries keep their
    /// order.
    pub fn exclude(self, rule: RuleIndex) -> (result: Self)
        requires
            self.wf(),
        ensures
            result.wf(),
            result@ == self@.remove(rule),
            !self@.contains(rule) ==> result.entries() == self.entries(),
            self@.contains(rule) ==> exists|k: int|
                0 <= k < self.entries().len() && self.entries()[k] == rule
                && result.entries() == self.entries().remove(k),
            result.entries() == without(self.entries(), rule),
    {
        proof {
            self.lemma_wf();
        }
        let ghost old_e = self.entries();
        let mut result = self;
        let mut entry: usize = 0;
        while entry < self.occupied
            invariant
                self.wf(),
                old_e == self.entries(),
                old_e.len() == self.occupied,
                self.occupied <= RULE_SET_LIMIT,
                forall|i: int| 0 <= i < self.occupied ==> old_e[i] == self.vector@[i],
                result == self,
                0 <= entry <= self.occupied,
                forall|i: int| 0 <= i < entry ==> self.vector@[i] != rule,
            decreases self.occupied - entry,
        {
            if result.vector[entry] == rule {
                let ghost k = entry as int;
                entry = entry + 1;
                while entry < result.occupied
                    invariant
                        0 <= k,
                        k + 1 <= entry <= self.occupied,
                        old_e.len() == self.occupied,
                        result.occupied == self.occupied,
                        self.occupied <= RULE_SET_LIMIT,
                        forall|i: int| 0 <= i < self.occupied ==> old_e[i] == self.vector@[i],
                        forall|i: int| 0 <= i < k ==> result.vector@[i] == old_e[i],
                        forall|i: int| k <= i < entry - 1 ==> result.vector@[i] == old_e[i + 1],
                        forall|i: int| entry <= i < self.occupied ==> result.vector@[i] == old_e[i],
                    decreases self.occupied - entry,
                {
                    result.vector[entry - 1] = result.vector[entry];
                    entry = entry + 1;
                }
                result.occupied = result.occupied - 1;
                proof {
                    assert(old_e[k] == rule);
                    assert(result.entries() =~= old_e.remove(k));
                    assert(old_e.contains(rule));
                    let i = old_e.index_of(rule);
                    assert(old_e[i] == rule);
                    assert(i == k);
                    assert(result.entries().no_duplicates());
                    assert(result@ =~= self@.remove(rule)) by {
                        assert forall|x: RuleIndex| result@.contains(x) <==> self@.remove(rule).contains(x) by {
                            if result@.contains(x) {
                                let j = choose|j: int| 0 <= j < result.entries().len() && result.entries()[j] == x;
                                if j < k {
                                    assert(old_e[j] == x);
                                } else {
                                    assert(old_e[j + 1] == x);
                                }
                            }
                            if self@.remove(rule).contains(x) {
                                let j = choose|j: int| 0 <= j < old_e.len() && old_e[j] == x;
                                if j < k {
                                    assert(result.entries()[j] == x);
                                } else {
                                    assert(j != k);
                                    assert(result.entries()[j - 1] == x);
                                }
                            }
                        }
                    }
                }
                return result;
            }
            entry = entry + 1;
        }
        proof {
            if self@.contains(rule) {
                let k = choose|k: int| 0 <= k < self.occupied && old_e[k] == rule;
                assert(self.vector@[k] == rule);
            }
            assert(self@.remove(rule) =~= self@);
            assert(!old_e.contains(rule));
        }
        result
    }

    /// Returns a rule set without every rule of `rules`.
    pub fn exclude_all(self, rules: &[RuleIndex]) -> (result: Self)
        requires
            self.wf(),
        ensures
            result.wf(),
            result@ == self@.difference(rules@.to_set()),
            result.entries() == removed(self.entries(), rules@),
    {
        let mut current = self;
        let mut slice_index: usize = 0;
        assert(rules@.subrange(0, 0) =~= Seq::<RuleIndex>::empty());
        while slice_index < rules.len()
            invariant
                current.wf(),
                0 <= slice_index <= rules@.len(),
                current@ == self@.difference(rules@.subrange(0, slice_index as int).to_set()),
                current.entries() == removed(self.entries(), rules@.subrange(0, slice_index as int)),
            decreases rules@.len() - slice_index,
        {
            let rule = rules[slice_index];
            proof {
                assert(rules@.subrange(0, slice_index + 1).drop_last() =~= rules@.subrange(0, slice_index as int));
                assert(rules@.subrange(0, slice_index + 1).last() == rule);
            }
            current = current.exclude(rule);
            proof {
                let before = rules@.subrange(0, slice_index as int);
                let after = rules@.subrange(0, slice_index + 1);
                assert forall|x: RuleIndex| after.to_set().contains(x) <==> before.to_set().insert(rule).contains(x) by {
                    if after.to_set().contains(x) {
                        let j = choose|j: int| 0 <= j < slice_index + 1 && after[j] == x;
                        if j < slice_index {
                            assert(before[j] == x);
                        }
                    }
                    if before.to_set().insert(rule).contains(x) {
                        if x == rule {
                            assert(after[slice_index as int] == x);
                        } else {
                            let j = choose|j: int| 0 <= j < slice_index && before[j] == x;
                            assert(after[j] == x);
                        }
                    }
                }
                assert(current@ =~= self@.difference(after.to_set()));
            }
            slice_index = slice_index + 1;
        }
        assert(rules@.subrange(0, rules@.len() as int) =~= rules@);
        current
    }

    /// Returns true if the set has no entries.
    pub fn is_empty(&self) -> (result: bool)
        requires
            self.wf(),
        ensures
            result == (self.entries().len() == 0),
            result == (self@ == Set::<RuleIndex>::empty()),
    {
        proof {
            self.lemma_wf();
            if self.occupied > 0 {
                assert(self@.contains(self.entries()[0]));
            } else {
                assert(self@ =~= Set::<RuleIndex>::empty());
            }
        }
        self.occupied == 0
    }

    /// Returns the number of rules in the set.
    pub fn length(&self) -> (result: usize)
        requires
            self.wf(),
        ensures
            result == self.entries().len(),
            result == self@.len(),
    {
        proof {
            self.lemma_wf();
        }
        self.occupied
    }
}

impl Default for RuleSet {
    fn default() -> (result: Self)
        ensures
            result.wf(),
            result@ == Set::<RuleIndex>::empty(),
    {
        Self::empty()
    }
}

/// Excluding a rule that was just inserted into a set without it gives back
/// the entries of the set before the insertion, in their order.
pub proof fn law_rule_set_exclude_undoes_insert(
    s: RuleSet,
    inserted: RuleSet,
    excluded: RuleSet,
    rule: RuleIndex,
    k: int,
)
    requires
        s.wf(),
        inserted.wf(),
        !s@.contains(rule),
        inserted.entries() == s.entries().push(rule),
        0 <= k < inserted.entries().len(),
        inserted.entries()[k] == rule,
        excluded.entries() == inserted.entries().remove(k),
    ensures
        excluded.entries() == s.entries(),
{
    let n = s.entries().len() as int;
    if k < n {
        assert(s.entries()[k] == rule);
        assert(s@.contains(rule));
    }
    assert(excluded.entries() =~= s.entries());
}

} // verus!
