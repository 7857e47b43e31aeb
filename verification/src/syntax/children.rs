use vstd::prelude::*;

use crate::lexis::token::TokenRef;
use crate::syntax::captures::{last_occurrence, node_variants, token_variants};
use crate::syntax::morphism::PolyVariant;
use crate::syntax::node::NodeRef;

verus! {

/// Compares two strings by their UTF-8 bytes.
pub fn same_name(a: &str, b: &str) -> (result: bool)
    ensures
        result == (a@ == b@),
{
    let a_bytes = a.as_bytes();
    let b_bytes = b.as_bytes();
    proof {
        vstd::utf8::encode_utf8_decode_utf8(a@);
        vstd::utf8::encode_utf8_decode_utf8(b@);
    }
    if a_bytes.len() != b_bytes.len() {
        assert(a_bytes@ != b_bytes@);
        return false;
    }
    let mut i: usize = 0;
    while i < a_bytes.len()
        invariant
            a_bytes@ == vstd::utf8::encode_utf8(a@),
            b_bytes@ == vstd::utf8::encode_utf8(b@),
            a_bytes@.len() == b_bytes@.len(),
            0 <= i <= a_bytes@.len(),
            forall|k: int| 0 <= k < i ==> a_bytes@[k] == b_bytes@[k],
        decreases a_bytes@.len() - i,
    {
        if a_bytes[i] != b_bytes[i] {
            assert(a_bytes@[i as int] != b_bytes@[i as int]);
            assert(a_bytes@ != b_bytes@);
            assert(a_bytes@ != b_bytes@);
            return false;
        }
        i = i + 1;
    }
    assert(a_bytes@ =~= b_bytes@);
    true
}

/// One named child entry of a node: a token, a node, or a sequence of
/// either.
#[derive(Clone, PartialEq, Eq, Debug)]
pub enum Child {
    Token(TokenRef),
    TokenSeq(Vec<TokenRef>),
    Node(NodeRef),
    NodeSeq(Vec<NodeRef>),
}

/// The non-nil node references among `items`, in order.
pub open spec fn live_nodes(items: Seq<PolyVariant>) -> Seq<NodeRef>
    decreases items.len(),
{
    if items.len() == 0 {
        Seq::empty()
    } else {
        let rest = live_nodes(items.drop_last());
        match items.last() {
            PolyVariant::Node(node) => if node.spec_is_nil() {
                rest
            } else {
                rest.push(node)
            },
            PolyVariant::Token(..) => rest,
        }
    }
}

impl Child {
    /// The references held by the child in order, nil references included.
    pub open spec fn items(self) -> Seq<PolyVariant> {
        match self {
            Child::Token(child) => seq![PolyVariant::Token(child)],
            Child::TokenSeq(child) => token_variants(child@),
            Child::Node(child) => seq![PolyVariant::Node(child)],
            Child::NodeSeq(child) => node_variants(child@),
        }
    }

    /// Returns true if the child is a single token or node.
    pub fn is_singleton(&self) -> (result: bool)
        ensures
            result == (*self is Token || *self is Node),
    {
        match self {
            Child::Token(..) | Child::Node(..) => true,
            Child::TokenSeq(..) | Child::NodeSeq(..) => false,
        }
    }

    /// Returns true if the child is a sequence of tokens or nodes.
    pub fn is_sequence(&self) -> (result: bool)
        ensures
            result == (*self is TokenSeq || *self is NodeSeq),
    {
        !self.is_singleton()
    }

    /// Returns true if the child holds no references.
    pub fn is_empty(&self) -> (result: bool)
        ensures
            result == (self.items().len() == 0),
    {
        match self {
            Child::Token(..) | Child::Node(..) => false,
            Child::TokenSeq(seq) => seq.len() == 0,
            Child::NodeSeq(seq) => seq.len() == 0,
        }
    }

    /// Returns the number of references, nil references included.
    pub fn len(&self) -> (result: usize)
        ensures
            result == self.items().len(),
    {
        match self {
            Child::Token(..) | Child::Node(..) => 1,
            Child::TokenSeq(seq) => seq.len(),
            Child::NodeSeq(seq) => seq.len(),
        }
    }

    /// Returns the reference at `index`, or `None` past the end.
    pub fn get(&self, index: usize) -> (result: Option<PolyVariant>)
        ensures
            index < self.items().len() ==> result == Some(self.items()[index as int]),
            index >= self.items().len() ==> result is None,
    {
        match self {
            Child::Token(child) => if index == 0 {
                Some(PolyVariant::Token(*child))
            } else {
                None
            },
            Child::TokenSeq(child) => if index < child.len() {
                Some(PolyVariant::Token(child[index]))
            } else {
                None
            },
            Child::Node(child) => if index == 0 {
                Some(PolyVariant::Node(*child))
            } else {
                None
            },
            Child::NodeSeq(child) => if index < child.len() {
                Some(PolyVariant::Node(child[index]))
            } else {
                None
            },
        }
    }

    /// Returns an iterator over the references of this child.
    pub fn iter(&self) -> (result: ChildIter<'_>)
        ensures
            result.source() == *self,
            result.position() == 0,
    {
        ChildIter { child: self, index: 0 }
    }

    /// Returns an owned iterator over the references of this child.
    pub fn into_iter(self) -> (result: ChildIntoIter)
        ensures
            result.source() == self,
            result.position() == 0,
    {
        ChildIntoIter { child: self, index: 0 }
    }

    /// Appends the non-nil node references of this child to `out`.
    fn push_live_nodes(&self, out: &mut Vec<NodeRef>)
        ensures
            final(out)@ == old(out)@ + live_nodes(self.items()),
    {
        let length = self.len();
        let mut index: usize = 0;
        let ghost start = out@;
        while index < length
            invariant
                length == self.items().len(),
                0 <= index <= length,
                out@ == start + live_nodes(self.items().subrange(0, index as int)),
            decreases length - index,
        {
            let item = self.get(index);
            proof {
                assert(self.items().subrange(0, index + 1).drop_last() =~= self.items().subrange(0, index as int));
            }
            match item {
                Some(PolyVariant::Node(node)) => {
                    if !node.is_nil() {
                        out.push(node);
                    }
                },
                _ => {},
            }
            assert(out@ =~= start + live_nodes(self.items().subrange(0, index + 1)));
            index = index + 1;
        }
        assert(self.items().subrange(0, length as int) =~= self.items());
    }
}

/// An iterator over the references of a [Child].
pub struct ChildIter<'a> {
    child: &'a Child,
    index: usize,
}

impl<'a> ChildIter<'a> {
    /// The child being iterated.
    pub closed spec fn source(self) -> Child {
        *self.child
    }

    /// The index of the next reference to yield.
    pub closed spec fn position(self) -> int {
        self.index as int
    }

    /// Yields the next reference, or `None` after the last one.
    pub fn next(&mut self) -> (result: Option<PolyVariant>)
        ensures
            final(self).source() == old(self).source(),
            old(self).position() < old(self).source().items().len() ==> result == Some(
                old(self).source().items()[old(self).position()],
            ) && final(self).position() == old(self).position() + 1,
            old(self).position() >= old(self).source().items().len() ==> result is None
                && final(self).position() == old(self).position(),
    {
        let length = self.child.len();
        if self.index < length {
            let result = self.child.get(self.index);
            self.index = self.index + 1;
            result
        } else {
            None
        }
    }
}

/// An owned iterator over the references of a [Child].
pub struct ChildIntoIter {
    child: Child,
    index: usize,
}

impl ChildIntoIter {
    /// The child being iterated.
    pub closed spec fn source(self) -> Child {
        self.child
    }

    /// The index of the next reference to yield.
    pub closed spec fn position(self) -> int {
        self.index as int
    }

    /// Yields the next reference, or `None` after the last one.
    pub fn next(&mut self) -> (result: Option<PolyVariant>)
        ensures
            final(self).source() == old(self).source(),
            old(self).position() < old(self).source().items().len() ==> result == Some(
                old(self).source().items()[old(self).position()],
            ) && final(self).position() == old(self).position() + 1,
            old(self).position() >= old(self).source().items().len() ==> result is None
                && final(self).position() == old(self).position(),
    {
        let length = self.child.len();
        if self.index < length {
            let result = self.child.get(self.index);
            self.index = self.index + 1;
            result
        } else {
            None
        }
    }
}

/// A consuming iterator over the children of a [Children] set, in
/// insertion order.
pub struct ChildrenIntoIter {
    rest: Vec<Child>,
}

impl ChildrenIntoIter {
    /// The children the iterator has yet to yield, in order.
    pub closed spec fn remaining(self) -> Seq<Child> {
        Seq::new(self.rest@.len(), |i: int| self.rest@[self.rest@.len() - 1 - i])
    }

    /// Yields the next child, or `None` after the last one.
    pub fn next(&mut self) -> (result: Option<Child>)
        ensures
            old(self).remaining().len() == 0 ==> result is None && final(self).remaining() == old(self).remaining(),
            old(self).remaining().len() > 0 ==> {
                &&& result == Some(old(self).remaining()[0])
                &&& final(self).remaining() == old(self).remaining().drop_first()
            },
    {
        let result = self.rest.pop();
        proof {
            if old(self).remaining().len() > 0 {
                assert(self.remaining() =~= old(self).remaining().drop_first());
            } else {
                assert(self.remaining() =~= old(self).remaining());
            }
        }
        result
    }
}

/// The non-nil node references of `entries`, child by child.
pub open spec fn entries_nodes(entries: Seq<(&'static str, Child)>) -> Seq<NodeRef>
    decreases entries.len(),
{
    if entries.len() == 0 {
        Seq::empty()
    } else {
        entries_nodes(entries.drop_last()) + live_nodes(entries.last().1.items())
    }
}

/// True when `i` is the position of the first occurrence of `node` in
/// `nodes`.
pub open spec fn first_occurrence(nodes: Seq<NodeRef>, node: NodeRef, i: int) -> bool {
    &&& 0 <= i < nodes.len()
    &&& nodes[i] == node
    &&& forall|j: int| 0 <= j < i ==> nodes[j] != node
}

/// True when no two entries share a key.
pub open spec fn distinct_keys(entries: Seq<(&'static str, Child)>) -> bool {
    forall|i: int, j: int| 0 <= i < j < entries.len() ==> (#[trigger] entries[i]).0@ != (#[trigger] entries[j]).0@
}

/// The named children of a syntax node, in insertion order; keys are
/// unique.
#[derive(Clone)]
pub struct Children {
    vector: Vec<(&'static str, Child)>,
}

impl Children {
    /// The named children in insertion order.
    pub closed spec fn entries_view(self) -> Seq<(&'static str, Child)> {
        self.vector@
    }

    /// Well-formedness: no two entries share a key.
    pub open spec fn wf(self) -> bool {
        distinct_keys(self.entries_view())
    }

    /// Creates an empty set of children.
    pub fn new() -> (result: Self)
        ensures
            result.wf(),
            result.entries_view() == Seq::<(&'static str, Child)>::empty(),
    {
        Children { vector: Vec::new() }
    }

    /// Creates an empty set of children with room for `capacity` entries.
    pub fn with_capacity(capacity: usize) -> (result: Self)
        ensures
            result.wf(),
            result.entries_view() == Seq::<(&'static str, Child)>::empty(),
    {
        Children { vector: Vec::with_capacity(capacity) }
    }

    /// Collects named children in the given order; no two may share a key.
    pub fn from_iter(entries: Vec<(&'static str, Child)>) -> (result: Self)
        requires
            distinct_keys(entries@),
        ensures
            result.wf(),
            result.entries_view() == entries@,
    {
        Children { vector: entries }
    }

    /// Returns true if there are no children.
    pub fn is_empty(&self) -> (result: bool)
        ensures
            result == (self.entries_view().len() == 0),
    {
        self.vector.len() == 0
    }

    /// Returns the number of named children.
    pub fn len(&self) -> (result: usize)
        ensures
            result == self.entries_view().len(),
    {
        self.vector.len()
    }

    /// Finds the position of the entry with the given key.
    fn position(&self, key: &str) -> (result: Option<usize>)
        ensures
            result matches Some(index) ==> index < self.entries_view().len()
                && self.entries_view()[index as int].0@ == key@,
            result is None ==> forall|i: int| 0 <= i < self.entries_view().len()
                ==> (#[trigger] self.entries_view()[i]).0@ != key@,
    {
        let mut index: usize = 0;
        while index < self.vector.len()
            invariant
                0 <= index <= self.vector@.len(),
                forall|i: int| 0 <= i < index ==> (#[trigger] self.vector@[i]).0@ != key@,
            decreases self.vector@.len() - index,
        {
            if same_name(self.vector[index].0, key) {
                return Some(index);
            }
            index = index + 1;
        }
        None
    }

    /// Adds a child under a new `key`.
    ///
    /// The key must not be used by another child yet.
    pub fn set(&mut self, key: &'static str, value: Child)
        requires
            old(self).wf(),
            forall|i: int| 0 <= i < old(self).entries_view().len() ==> (#[trigger] old(self).entries_view()[i]).0@ != key@,
        ensures
            final(self).wf(),
            final(self).entries_view() == old(self).entries_view().push((key, value)),
    {
        self.vector.push((key, value));
    }

    /// Returns the child under `key`, or `None` if there is none.
    pub fn get(&self, key: &str) -> (result: Option<&Child>)
        requires
            self.wf(),
        ensures
            result matches Some(child) ==> exists|i: int| 0 <= i < self.entries_view().len()
                && (#[trigger] self.entries_view()[i]).0@ == key@ && self.entries_view()[i].1 == *child,
            result is None ==> forall|i: int| 0 <= i < self.entries_view().len()
                ==> (#[trigger] self.entries_view()[i]).0@ != key@,
    {
        match self.position(key) {
            Some(index) => Some(&self.vector[index].1),
            None => None,
        }
    }

    /// Returns the named children in insertion order.
    pub fn entries(&self) -> (result: &[(&'static str, Child)])
        ensures
            result@ == self.entries_view(),
    {
        self.vector.as_slice()
    }

    /// Returns the named children in insertion order, consuming the set.
    pub fn into_entries(self) -> (result: Vec<(&'static str, Child)>)
        ensures
            result@ == self.entries_view(),
    {
        self.vector
    }

    /// Returns an iterator that yields the children in insertion order,
    /// consuming the set.
    pub fn into_iter(self) -> (result: ChildrenIntoIter)
        ensures
            result.remaining() == self.entries_view().map_values(|entry: (&'static str, Child)| entry.1),
    {
        let ghost values = self.entries_view().map_values(|entry: (&'static str, Child)| entry.1);
        let mut vector = self.vector;
        let mut rest: Vec<Child> = Vec::new();
        let ghost n = vector@.len();
        loop
            invariant
                vector@.len() <= n,
                values.len() == n,
                forall|i: int| 0 <= i < vector@.len() ==> #[trigger] vector@[i].1 == values[i],
                rest@.len() == n - vector@.len(),
                forall|i: int| 0 <= i < rest@.len() ==> #[trigger] rest@[i] == values[n - 1 - i],
            ensures
                rest@.len() == n,
                forall|i: int| 0 <= i < n ==> #[trigger] rest@[i] == values[n - 1 - i],
            decreases vector@.len(),
        {
            match vector.pop() {
                Some(entry) => {
                    rest.push(entry.1);
                },
                None => {
                    break;
                },
            }
        }
        let result = ChildrenIntoIter { rest };
        assert(result.remaining() =~= values);
        result
    }

    /// Returns the non-nil node references of all children, in order.
    pub fn nodes(&self) -> (result: Vec<NodeRef>)
        ensures
            result@ == entries_nodes(self.entries_view()),
    {
        let mut result: Vec<NodeRef> = Vec::new();
        let mut index: usize = 0;
        while index < self.vector.len()
            invariant
                0 <= index <= self.vector@.len(),
                result@ == entries_nodes(self.vector@.subrange(0, index as int)),
            decreases self.vector@.len() - index,
        {
            self.vector[index].1.push_live_nodes(&mut result);
            proof {
                assert(self.vector@.subrange(0, index + 1).drop_last() =~= self.vector@.subrange(0, index as int));
            }
            index = index + 1;
        }
        assert(self.vector@.subrange(0, self.vector@.len() as int) =~= self.vector@);
        result
    }

    /// Returns the node that follows the first occurrence of `current`
    /// among [Children::nodes], or `None` if `current` does not occur or is
    /// the last node.
    pub fn next_node(&self, current: &NodeRef) -> (result: Option<NodeRef>)
        ensures
            (forall|i: int| 0 <= i < entries_nodes(self.entries_view()).len()
                ==> entries_nodes(self.entries_view())[i] != *current) ==> result is None,
            forall|i: int| #[trigger] first_occurrence(entries_nodes(self.entries_view()), *current, i)
                ==> (if i + 1 < entries_nodes(self.entries_view()).len() {
                    result == Some(entries_nodes(self.entries_view())[i + 1])
                } else {
                    result is None
                }),
    {
        let nodes = self.nodes();
        let mut index: usize = 0;
        while index < nodes.len()
            invariant
                nodes@ == entries_nodes(self.entries_view()),
                0 <= index <= nodes@.len(),
                forall|j: int| 0 <= j < index ==> nodes@[j] != *current,
            decreases nodes@.len() - index,
        {
            if nodes[index] == *current {
                assert(first_occurrence(nodes@, *current, index as int));
                assert forall|i: int| #[trigger] first_occurrence(nodes@, *current, i) implies i == index by {
                    if i < index {
                    } else if i > index {
                        assert(nodes@[index as int] == *current);
                    }
                }
                if index + 1 < nodes.len() {
                    return Some(nodes[index + 1]);
                }
                return None;
            }
            index = index + 1;
        }
        None
    }

    /// Returns the node that precedes the last occurrence of `current`
    /// among [Children::nodes], or `None` if `current` does not occur or is
    /// the first node.
    pub fn prev_node(&self, current: &NodeRef) -> (result: Option<NodeRef>)
        ensures
            (forall|i: int| 0 <= i < entries_nodes(self.entries_view()).len()
                ==> entries_nodes(self.entries_view())[i] != *current) ==> result is None,
            forall|i: int| #[trigger] last_occurrence(entries_nodes(self.entries_view()), *current, i)
                ==> (if i > 0 {
                    result == Some(entries_nodes(self.entries_view())[i - 1])
                } else {
                    result is None
                }),
    {
        let nodes = self.nodes();
        let mut index: usize = nodes.len();
        while index > 0
            invariant
                nodes@ == entries_nodes(self.entries_view()),
                0 <= index <= nodes@.len(),
                forall|j: int| index <= j < nodes@.len() ==> nodes@[j] != *current,
            decreases index,
        {
            let probe = index - 1;
            if nodes[probe] == *current {
                assert(last_occurrence(nodes@, *current, probe as int));
                assert forall|i: int| #[trigger] last_occurrence(nodes@, *current, i) implies i == probe by {
                    if i < probe {
                        assert(nodes@[probe as int] == *current);
                    }
                }
                if probe > 0 {
                    return Some(nodes[probe - 1]);
                }
                return None;
            }
            index = probe;
        }
        None
    }
}

} // verus!

verus! {

/// What a read gives back of a write: after a child is set under a fresh
/// key, every entry under that key holds exactly the child that was set,
/// and the entries stay uniquely keyed.
pub proof fn law_get_after_set(before: Children, after: Children, key: &'static str, value: Child)
    requires
        before.wf(),
        forall|i: int| 0 <= i < before.entries_view().len() ==> (#[trigger] before.entries_view()[i]).0@ != key@,
        after.entries_view() == before.entries_view().push((key, value)),
    ensures
        after.wf(),
        forall|i: int| 0 <= i < after.entries_view().len() && (#[trigger] after.entries_view()[i]).0@ == key@
            ==> after.entries_view()[i].1 == value,
        after.entries_view()[after.entries_view().len() - 1].0@ == key@,
{
    assert forall|i: int| 0 <= i < after.entries_view().len() && (#[trigger] after.entries_view()[i]).0@ == key@
        implies after.entries_view()[i].1 == value by {
        if i < before.entries_view().len() {
            assert(before.entries_view()[i] == after.entries_view()[i]);
        }
    }
    assert forall|i: int, j: int| 0 <= i < j < after.entries_view().len() implies
        (#[trigger] after.entries_view()[i]).0@ != (#[trigger] after.entries_view()[j]).0@ by {
        assert(after.entries_view()[i] == before.entries_view()[i]);
        if j < before.entries_view().len() {
            assert(after.entries_view()[j] == before.entries_view()[j]);
        }
    }
}

proof fn lemma_steps_prefix(steps: Seq<Children>, pairs: Seq<(&'static str, Child)>, n: int)
    requires
        steps.len() == pairs.len() + 1,
        steps[0].entries_view() == Seq::<(&'static str, Child)>::empty(),
        forall|i: int| 0 <= i < pairs.len() ==> #[trigger] steps[i + 1].entries_view() == steps[i].entries_view().push(pairs[i]),
        0 <= n < steps.len(),
    ensures
        steps[n].entries_view() == pairs.take(n),
    decreases n,
{
    if n == 0 {
        assert(pairs.take(0) =~= Seq::<(&'static str, Child)>::empty());
    } else {
        lemma_steps_prefix(steps, pairs, n - 1);
        assert(steps[(n - 1) + 1].entries_view() == steps[n - 1].entries_view().push(pairs[n - 1]));
        assert(pairs.take(n) =~= pairs.take(n - 1).push(pairs[n - 1]));
    }
}

/// Children set one after another under distinct keys, starting from no
/// children, are listed in the order of the calls: after each call the
/// entries are the pairs set so far.
pub proof fn law_children_in_call_order(steps: Seq<Children>, pairs: Seq<(&'static str, Child)>)
    requires
        steps.len() == pairs.len() + 1,
        steps[0].entries_view() == Seq::<(&'static str, Child)>::empty(),
        forall|i: int| 0 <= i < pairs.len() ==> #[trigger] steps[i + 1].entries_view() == steps[i].entries_view().push(pairs[i]),
    ensures
        forall|n: int| 0 <= n < steps.len() ==> #[trigger] steps[n].entries_view() == pairs.take(n),
        steps.last().entries_view() == pairs,
{
    assert forall|n: int| 0 <= n < steps.len() implies #[trigger] steps[n].entries_view() == pairs.take(n) by {
        lemma_steps_prefix(steps, pairs, n);
    }
    lemma_steps_prefix(steps, pairs, pairs.len() as int);
    assert(pairs.take(pairs.len() as int) =~= pairs);
}

} // verus!
