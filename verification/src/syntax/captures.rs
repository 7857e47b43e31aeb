use vstd::prelude::*;

use crate::lexis::token::TokenRef;
use crate::syntax::morphism::{PolyVariant, RefKind};
use crate::syntax::children::first_occurrence;
use crate::syntax::node::NodeRef;

verus! {

/// A polymorphic key that is either a string or a numeric key.
#[derive(Clone, Copy, PartialEq, Eq, Hash, PartialOrd, Ord, Debug)]
pub enum Key<'a> {
    /// A string key, usually the name of a variant field.
    Name(&'a str),
    /// A numeric key, usually the index of a variant field.
    Index(usize),
}

/// Wraps every node reference of `nodes` as a [PolyVariant].
pub open spec fn node_variants(nodes: Seq<NodeRef>) -> Seq<PolyVariant> {
    nodes.map_values(|node: NodeRef| PolyVariant::Node(node))
}

/// Wraps every token reference of `tokens` as a [PolyVariant].
pub open spec fn token_variants(tokens: Seq<TokenRef>) -> Seq<PolyVariant> {
    tokens.map_values(|token: TokenRef| PolyVariant::Token(token))
}

/// A group of node children captured by one field of a node: a single
/// node or token (possibly nil), or a sequence of nodes or tokens.
#[derive(Clone, PartialEq, Eq, Hash, Debug)]
pub enum Capture<'a> {
    /// A single node capture.
    SingleNode(&'a NodeRef),
    /// A capture of a sequence of nodes.
    ManyNodes(&'a Vec<NodeRef>),
    /// A single token capture.
    SingleToken(&'a TokenRef),
    /// A capture of a sequence of tokens.
    ManyTokens(&'a Vec<TokenRef>),
}

impl<'a> Capture<'a> {
    /// The captured children in order, nil references included.
    pub open spec fn items(self) -> Seq<PolyVariant> {
        match self {
            Capture::SingleNode(capture) => seq![PolyVariant::Node(*capture)],
            Capture::ManyNodes(capture) => node_variants(capture@),
            Capture::SingleToken(capture) => seq![PolyVariant::Token(*capture)],
            Capture::ManyTokens(capture) => token_variants(capture@),
        }
    }

    /// Describes the kind of the captured children.
    pub fn kind(&self) -> (result: RefKind)
        ensures
            (result is Node) == (*self is SingleNode || *self is ManyNodes),
            (result is Token) == (*self is SingleToken || *self is ManyTokens),
    {
        match self {
            Capture::SingleNode(..) | Capture::ManyNodes(..) => RefKind::Node,
            Capture::SingleToken(..) | Capture::ManyTokens(..) => RefKind::Token,
        }
    }

    /// Returns true if the capture holds a single child.
    pub fn is_single(&self) -> (result: bool)
        ensures
            result == (*self is SingleNode || *self is SingleToken),
    {
        match self {
            Capture::SingleNode(..) | Capture::SingleToken(..) => true,
            Capture::ManyTokens(..) | Capture::ManyNodes(..) => false,
        }
    }

    /// Returns true if the capture holds a sequence of children.
    pub fn is_many(&self) -> (result: bool)
        ensures
            result == (*self is ManyNodes || *self is ManyTokens),
    {
        !self.is_single()
    }

    /// Returns the number of children, nil references included.
    pub fn len(&self) -> (result: usize)
        ensures
            result == self.items().len(),
    {
        match self {
            Capture::SingleNode(..) | Capture::SingleToken(..) => 1,
            Capture::ManyNodes(capture) => capture.len(),
            Capture::ManyTokens(capture) => capture.len(),
        }
    }

    /// Returns true if the capture has no children.
    pub fn is_empty(&self) -> (result: bool)
        ensures
            result == (self.items().len() == 0),
    {
        match self {
            Capture::SingleNode(..) | Capture::SingleToken(..) => false,
            Capture::ManyNodes(capture) => capture.len() == 0,
            Capture::ManyTokens(capture) => capture.len() == 0,
        }
    }

    /// Returns the child at `index`, or `None` if the index is out of bounds.
    pub fn get(&self, index: usize) -> (result: Option<PolyVariant>)
        ensures
            index < self.items().len() ==> result == Some(self.items()[index as int]),
            index >= self.items().len() ==> result is None,
    {
        match self {
            Capture::SingleNode(capture) => if index == 0 {
                Some(PolyVariant::Node(**capture))
            } else {
                None
            },
            Capture::SingleToken(capture) => if index == 0 {
                Some(PolyVariant::Token(**capture))
            } else {
                None
            },
            Capture::ManyNodes(capture) => if index < capture.len() {
                Some(PolyVariant::Node(capture[index]))
            } else {
                None
            },
            Capture::ManyTokens(capture) => if index < capture.len() {
                Some(PolyVariant::Token(capture[index]))
            } else {
                None
            },
        }
    }

    /// Returns the first child, or `None` if the capture is empty.
    pub fn first(&self) -> (result: Option<PolyVariant>)
        ensures
            self.items().len() > 0 ==> result == Some(self.items()[0]),
            self.items().len() == 0 ==> result is None,
    {
        self.get(0)
    }

    /// Returns the last child, or `None` if the capture is empty.
    pub fn last(&self) -> (result: Option<PolyVariant>)
        ensures
            self.items().len() > 0 ==> result == Some(self.items().last()),
            self.items().len() == 0 ==> result is None,
    {
        let length = self.len();
        if length == 0 {
            None
        } else {
            self.get(length - 1)
        }
    }

    /// Returns an owned double-ended iterator over the children.
    pub fn into_iter(self) -> (result: CaptureIntoIter<'a>)
        ensures
            result.wf(),
            result.source() == self,
            result.remaining() == self.items(),
    {
        CaptureIntoIter::new(self)
    }
}

/// An owned double-ended iterator over the children of a [Capture].
pub struct CaptureIntoIter<'a> {
    front: usize,
    back: usize,
    capture: Capture<'a>,
}

impl<'a> CaptureIntoIter<'a> {
    /// The capture being iterated.
    pub closed spec fn source(self) -> Capture<'a> {
        self.capture
    }

    /// The children not yet yielded from either end.
    pub closed spec fn remaining(self) -> Seq<PolyVariant> {
        self.capture.items().subrange(self.front as int, self.back as int)
    }

    /// The cursors stay within the capture.
    pub closed spec fn wf(self) -> bool {
        self.front <= self.back <= self.capture.items().len()
    }

    /// Creates an iterator over all children of `capture`.
    pub fn new(capture: Capture<'a>) -> (result: Self)
        ensures
            result.wf(),
            result.source() == capture,
            result.remaining() == capture.items(),
    {
        let back = capture.len();
        let result = CaptureIntoIter { front: 0, back, capture };
        assert(result.remaining() =~= capture.items());
        result
    }

    /// Yields the next child from the front.
    pub fn next(&mut self) -> (result: Option<PolyVariant>)
        requires
            old(self).wf(),
        ensures
            final(self).wf(),
            final(self).source() == old(self).source(),
            old(self).remaining().len() == 0 ==> result is None && final(self).remaining() == old(self).remaining(),
            old(self).remaining().len() > 0 ==> result == Some(old(self).remaining()[0])
                && final(self).remaining() == old(self).remaining().drop_first(),
    {
        if self.front == self.back {
            return None;
        }
        let index = self.front;
        self.front = self.front + 1;
        let result = self.capture.get(index);
        assert(self.remaining() =~= old(self).remaining().drop_first());
        result
    }

    /// Yields the next child from the back.
    pub fn next_back(&mut self) -> (result: Option<PolyVariant>)
        requires
            old(self).wf(),
        ensures
            final(self).wf(),
            final(self).source() == old(self).source(),
            old(self).remaining().len() == 0 ==> result is None && final(self).remaining() == old(self).remaining(),
            old(self).remaining().len() > 0 ==> result == Some(old(self).remaining().last())
                && final(self).remaining() == old(self).remaining().drop_last(),
    {
        if self.front == self.back {
            return None;
        }
        self.back = self.back - 1;
        let result = self.capture.get(self.back);
        assert(self.remaining() =~= old(self).remaining().drop_last());
        result
    }

    /// Returns the number of children not yet yielded.
    pub fn len(&self) -> (result: usize)
        requires
            self.wf(),
        ensures
            result == self.remaining().len(),
    {
        self.back - self.front
    }
}


/// The node references among `items`, in order, nil ones included.
pub open spec fn item_nodes(items: Seq<PolyVariant>) -> Seq<NodeRef>
    decreases items.len(),
{
    if items.len() == 0 {
        Seq::empty()
    } else {
        item_nodes(items.drop_last()) + match items.last() {
            PolyVariant::Node(node) => seq![node],
            PolyVariant::Token(_) => Seq::empty(),
        }
    }
}

/// The node children of a node whose captures, in key order, are
/// `captures`: the node references of every capture, in order.
pub open spec fn capture_nodes<'a>(captures: Seq<Capture<'a>>) -> Seq<NodeRef>
    decreases captures.len(),
{
    if captures.len() == 0 {
        Seq::empty()
    } else {
        capture_nodes(captures.drop_last()) + item_nodes(captures.last().items())
    }
}

/// True when `i` is the last position of `node` in `nodes`.
pub open spec fn last_occurrence(nodes: Seq<NodeRef>, node: NodeRef, i: int) -> bool {
    &&& 0 <= i < nodes.len()
    &&& nodes[i] == node
    &&& forall|j: int| i < j < nodes.len() ==> nodes[j] != node
}

/// Collects the node children of a node with the given captures.
fn collect_nodes(captures: &[Capture<'_>]) -> (result: Vec<NodeRef>)
    ensures
        result@ == capture_nodes(captures@),
{
    let mut result: Vec<NodeRef> = Vec::new();
    let mut c: usize = 0;
    assert(captures@.take(0) =~= Seq::<Capture>::empty());
    while c < captures.len()
        invariant
            c <= captures@.len(),
            result@ == capture_nodes(captures@.take(c as int)),
        decreases captures@.len() - c,
    {
        let capture = &captures[c];
        let n = capture.len();
        let ghost items = capture.items();
        let ghost prefix = result@;
        let mut i: usize = 0;
        assert(items.take(0) =~= Seq::<PolyVariant>::empty());
        assert(prefix =~= prefix + item_nodes(items.take(0)));
        while i < n
            invariant
                n == items.len(),
                items == capture.items(),
                i <= n,
                result@ == prefix + item_nodes(items.take(i as int)),
            decreases n - i,
        {
            assert(items.take(i + 1).drop_last() =~= items.take(i as int));
            match capture.get(i) {
                Some(PolyVariant::Node(node)) => {
                    result.push(node);
                    assert(result@ =~= prefix + item_nodes(items.take(i + 1)));
                },
                _ => {
                    assert(result@ =~= prefix + item_nodes(items.take(i + 1)));
                },
            }
            i = i + 1;
        }
        assert(items.take(n as int) =~= items);
        assert(captures@.take(c + 1).drop_last() =~= captures@.take(c as int));
        c = c + 1;
    }
    assert(captures@.take(c as int) =~= captures@);
    result
}

/// The node child that follows the first occurrence of `current` among the
/// node children of a node with the given captures (in key order), or
/// `None` if `current` does not occur or is the last node child.
pub fn next_child_node(captures: &[Capture<'_>], current: &NodeRef) -> (result: Option<NodeRef>)
    ensures
        (forall|i: int| 0 <= i < capture_nodes(captures@).len()
            ==> capture_nodes(captures@)[i] != *current) ==> result is None,
        forall|i: int| #[trigger] first_occurrence(capture_nodes(captures@), *current, i)
            ==> (if i + 1 < capture_nodes(captures@).len() {
                result == Some(capture_nodes(captures@)[i + 1])
            } else {
                result is None
            }),
{
    let nodes = collect_nodes(captures);
    let mut index: usize = 0;
    while index < nodes.len()
        invariant
            nodes@ == capture_nodes(captures@),
            0 <= index <= nodes@.len(),
            forall|j: int| 0 <= j < index ==> nodes@[j] != *current,
        decreases nodes@.len() - index,
    {
        if nodes[index] == *current {
            assert(first_occurrence(nodes@, *current, index as int));
            assert forall|i: int| #[trigger] first_occurrence(nodes@, *current, i) implies i == index by {
                if i > index {
                    assert(nodes@[index as int] == *current);
                }
            }
            if index + 1 < nodes.len() {
                return Some(nodes[index + 1]);
            }
            return None;
        }
        index = index + 1;
    }
    None
}

/// The node child that precedes the last occurrence of `current` among the
/// node children of a node with the given captures (in key order), or
/// `None` if `current` does not occur or is the first node child.
pub fn prev_child_node(captures: &[Capture<'_>], current: &NodeRef) -> (result: Option<NodeRef>)
    ensures
        (forall|i: int| 0 <= i < capture_nodes(captures@).len()
            ==> capture_nodes(captures@)[i] != *current) ==> result is None,
        forall|i: int| #[trigger] last_occurrence(capture_nodes(captures@), *current, i)
            ==> (if i > 0 {
                result == Some(capture_nodes(captures@)[i - 1])
            } else {
                result is None
            }),
{
    let nodes = collect_nodes(captures);
    let mut index: usize = nodes.len();
    while index > 0
        invariant
            nodes@ == capture_nodes(captures@),
            0 <= index <= nodes@.len(),
            forall|j: int| index <= j < nodes@.len() ==> nodes@[j] != *current,
        decreases index,
    {
        let probe = index - 1;
        if nodes[probe] == *current {
            assert(last_occurrence(nodes@, *current, probe as int));
            assert forall|i: int| #[trigger] last_occurrence(nodes@, *current, i) implies i == probe by {
                if i < probe {
                    assert(nodes@[probe as int] == *current);
                }
            }
            if probe > 0 {
                return Some(nodes[probe - 1]);
            }
            return None;
        }
        index = probe;
    }
    None
}

} // verus!
