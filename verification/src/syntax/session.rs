use vstd::prelude::*;

use crate::arena::{Entry, Id};
use crate::syntax::error::{ErrorRef, SyntaxError};
use crate::syntax::node::{AbstractNode, NodeRef};
use crate::syntax::rule::NodeRule;

verus! {

/// The reference to the item at `index` of an immutable unit `id`.
pub open spec fn unit_entry_ref(id: Id, index: int) -> NodeRef {
    NodeRef { id, entry: Entry { index: index as usize, version: 0 } }
}

/// The bookkeeping of a parsing session that builds an immutable syntax
/// tree: the slots of the nodes in the order the parser entered them, the
/// stack of the nodes being parsed, the reported errors, and whether the
/// parser is failing (has reported an error and not moved since).
pub struct ImmutableSyntaxSession<N> {
    id: Id,
    context: Vec<usize>,
    nodes: Vec<Option<N>>,
    errors: Vec<SyntaxError>,
    failing: bool,
}

impl<N: AbstractNode> ImmutableSyntaxSession<N> {
    /// The identifier of the unit being built.
    pub closed spec fn spec_id(self) -> Id {
        self.id
    }

    /// The slots of the nodes being parsed, innermost last.
    pub closed spec fn spec_context(self) -> Seq<usize> {
        self.context@
    }

    /// The node slots: `None` while the node is being parsed.
    pub closed spec fn spec_nodes(self) -> Seq<Option<N>> {
        self.nodes@
    }

    /// The reported syntax errors.
    pub closed spec fn spec_errors(self) -> Seq<SyntaxError> {
        self.errors@
    }

    /// True after an error report, until the parser moves on.
    pub closed spec fn spec_failing(self) -> bool {
        self.failing
    }

    /// The reference of the innermost node being parsed; nil when there is
    /// none.
    pub open spec fn innermost_ref(self) -> NodeRef {
        if self.spec_context().len() == 0 {
            NodeRef { id: Id { inner: 0 }, entry: Entry { index: usize::MAX, version: 0 } }
        } else {
            unit_entry_ref(self.spec_id(), self.spec_context().last() as int)
        }
    }

    /// The nodes being parsed occupy empty slots, innermost last.
    pub open spec fn wf(self) -> bool {
        &&& forall|i: int, j: int|
            0 <= i < j < self.spec_context().len() ==> self.spec_context()[i] < self.spec_context()[j]
        &&& forall|i: int|
            0 <= i < self.spec_context().len() ==> {
                &&& #[trigger] self.spec_context()[i] < self.spec_nodes().len()
                &&& self.spec_nodes()[self.spec_context()[i] as int] is None
            }
    }

    /// Starts a session for the unit `id`.
    pub fn new(id: Id) -> (result: Self)
        ensures
            result.wf(),
            result.spec_id() == id,
            result.spec_context().len() == 0,
            result.spec_nodes().len() == 0,
            result.spec_errors().len() == 0,
            !result.spec_failing(),
    {
        ImmutableSyntaxSession {
            id,
            context: Vec::new(),
            nodes: Vec::new(),
            errors: Vec::new(),
            failing: false,
        }
    }

    /// Starts parsing a node: reserves its slot and makes it the innermost
    /// node being parsed. Returns the reference of the new node.
    pub fn enter(&mut self, rule: NodeRule) -> (result: NodeRef)
        requires
            old(self).wf(),
            old(self).spec_nodes().len() < usize::MAX,
        ensures
            final(self).wf(),
            final(self).spec_id() == old(self).spec_id(),
            final(self).spec_nodes() == old(self).spec_nodes().push(None),
            final(self).spec_context() == old(self).spec_context().push(old(self).spec_nodes().len() as usize),
            final(self).spec_errors() == old(self).spec_errors(),
            final(self).spec_failing() == old(self).spec_failing(),
            result == unit_entry_ref(old(self).spec_id(), old(self).spec_nodes().len() as int),
    {
        let index = self.nodes.len();
        self.nodes.push(None);
        self.context.push(index);
        NodeRef { id: self.id, entry: Entry { index, version: 0 } }
    }

    /// Finishes parsing the innermost node: stores `node` into its slot and
    /// returns its reference. Without a node being parsed, nothing changes
    /// and the result is nil.
    pub fn leave(&mut self, node: N) -> (result: NodeRef)
        requires
            old(self).wf(),
        ensures
            final(self).wf(),
            final(self).spec_id() == old(self).spec_id(),
            final(self).spec_errors() == old(self).spec_errors(),
            final(self).spec_failing() == old(self).spec_failing(),
            old(self).spec_context().len() == 0 ==> {
                &&& result.spec_is_nil()
                &&& final(self).spec_nodes() == old(self).spec_nodes()
                &&& final(self).spec_context() == old(self).spec_context()
            },
            old(self).spec_context().len() > 0 ==> {
                let index = old(self).spec_context().last();
                &&& result == unit_entry_ref(old(self).spec_id(), index as int)
                &&& final(self).spec_context() == old(self).spec_context().drop_last()
                &&& final(self).spec_nodes() == old(self).spec_nodes().update(index as int, Some(node))
            },
    {
        match self.context.pop() {
            None => NodeRef::nil(),
            Some(index) => {
                let ghost before = self.nodes@;
                let ghost last = self.context@.len() as int;
                assert(old(self).spec_context()[last] == index);
                self.nodes.set(index, Some(node));
                assert forall|i: int| 0 <= i < self.context@.len() implies {
                    &&& #[trigger] self.context@[i] < self.nodes@.len()
                    &&& self.nodes@[self.context@[i] as int] is None
                } by {
                    assert(old(self).spec_context()[i] == self.context@[i]);
                    assert(old(self).spec_context()[i] < old(self).spec_context()[last]);
                }
                NodeRef { id: self.id, entry: Entry { index, version: 0 } }
            },
        }
    }

    /// The reference of the innermost node being parsed; nil when there is
    /// none.
    pub fn node_ref(&self) -> (result: NodeRef)
        ensures
            result == self.innermost_ref(),
            self.spec_context().len() == 0 ==> result.spec_is_nil(),
    {
        let length = self.context.len();
        if length == 0 {
            return NodeRef::nil();
        }
        NodeRef { id: self.id, entry: Entry { index: self.context[length - 1], version: 0 } }
    }

    /// The reference of the node that encloses the innermost node being
    /// parsed; nil when there is none.
    pub fn parent_ref(&self) -> (result: NodeRef)
        ensures
            self.spec_context().len() < 2 ==> result.spec_is_nil(),
            self.spec_context().len() >= 2 ==> result == unit_entry_ref(
                self.spec_id(),
                self.spec_context()[self.spec_context().len() - 2] as int,
            ),
    {
        let length = self.context.len();
        if length < 2 {
            return NodeRef::nil();
        }
        NodeRef { id: self.id, entry: Entry { index: self.context[length - 2], version: 0 } }
    }

    /// The number of nodes being parsed.
    pub fn depth(&self) -> (result: usize)
        ensures
            result == self.spec_context().len(),
    {
        self.context.len()
    }

    /// Returns true after an error report, until the parser moves on.
    pub fn is_failing(&self) -> (result: bool)
        ensures
            result == self.spec_failing(),
    {
        self.failing
    }

    /// Returns true if `node_ref` refers to a slot of this session that
    /// holds a parsed node.
    pub fn holds_node(&self, node_ref: &NodeRef) -> (result: bool)
        ensures
            result == (node_ref.id == self.spec_id() && node_ref.entry.index < self.spec_nodes().len()
                && self.spec_nodes()[node_ref.entry.index as int] is Some),
    {
        if self.id != node_ref.id || node_ref.entry.index >= self.nodes.len() {
            return false;
        }
        match &self.nodes[node_ref.entry.index] {
            Some(_) => true,
            None => false,
        }
    }

    /// Makes the innermost node being parsed the parent of the parsed node
    /// `node_ref`. References of another unit, and slots that hold no parsed
    /// node, are left alone.
    pub fn lift(&mut self, node_ref: &NodeRef)
        requires
            old(self).wf(),
        ensures
            final(self).wf(),
            final(self).spec_id() == old(self).spec_id(),
            final(self).spec_context() == old(self).spec_context(),
            final(self).spec_errors() == old(self).spec_errors(),
            final(self).spec_failing() == old(self).spec_failing(),
            ({
                let index = node_ref.entry.index as int;
                let nodes = old(self).spec_nodes();
                if node_ref.id == old(self).spec_id() && index < nodes.len() && nodes[index] is Some {
                    final(self).spec_nodes() == nodes.update(
                        index,
                        Some(nodes[index]->0.with_parent_ref(old(self).innermost_ref())),
                    )
                } else {
                    final(self).spec_nodes() == nodes
                }
            }),
    {
        if self.id != node_ref.id {
            return;
        }
        let parent_ref = self.node_ref();
        let index = node_ref.entry.index;
        if index >= self.nodes.len() {
            return;
        }
        match &mut self.nodes[index] {
            Some(node) => {
                node.set_parent_ref(parent_ref);
            },
            None => {},
        }
    }

    /// Records a syntax error and returns its reference, unless the parser
    /// is failing already: then the error is dropped and the result is nil.
    pub fn failure(&mut self, error: SyntaxError) -> (result: ErrorRef)
        requires
            old(self).wf(),
        ensures
            final(self).wf(),
            final(self).spec_id() == old(self).spec_id(),
            final(self).spec_context() == old(self).spec_context(),
            final(self).spec_nodes() == old(self).spec_nodes(),
            final(self).spec_failing(),
            old(self).spec_failing() ==> {
                &&& result.id.inner == 0
                &&& result.entry.spec_is_nil()
                &&& result.entry.index == usize::MAX
                &&& result.entry.version == 0
                &&& final(self).spec_errors() == old(self).spec_errors()
            },
            !old(self).spec_failing() ==> {
                &&& result == ErrorRef {
                    id: old(self).spec_id(),
                    entry: Entry { index: old(self).spec_errors().len() as usize, version: 0 },
                }
                &&& final(self).spec_errors() == old(self).spec_errors().push(error)
            },
    {
        if self.failing {
            return ErrorRef::nil();
        }
        self.failing = true;
        let index = self.errors.len();
        self.errors.push(error);
        ErrorRef { id: self.id, entry: Entry { index, version: 0 } }
    }

    /// The identifier, the node slots and the syntax errors of the session.
    pub fn into_parts(self) -> (result: (Id, Vec<Option<N>>, Vec<SyntaxError>))
        ensures
            result.0 == self.spec_id(),
            result.1@ == self.spec_nodes(),
            result.2@ == self.spec_errors(),
    {
        (self.id, self.nodes, self.errors)
    }

    /// Accounts for a move of the parser's token cursor: once the cursor has
    /// moved, the parser is no longer failing.
    pub fn record_progress(&mut self, moved: bool)
        requires
            old(self).wf(),
        ensures
            final(self).wf(),
            final(self).spec_id() == old(self).spec_id(),
            final(self).spec_context() == old(self).spec_context(),
            final(self).spec_nodes() == old(self).spec_nodes(),
            final(self).spec_errors() == old(self).spec_errors(),
            final(self).spec_failing() == (old(self).spec_failing() && !moved),
    {
        self.failing = self.failing && !moved;
    }
}

} // verus!
