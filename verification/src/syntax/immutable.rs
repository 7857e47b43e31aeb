use vstd::prelude::*;

use crate::arena::{Entry, Id};
use crate::syntax::error::{ErrorRef, SyntaxError};
use crate::syntax::node::{AbstractNode, NodeRef};
use crate::syntax::session::{unit_entry_ref, ImmutableSyntaxSession};

verus! {

/// A syntax tree built once by a parsing session: its nodes in the order
/// the parser entered them, the root first, and its syntax errors. Entries
/// of this tree carry version 0.
pub struct ImmutableSyntaxTree<N> {
    id: Id,
    nodes: Vec<Option<N>>,
    errors: Vec<SyntaxError>,
}

impl<N: AbstractNode> ImmutableSyntaxTree<N> {
    /// The identifier of the tree.
    pub closed spec fn spec_id(self) -> Id {
        self.id
    }

    /// The node slots of the tree.
    pub closed spec fn spec_nodes(self) -> Seq<Option<N>> {
        self.nodes@
    }

    /// The syntax errors of the tree.
    pub closed spec fn spec_errors(self) -> Seq<SyntaxError> {
        self.errors@
    }

    /// True when `entry` addresses a slot of this tree's kind of entries
    /// within `length` slots.
    pub open spec fn addresses(entry: Entry, length: int) -> bool {
        entry.version == 0 && entry.index < length
    }

    /// The tree that a parsing session has built.
    pub fn from_session(session: ImmutableSyntaxSession<N>) -> (result: Self)
        ensures
            result.spec_id() == session.spec_id(),
            result.spec_nodes() == session.spec_nodes(),
            result.spec_errors() == session.spec_errors(),
    {
        let (id, nodes, errors) = session.into_parts();
        ImmutableSyntaxTree { id, nodes, errors }
    }

    /// The identifier of the tree.
    pub fn id(&self) -> (result: Id)
        ensures
            result == self.spec_id(),
    {
        self.id
    }

    /// The reference of the root node: the first node the parser entered.
    pub fn root_node_ref(&self) -> (result: NodeRef)
        ensures
            result == unit_entry_ref(self.spec_id(), 0),
    {
        NodeRef { id: self.id, entry: Entry { index: 0, version: 0 } }
    }

    /// An iterator over the references of all node slots of the tree.
    pub fn node_refs(&self) -> (result: NodeIter)
        ensures
            result.id == self.spec_id(),
            result.next == 0,
            result.end == self.spec_nodes().len(),
    {
        NodeIter { id: self.id, next: 0, end: self.nodes.len() }
    }

    /// An iterator over the references of all syntax errors of the tree.
    pub fn error_refs(&self) -> (result: ErrorIter)
        ensures
            result.id == self.spec_id(),
            result.next == 0,
            result.end == self.spec_errors().len(),
    {
        ErrorIter { id: self.id, next: 0, end: self.errors.len() }
    }

    /// Returns true if `entry` addresses a node slot of this tree.
    pub fn has_node(&self, entry: &Entry) -> (result: bool)
        ensures
            result == Self::addresses(*entry, self.spec_nodes().len() as int),
    {
        if entry.version > 0 {
            return false;
        }
        entry.index < self.nodes.len()
    }

    /// The node that `entry` addresses, if its slot holds one.
    pub fn get_node(&self, entry: &Entry) -> (result: Option<&N>)
        ensures
            result is Some <==> (Self::addresses(*entry, self.spec_nodes().len() as int)
                && self.spec_nodes()[entry.index as int] is Some),
            result is Some ==> *result->0 == self.spec_nodes()[entry.index as int]->0,
    {
        if entry.version > 0 || entry.index >= self.nodes.len() {
            return None;
        }
        self.nodes[entry.index].as_ref()
    }

    /// The node that `entry` addresses, if its slot holds one, for update.
    pub fn get_node_mut(&mut self, entry: &Entry) -> (result: Option<&mut N>)
        ensures
            final(self).spec_id() == old(self).spec_id(),
            final(self).spec_errors() == old(self).spec_errors(),
            result is Some <==> (Self::addresses(*entry, old(self).spec_nodes().len() as int)
                && old(self).spec_nodes()[entry.index as int] is Some),
            result is Some ==> {
                &&& *result.unwrap() == old(self).spec_nodes()[entry.index as int]->0
                &&& final(self).spec_nodes() == old(self).spec_nodes().update(
                    entry.index as int,
                    Some(*final(result.unwrap())),
                )
            },
            result is None ==> final(self).spec_nodes() == old(self).spec_nodes(),
    {
        if entry.version > 0 || entry.index >= self.nodes.len() {
            return None;
        }
        self.nodes[entry.index].as_mut()
    }

    /// Returns true if `entry` addresses a syntax error of this tree.
    pub fn has_error(&self, entry: &Entry) -> (result: bool)
        ensures
            result == Self::addresses(*entry, self.spec_errors().len() as int),
    {
        if entry.version > 0 {
            return false;
        }
        entry.index < self.errors.len()
    }

    /// The syntax error that `entry` addresses.
    pub fn get_error(&self, entry: &Entry) -> (result: Option<&SyntaxError>)
        ensures
            result is Some <==> Self::addresses(*entry, self.spec_errors().len() as int),
            result is Some ==> *result->0 == self.spec_errors()[entry.index as int],
    {
        if entry.version > 0 || entry.index >= self.errors.len() {
            return None;
        }
        Some(&self.errors[entry.index])
    }
}

/// An iterator over the node references of an immutable syntax tree.
pub struct NodeIter {
    pub id: Id,
    pub next: usize,
    pub end: usize,
}

impl NodeIter {
    /// Yields the reference of the next node slot, or `None` after the last.
    pub fn next(&mut self) -> (result: Option<NodeRef>)
        ensures
            final(self).id == old(self).id,
            final(self).end == old(self).end,
            old(self).next < old(self).end ==> {
                &&& result == Some(unit_entry_ref(old(self).id, old(self).next as int))
                &&& final(self).next == old(self).next + 1
            },
            old(self).next >= old(self).end ==> result is None && final(self).next == old(self).next,
    {
        if self.next >= self.end {
            return None;
        }
        let index = self.next;
        self.next = self.next + 1;
        Some(NodeRef { id: self.id, entry: Entry { index, version: 0 } })
    }
}

/// An iterator over the syntax error references of an immutable syntax tree.
pub struct ErrorIter {
    pub id: Id,
    pub next: usize,
    pub end: usize,
}

impl ErrorIter {
    /// Yields the reference of the next syntax error, or `None` after the
    /// last.
    pub fn next(&mut self) -> (result: Option<ErrorRef>)
        ensures
            final(self).id == old(self).id,
            final(self).end == old(self).end,
            old(self).next < old(self).end ==> {
                &&& result == Some(ErrorRef { id: old(self).id, entry: Entry { index: old(self).next, version: 0 } })
                &&& final(self).next == old(self).next + 1
            },
            old(self).next >= old(self).end ==> result is None && final(self).next == old(self).next,
    {
        if self.next >= self.end {
            return None;
        }
        let index = self.next;
        self.next = self.next + 1;
        Some(ErrorRef { id: self.id, entry: Entry { index, version: 0 } })
    }
}

} // verus!
