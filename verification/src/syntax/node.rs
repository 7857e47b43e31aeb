use vstd::prelude::*;

use crate::arena::{Entry, Id};
use crate::syntax::rule::NodeRule;

verus! {

/// A reference to a node instance within a syntax tree.
///
/// The nil reference refers to no node; two nil references built by
/// [NodeRef::nil] are equal.
#[derive(Clone, Copy, PartialEq, Eq, Structural, Hash, PartialOrd, Ord, Debug)]
pub struct NodeRef {
    /// The identifier of the syntax tree.
    pub id: Id,
    /// The versioned index of the node within the tree.
    pub entry: Entry,
}

impl NodeRef {
    /// True when the reference intentionally refers to no node.
    pub open spec fn spec_is_nil(self) -> bool {
        self.id.inner == 0 || self.entry.spec_is_nil()
    }

    /// Returns a reference that refers to no node.
    pub fn nil() -> (result: Self)
        ensures
            result.spec_is_nil(),
            result.id.inner == 0,
            result.entry.index == usize::MAX,
            result.entry.version == 0,
    {
        NodeRef { id: Id::nil(), entry: Entry::nil() }
    }

    /// Returns true if the reference intentionally refers to no node.
    pub fn is_nil(&self) -> (result: bool)
        ensures
            result == self.spec_is_nil(),
    {
        self.id.is_nil() || self.entry.is_nil()
    }
}

impl Default for NodeRef {
    fn default() -> (result: Self)
        ensures
            result.spec_is_nil(),
            result.id.inner == 0,
            result.entry.index == usize::MAX,
            result.entry.version == 0,
    {
        Self::nil()
    }
}

/// Two nil node references are equal: [NodeRef::nil] fixes every field of
/// its result.
pub proof fn law_nil_node_refs_equal(a: NodeRef, b: NodeRef)
    requires
        a.id.inner == 0 && a.entry.index == usize::MAX && a.entry.version == 0,
        b.id.inner == 0 && b.entry.index == usize::MAX && b.entry.version == 0,
    ensures
        a == b,
        a.spec_is_nil(),
{
}

/// The part of a syntax tree node that the syntax tree managers rely on:
/// its rule, its own reference and the reference of its parent.
pub trait AbstractNode: Sized {
    /// The node with its parent reference set to `parent_ref`; a node
    /// without the parent feature is left as it is.
    spec fn with_parent_ref(self, parent_ref: NodeRef) -> Self;

    /// The grammar rule that parsed the node.
    spec fn spec_rule(&self) -> NodeRule;

    /// The grammar rule that parsed the node.
    fn rule(&self) -> (result: NodeRule)
        ensures
            result == self.spec_rule(),
    ;

    /// The reference of this node within its tree, or nil when the node
    /// does not keep it.
    fn node_ref(&self) -> NodeRef;

    /// The reference of the parent node, or nil when the node does not keep
    /// it.
    fn parent_ref(&self) -> NodeRef;

    /// Updates the parent reference of this node.
    fn set_parent_ref(&mut self, parent_ref: NodeRef)
        ensures
            *final(self) == old(self).with_parent_ref(parent_ref),
    ;
}

} // verus!
