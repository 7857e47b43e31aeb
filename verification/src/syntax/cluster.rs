use vstd::prelude::*;

use crate::arena::{Id, Ref};

verus! {

/// A weak reference to a cluster of nodes within a syntax tree.
#[derive(Clone, Copy, PartialEq, Eq, Structural, Debug)]
pub struct ClusterRef {
    /// The identifier of the syntax tree.
    pub id: Id,
    /// The reference of the cluster within the tree.
    pub cluster_ref: Ref,
}

impl ClusterRef {
    /// Returns a cluster reference that never resolves to a cluster.
    pub fn nil() -> (result: Self)
        ensures
            result.id.inner == 0,
            result.cluster_ref is Nil,
    {
        ClusterRef { id: Id::nil(), cluster_ref: Ref::Nil }
    }

    /// Returns true if this reference never resolves to a cluster.
    pub fn is_nil(&self) -> (result: bool)
        ensures
            result == (self.id.inner == 0 || self.cluster_ref is Nil),
    {
        self.id.is_nil() || self.cluster_ref.is_nil()
    }
}

} // verus!
