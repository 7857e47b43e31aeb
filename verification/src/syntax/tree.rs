use vstd::prelude::*;

use crate::lexis::token::TokenRef;
use crate::syntax::node::NodeRef;

verus! {

/// Visits the nodes and tokens of a syntax tree during a depth-first
/// traversal.
pub trait Visitor {
    /// Called when the traversal visits a token child of a node.
    fn visit_token(&mut self, token_ref: &TokenRef);

    /// Called when the traversal enters a node; returning false keeps the
    /// traversal out of the node's subtree.
    fn enter_node(&mut self, node_ref: &NodeRef) -> bool;

    /// Called when the traversal leaves a node.
    fn leave_node(&mut self, node_ref: &NodeRef);
}

} // verus!
