use vstd::prelude::*;

use crate::syntax::node::NodeRef;

verus! {

/// A generic syntax of nested parens: parentheses, brackets and braces.
#[derive(Clone, Debug, PartialEq, Eq)]
pub enum SimpleNode {
    /// The root node that holds the top-level parens.
    Root { inner: Vec<NodeRef> },
    /// A pair of parentheses `( ... )`.
    Parenthesis { inner: Vec<NodeRef> },
    /// A pair of brackets `[ ... ]`.
    Brackets { inner: Vec<NodeRef> },
    /// A pair of braces `{ ... }`.
    Braces { inner: Vec<NodeRef> },
}

impl SimpleNode {
    /// The parens nested inside this node.
    pub open spec fn spec_inner(&self) -> Seq<NodeRef> {
        match self {
            SimpleNode::Root { inner } => inner@,
            SimpleNode::Parenthesis { inner } => inner@,
            SimpleNode::Brackets { inner } => inner@,
            SimpleNode::Braces { inner } => inner@,
        }
    }

    /// Returns the parens nested inside this node.
    pub fn inner(&self) -> (result: &[NodeRef])
        ensures
            result@ == self.spec_inner(),
    {
        match self {
            SimpleNode::Root { inner } => inner.as_slice(),
            SimpleNode::Parenthesis { inner } => inner.as_slice(),
            SimpleNode::Brackets { inner } => inner.as_slice(),
            SimpleNode::Braces { inner } => inner.as_slice(),
        }
    }
}

} // verus!
