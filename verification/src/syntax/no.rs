use std::marker::PhantomData;

use vstd::prelude::*;

use crate::syntax::children::Children;
use crate::syntax::node::{AbstractNode, NodeRef};
use crate::syntax::rule::{NodeRule, NON_RULE};

verus! {

/// A syntax that skips the parsing stage: it produces a single node that
/// holds nothing.
pub struct NoSyntax<T> {
    _token: PhantomData<T>,
}

impl<T> NoSyntax<T> {
    /// The node this syntax produces.
    pub fn nil() -> (result: Self) {
        NoSyntax { _token: PhantomData }
    }

    /// Parsing under any rule yields [NoSyntax::nil].
    pub fn parse(rule: NodeRule) -> (result: Self) {
        Self::nil()
    }

    /// The node has no children.
    pub fn children(&self) -> (result: Children)
        ensures
            result.wf(),
            result.entries_view().len() == 0,
    {
        Children::new()
    }

    /// No rule of this syntax has a name.
    pub fn name(rule: NodeRule) -> (result: Option<&'static str>)
        ensures
            result is None,
    {
        None
    }

    /// No rule of this syntax has a description.
    pub fn describe(rule: NodeRule, verbose: bool) -> (result: Option<&'static str>)
        ensures
            result is None,
    {
        None
    }
}

impl<T> AbstractNode for NoSyntax<T> {
    /// Setting the parent has no effect: the node has none.
    open spec fn with_parent_ref(self, parent_ref: NodeRef) -> Self {
        self
    }

    /// Every node of this syntax has the rule [NON_RULE].
    open spec fn spec_rule(&self) -> NodeRule {
        NON_RULE
    }

    /// The rule of the node: [NON_RULE].
    fn rule(&self) -> (result: NodeRule)
        ensures
            result == NON_RULE,
    {
        NON_RULE
    }

    /// The reference of the node: nil.
    fn node_ref(&self) -> (result: NodeRef)
        ensures
            result.spec_is_nil(),
            result.id.inner == 0,
            result.entry.index == usize::MAX,
            result.entry.version == 0,
    {
        NodeRef::nil()
    }

    /// The reference of the parent node: nil.
    fn parent_ref(&self) -> (result: NodeRef)
        ensures
            result.spec_is_nil(),
            result.id.inner == 0,
            result.entry.index == usize::MAX,
            result.entry.version == 0,
    {
        NodeRef::nil()
    }

    /// Setting the parent has no effect.
    fn set_parent_ref(&mut self, parent_ref: NodeRef) {
    }
}

} // verus!
