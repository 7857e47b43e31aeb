use std::marker::PhantomData;

use vstd::prelude::*;

use crate::syntax::captures::{Capture, Key};
use crate::syntax::node::{AbstractNode, NodeRef};
use crate::syntax::rule::{NodeRule, NON_RULE};

verus! {

/// A syntax that produces no nodes: every query answers that there is
/// nothing.
pub struct VoidSyntax<T> {
    _token: PhantomData<T>,
}

impl<T> VoidSyntax<T> {
    /// Creates the void syntax node.
    pub fn new() -> (result: Self) {
        VoidSyntax { _token: PhantomData }
    }

    /// The name of the node: none.
    pub fn name(&self) -> (result: Option<&'static str>)
        ensures
            result is None,
    {
        None
    }

    /// The description of the node: none.
    pub fn describe(&self, verbose: bool) -> (result: Option<&'static str>)
        ensures
            result is None,
    {
        None
    }

    /// The node captures nothing.
    pub fn capture(&self, key: Key) -> (result: Option<Capture<'_>>)
        ensures
            result is None,
    {
        None
    }

    /// The node has no capture keys.
    pub fn capture_keys(&self) -> (result: Vec<Key<'static>>)
        ensures
            result@.len() == 0,
    {
        Vec::new()
    }

    /// No rule of this syntax has a name.
    pub fn rule_name(rule: NodeRule) -> (result: Option<&'static str>)
        ensures
            result is None,
    {
        None
    }

    /// No rule of this syntax has a description.
    pub fn rule_description(rule: NodeRule, verbose: bool) -> (result: Option<&'static str>)
        ensures
            result is None,
    {
        None
    }
}

impl<T> AbstractNode for VoidSyntax<T> {
    /// Setting the parent has no effect: the node has none.
    open spec fn with_parent_ref(self, parent_ref: NodeRef) -> Self {
        self
    }

    /// Every node of this syntax has the rule [NON_RULE].
    open spec fn spec_rule(&self) -> NodeRule {
        NON_RULE
    }

    /// The rule of the node: [NON_RULE].
    fn rule(&self) -> (result: NodeRule)
        ensures
            result == NON_RULE,
    {
        NON_RULE
    }

    /// The reference of the node: nil.
    fn node_ref(&self) -> (result: NodeRef)
        ensures
            result.spec_is_nil(),
            result.id.inner == 0,
            result.entry.index == usize::MAX,
            result.entry.version == 0,
    {
        NodeRef::nil()
    }

    /// The reference of the parent node: nil.
    fn parent_ref(&self) -> (result: NodeRef)
        ensures
            result.spec_is_nil(),
            result.id.inner == 0,
            result.entry.index == usize::MAX,
            result.entry.version == 0,
    {
        NodeRef::nil()
    }

    /// Setting the parent has no effect.
    fn set_parent_ref(&mut self, parent_ref: NodeRef) {
    }
}

} // verus!
