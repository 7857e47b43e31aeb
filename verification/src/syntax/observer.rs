use vstd::prelude::*;

use crate::arena::{Entry, Id};
use crate::lexis::token::{TokenRef, TokenRule};
use crate::syntax::error::{ErrorRef, SyntaxError};
use crate::syntax::node::{AbstractNode, NodeRef};
use crate::syntax::rule::NodeRule;
use crate::syntax::session::{unit_entry_ref, ImmutableSyntaxSession};

verus! {

/// Receives the steps of a parsing session: the tokens read, the rules
/// entered and left, the nodes lifted and the errors reported. Each step
/// leaves the observer in the state that the matching spec function of its
/// implementation names.
pub trait Observer: Sized {
    /// The observer after it received a token.
    spec fn token_read(self, token: TokenRule, token_ref: TokenRef) -> Self;

    /// The observer after it received the start of a rule.
    spec fn rule_entered(self, rule: NodeRule, node_ref: NodeRef) -> Self;

    /// The observer after it received the end of a rule.
    spec fn rule_left(self, rule: NodeRule, node_ref: NodeRef) -> Self;

    /// The observer after it received a lifted node.
    spec fn node_lifted(self, node_ref: NodeRef) -> Self;

    /// The observer after it received a recorded syntax error.
    spec fn error_reported(self, error_ref: ErrorRef) -> Self;

    /// A token the parser read, before its cursor moves past it.
    fn read_token(&mut self, token: TokenRule, token_ref: TokenRef)
        ensures
            *final(self) == old(self).token_read(token, token_ref),
    ;

    /// A rule the parser started to parse, and the reference of its node.
    fn enter_rule(&mut self, rule: NodeRule, node_ref: NodeRef)
        ensures
            *final(self) == old(self).rule_entered(rule, node_ref),
    ;

    /// A rule the parser finished, and the reference of its node.
    fn leave_rule(&mut self, rule: NodeRule, node_ref: NodeRef)
        ensures
            *final(self) == old(self).rule_left(rule, node_ref),
    ;

    /// A node the parser made a child of the node being parsed.
    fn lift_node(&mut self, node_ref: NodeRef)
        ensures
            *final(self) == old(self).node_lifted(node_ref),
    ;

    /// A syntax error the session recorded.
    fn syntax_error(&mut self, error_ref: ErrorRef)
        ensures
            *final(self) == old(self).error_reported(error_ref),
    ;
}

/// An observer that ignores every step.
pub struct VoidObserver;

impl Default for VoidObserver {
    fn default() -> (result: Self) {
        VoidObserver
    }
}

impl Observer for VoidObserver {
    open spec fn token_read(self, token: TokenRule, token_ref: TokenRef) -> Self {
        self
    }

    open spec fn rule_entered(self, rule: NodeRule, node_ref: NodeRef) -> Self {
        self
    }

    open spec fn rule_left(self, rule: NodeRule, node_ref: NodeRef) -> Self {
        self
    }

    open spec fn node_lifted(self, node_ref: NodeRef) -> Self {
        self
    }

    open spec fn error_reported(self, error_ref: ErrorRef) -> Self {
        self
    }

    fn read_token(&mut self, token: TokenRule, token_ref: TokenRef) {
    }

    fn enter_rule(&mut self, rule: NodeRule, node_ref: NodeRef) {
    }

    fn leave_rule(&mut self, rule: NodeRule, node_ref: NodeRef) {
    }

    fn lift_node(&mut self, node_ref: NodeRef) {
    }

    fn syntax_error(&mut self, error_ref: ErrorRef) {
    }
}

/// A parsing session that keeps the bookkeeping of an
/// [ImmutableSyntaxSession] and reports each step to an observer.
pub struct ObservableSyntaxSession<N, O> {
    session: ImmutableSyntaxSession<N>,
    observer: O,
}

impl<N: AbstractNode, O: Observer> ObservableSyntaxSession<N, O> {
    /// The bookkeeping of the session.
    pub closed spec fn session(self) -> ImmutableSyntaxSession<N> {
        self.session
    }

    /// The observer the session reports to.
    pub closed spec fn observer(self) -> O {
        self.observer
    }

    /// The nodes being parsed occupy empty slots, innermost last.
    pub open spec fn wf(self) -> bool {
        self.session().wf()
    }

    /// Starts a session for the unit `id` that reports to `observer`.
    pub fn new(id: Id, observer: O) -> (result: Self)
        ensures
            result.wf(),
            result.session().spec_id() == id,
            result.session().spec_context().len() == 0,
            result.session().spec_nodes().len() == 0,
            result.session().spec_errors().len() == 0,
            !result.session().spec_failing(),
            result.observer() == observer,
    {
        ObservableSyntaxSession { session: ImmutableSyntaxSession::new(id), observer }
    }

    /// Reports the token under the parser's cursor to the observer; the
    /// bookkeeping is unchanged.
    pub fn read_token(&mut self, token: TokenRule, token_ref: TokenRef)
        ensures
            final(self).session() == old(self).session(),
            final(self).observer() == old(self).observer().token_read(token, token_ref),
    {
        self.observer.read_token(token, token_ref);
    }

    /// Accounts for a move of the parser's token cursor: once the cursor has
    /// moved, the parser is no longer failing.
    pub fn record_progress(&mut self, moved: bool)
        requires
            old(self).wf(),
        ensures
            final(self).wf(),
            final(self).session().spec_id() == old(self).session().spec_id(),
            final(self).session().spec_context() == old(self).session().spec_context(),
            final(self).session().spec_nodes() == old(self).session().spec_nodes(),
            final(self).session().spec_errors() == old(self).session().spec_errors(),
            final(self).session().spec_failing() == (old(self).session().spec_failing() && !moved),
            final(self).observer() == old(self).observer(),
    {
        self.session.record_progress(moved);
    }

    /// Starts parsing a node, as [ImmutableSyntaxSession::enter] does, and
    /// reports the rule and the node's reference.
    pub fn enter(&mut self, rule: NodeRule) -> (result: NodeRef)
        requires
            old(self).wf(),
            old(self).session().spec_nodes().len() < usize::MAX,
        ensures
            final(self).wf(),
            final(self).session().spec_id() == old(self).session().spec_id(),
            final(self).session().spec_nodes() == old(self).session().spec_nodes().push(None),
            final(self).session().spec_context() == old(self).session().spec_context().push(
                old(self).session().spec_nodes().len() as usize,
            ),
            final(self).session().spec_errors() == old(self).session().spec_errors(),
            final(self).session().spec_failing() == old(self).session().spec_failing(),
            result == unit_entry_ref(old(self).session().spec_id(), old(self).session().spec_nodes().len() as int),
            final(self).observer() == old(self).observer().rule_entered(rule, result),
    {
        let node_ref = self.session.enter(rule);
        self.observer.enter_rule(rule, node_ref);
        node_ref
    }

    /// Finishes parsing the innermost node, as [ImmutableSyntaxSession::leave]
    /// does, and reports the node's rule and reference; without a node being
    /// parsed, nothing is reported.
    pub fn leave(&mut self, node: N) -> (result: NodeRef)
        requires
            old(self).wf(),
        ensures
            final(self).wf(),
            final(self).session().spec_id() == old(self).session().spec_id(),
            final(self).session().spec_errors() == old(self).session().spec_errors(),
            final(self).session().spec_failing() == old(self).session().spec_failing(),
            old(self).session().spec_context().len() == 0 ==> {
                &&& result.spec_is_nil()
                &&& final(self).session().spec_nodes() == old(self).session().spec_nodes()
                &&& final(self).session().spec_context() == old(self).session().spec_context()
                &&& final(self).observer() == old(self).observer()
            },
            old(self).session().spec_context().len() > 0 ==> {
                let index = old(self).session().spec_context().last();
                &&& result == unit_entry_ref(old(self).session().spec_id(), index as int)
                &&& final(self).session().spec_context() == old(self).session().spec_context().drop_last()
                &&& final(self).session().spec_nodes() == old(self).session().spec_nodes().update(
                    index as int,
                    Some(node),
                )
                &&& final(self).observer() == old(self).observer().rule_left(node.spec_rule(), result)
            },
    {
        let rule = node.rule();
        let parsing = self.session.depth() > 0;
        let node_ref = self.session.leave(node);
        if parsing {
            self.observer.leave_rule(rule, node_ref);
        }
        node_ref
    }

    /// Makes the innermost node being parsed the parent of the parsed node
    /// `node_ref`, as [ImmutableSyntaxSession::lift] does, and reports the
    /// lifted node when the session has it.
    pub fn lift(&mut self, node_ref: &NodeRef)
        requires
            old(self).wf(),
        ensures
            final(self).wf(),
            final(self).session().spec_id() == old(self).session().spec_id(),
            final(self).session().spec_context() == old(self).session().spec_context(),
            final(self).session().spec_errors() == old(self).session().spec_errors(),
            final(self).session().spec_failing() == old(self).session().spec_failing(),
            ({
                let index = node_ref.entry.index as int;
                let nodes = old(self).session().spec_nodes();
                if node_ref.id == old(self).session().spec_id() && index < nodes.len() && nodes[index] is Some {
                    &&& final(self).session().spec_nodes() == nodes.update(
                        index,
                        Some(nodes[index]->0.with_parent_ref(old(self).session().innermost_ref())),
                    )
                    &&& final(self).observer() == old(self).observer().node_lifted(*node_ref)
                } else {
                    &&& final(self).session().spec_nodes() == nodes
                    &&& final(self).observer() == old(self).observer()
                }
            }),
    {
        let lifted = self.session.holds_node(node_ref);
        self.session.lift(node_ref);
        if lifted {
            self.observer.lift_node(*node_ref);
        }
    }

    /// The reference of the innermost node being parsed; nil when there is
    /// none.
    pub fn node_ref(&self) -> (result: NodeRef)
        ensures
            result == self.session().innermost_ref(),
            self.session().spec_context().len() == 0 ==> result.spec_is_nil(),
    {
        self.session.node_ref()
    }

    /// The reference of the node that encloses the innermost node being
    /// parsed; nil when there is none.
    pub fn parent_ref(&self) -> (result: NodeRef)
        ensures
            self.session().spec_context().len() < 2 ==> result.spec_is_nil(),
            self.session().spec_context().len() >= 2 ==> result == unit_entry_ref(
                self.session().spec_id(),
                self.session().spec_context()[self.session().spec_context().len() - 2] as int,
            ),
    {
        self.session.parent_ref()
    }

    /// Records a syntax error as [ImmutableSyntaxSession::failure] does, and
    /// reports it when it was recorded.
    pub fn failure(&mut self, error: SyntaxError) -> (result: ErrorRef)
        requires
            old(self).wf(),
        ensures
            final(self).wf(),
            final(self).session().spec_id() == old(self).session().spec_id(),
            final(self).session().spec_context() == old(self).session().spec_context(),
            final(self).session().spec_nodes() == old(self).session().spec_nodes(),
            final(self).session().spec_failing(),
            old(self).session().spec_failing() ==> {
                &&& result.id.inner == 0
                &&& result.entry.spec_is_nil()
                &&& result.entry.index == usize::MAX
                &&& result.entry.version == 0
                &&& final(self).session().spec_errors() == old(self).session().spec_errors()
                &&& final(self).observer() == old(self).observer()
            },
            !old(self).session().spec_failing() ==> {
                &&& result == ErrorRef {
                    id: old(self).session().spec_id(),
                    entry: Entry { index: old(self).session().spec_errors().len() as usize, version: 0 },
                }
                &&& final(self).session().spec_errors() == old(self).session().spec_errors().push(error)
                &&& final(self).observer() == old(self).observer().error_reported(result)
            },
    {
        let recorded = !self.session.is_failing();
        let error_ref = self.session.failure(error);
        if recorded {
            self.observer.syntax_error(error_ref);
        }
        error_ref
    }

    /// The bookkeeping of the session and its observer.
    pub fn into_parts(self) -> (result: (ImmutableSyntaxSession<N>, O))
        ensures
            result.0 == self.session(),
            result.1 == self.observer(),
    {
        (self.session, self.observer)
    }
}

} // verus!
