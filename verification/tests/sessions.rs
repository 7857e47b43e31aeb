use lib::arena::{Entry, Id};
use lib::lexis::site::{SiteRef, SiteRefSpan};
use lib::lexis::token::{TokenRef, TokenSet};
use lib::syntax::error::{ErrorRef, SyntaxError};
use lib::syntax::immutable::ImmutableSyntaxTree;
use lib::syntax::node::NodeRef;
use lib::syntax::observer::{ObservableSyntaxSession, Observer, VoidObserver};
use lib::syntax::recovery::RecoveryResult;
use lib::syntax::rule::NodeSet;
use lib::syntax::session::ImmutableSyntaxSession;
use lib::syntax::void::VoidSyntax;

const UNIT: Id = Id { inner: 5 };

fn entry(index: usize) -> Entry {
    Entry { index, version: 0 }
}

fn error(index: usize) -> SyntaxError {
    let tokens: &'static TokenSet = Box::leak(Box::new(TokenSet::empty()));
    let nodes: &'static NodeSet = Box::leak(Box::new(NodeSet::empty()));
    let site = SiteRef { id: UNIT, index };
    SyntaxError {
        span: SiteRefSpan { start: site, end: site },
        context: 0,
        recovery: RecoveryResult::InsertRecover,
        expected_tokens: tokens,
        expected_nodes: nodes,
    }
}

#[test]
fn session_nests_nodes() {
    let mut session = ImmutableSyntaxSession::<VoidSyntax<u8>>::new(UNIT);
    assert!(session.node_ref().is_nil());
    let root = session.enter(0);
    assert_eq!(root, NodeRef { id: UNIT, entry: entry(0) });
    assert!(!root.is_nil());
    assert!(session.parent_ref().is_nil());
    let child = session.enter(4);
    assert_eq!(child, NodeRef { id: UNIT, entry: entry(1) });
    assert_eq!(session.node_ref(), child);
    assert_eq!(session.parent_ref(), root);
    let grandchild = session.enter(2);
    assert_eq!(session.parent_ref(), child);
    assert_eq!(session.leave(VoidSyntax::new()), grandchild);
    assert_eq!(session.leave(VoidSyntax::new()), child);
    assert_eq!(session.node_ref(), root);
    session.lift(&child);
    session.lift(&NodeRef { id: Id { inner: 6 }, entry: entry(1) });
    assert_eq!(session.leave(VoidSyntax::new()), root);
    assert!(session.leave(VoidSyntax::new()).is_nil());
    assert!(session.node_ref().is_nil());
}

#[test]
fn tree_addresses_version_zero_entries() {
    let mut session = ImmutableSyntaxSession::<VoidSyntax<u8>>::new(UNIT);
    let root = session.enter(0);
    let _open = session.enter(3);
    let tree = ImmutableSyntaxTree::from_session(session);
    assert_eq!(tree.id(), UNIT);
    assert_eq!(tree.root_node_ref(), root);
    assert!(tree.has_node(&entry(0)));
    assert!(tree.has_node(&entry(1)));
    assert!(!tree.has_node(&entry(2)));
    assert!(!tree.has_node(&Entry { index: 0, version: 1 }));
    assert!(tree.get_node(&entry(0)).is_none());
    assert!(tree.get_node(&entry(1)).is_none());
    let mut refs = tree.node_refs();
    assert_eq!(refs.next(), Some(root));
    assert_eq!(refs.next(), Some(NodeRef { id: UNIT, entry: entry(1) }));
    assert_eq!(refs.next(), None);
    assert!(tree.error_refs().next().is_none());
}

#[test]
fn left_nodes_are_stored() {
    let mut session = ImmutableSyntaxSession::<VoidSyntax<u8>>::new(UNIT);
    let root = session.enter(0);
    session.leave(VoidSyntax::new());
    let mut tree = ImmutableSyntaxTree::from_session(session);
    assert!(tree.get_node(&root.entry).is_some());
    assert!(tree.get_node_mut(&root.entry).is_some());
    assert!(tree.get_node_mut(&entry(1)).is_none());
}

#[test]
fn failures_are_reported_once_until_progress() {
    let mut session = ImmutableSyntaxSession::<VoidSyntax<u8>>::new(UNIT);
    let _root = session.enter(0);
    let first = session.failure(error(1));
    assert_eq!(first, ErrorRef { id: UNIT, entry: entry(0) });
    assert!(session.failure(error(2)).is_nil());
    session.record_progress(false);
    assert!(session.failure(error(3)).is_nil());
    session.record_progress(true);
    let second = session.failure(error(4));
    assert_eq!(second, ErrorRef { id: UNIT, entry: entry(1) });
    let tree = ImmutableSyntaxTree::from_session(session);
    assert!(tree.has_error(&entry(1)));
    assert!(!tree.has_error(&entry(2)));
    assert_eq!(tree.get_error(&entry(1)).unwrap().span.start.index, 4);
    assert_eq!(tree.get_error(&entry(0)).unwrap().span.start.index, 1);
    let mut refs = tree.error_refs();
    assert_eq!(refs.next(), Some(first));
    assert_eq!(refs.next(), Some(second));
    assert_eq!(refs.next(), None);
}

#[derive(Default)]
struct Recorder {
    events: Vec<String>,
}

impl Recorder {
    fn with(mut self, event: String) -> Self {
        self.events.push(event);
        self
    }
}

impl Observer for Recorder {
    fn token_read(self, token: u8, _token_ref: TokenRef) -> Self {
        self.with(format!("token {token}"))
    }

    fn rule_entered(self, rule: u16, node_ref: NodeRef) -> Self {
        self.with(format!("enter {rule} {}", node_ref.entry.index))
    }

    fn rule_left(self, rule: u16, node_ref: NodeRef) -> Self {
        self.with(format!("leave {rule} {}", node_ref.entry.index))
    }

    fn node_lifted(self, node_ref: NodeRef) -> Self {
        self.with(format!("lift {}", node_ref.entry.index))
    }

    fn error_reported(self, error_ref: ErrorRef) -> Self {
        self.with(format!("error {}", error_ref.entry.index))
    }

    fn read_token(&mut self, token: u8, token_ref: TokenRef) {
        *self = std::mem::take(self).token_read(token, token_ref);
    }

    fn enter_rule(&mut self, rule: u16, node_ref: NodeRef) {
        *self = std::mem::take(self).rule_entered(rule, node_ref);
    }

    fn leave_rule(&mut self, rule: u16, node_ref: NodeRef) {
        *self = std::mem::take(self).rule_left(rule, node_ref);
    }

    fn lift_node(&mut self, node_ref: NodeRef) {
        *self = std::mem::take(self).node_lifted(node_ref);
    }

    fn syntax_error(&mut self, error_ref: ErrorRef) {
        *self = std::mem::take(self).error_reported(error_ref);
    }
}

#[test]
fn observable_session_reports_steps() {
    let mut session = ObservableSyntaxSession::<VoidSyntax<u8>, Recorder>::new(UNIT, Recorder::default());
    let root = session.enter(0);
    session.read_token(7, TokenRef::nil());
    session.record_progress(true);
    let child = session.enter(3);
    assert_eq!(session.parent_ref(), root);
    assert_eq!(session.failure(error(1)), ErrorRef { id: UNIT, entry: entry(0) });
    assert!(session.failure(error(2)).is_nil());
    assert_eq!(session.leave(VoidSyntax::new()), child);
    session.lift(&child);
    session.lift(&NodeRef { id: UNIT, entry: entry(9) });
    assert_eq!(session.node_ref(), root);
    assert_eq!(session.leave(VoidSyntax::new()), root);
    assert!(session.leave(VoidSyntax::new()).is_nil());
    let (bookkeeping, recorder) = session.into_parts();
    assert_eq!(
        recorder.events,
        vec![
            "enter 0 0",
            "token 7",
            "enter 3 1",
            "error 0",
            "leave 65535 1",
            "lift 1",
            "leave 65535 0",
        ]
    );
    let tree = ImmutableSyntaxTree::from_session(bookkeeping);
    assert!(tree.get_node(&entry(1)).is_some());
    assert!(tree.has_error(&entry(0)));
}

#[test]
fn void_observer_session() {
    let mut session = ObservableSyntaxSession::<VoidSyntax<u8>, VoidObserver>::new(UNIT, VoidObserver);
    assert!(session.node_ref().is_nil());
    let root = session.enter(0);
    assert_eq!(session.leave(VoidSyntax::new()), root);
}
