use lib::arena::{Entry, Id, Ref};
use lib::syntax::cluster::ClusterRef;
use lib::syntax::no::NoSyntax;
use lib::syntax::node::{AbstractNode, NodeRef};
use lib::syntax::rule::NON_RULE;
use lib::syntax::simple::SimpleNode;
use lib::syntax::void::VoidSyntax;
use lib::units::mutable::iters::MutableErrorIter;
use lib::units::mutable::watcher::{VoidWatcher, Watcher};

#[test]
fn cluster_refs() {
    assert!(ClusterRef::nil().is_nil());
    assert!(!ClusterRef { id: Id { inner: 2 }, cluster_ref: Ref::Primary }.is_nil());
    assert!(ClusterRef { id: Id { inner: 2 }, cluster_ref: Ref::Nil }.is_nil());
}

#[test]
fn error_iterator_yields_entries() {
    let entries = vec![Entry { index: 0, version: 1 }, Entry { index: 3, version: 2 }];
    let mut iter = MutableErrorIter::new(Id { inner: 5 }, entries);
    let first = iter.next().unwrap();
    assert_eq!(first.id, Id { inner: 5 });
    assert_eq!(first.entry, Entry { index: 0, version: 1 });
    assert_eq!(iter.next().unwrap().entry.index, 3);
    assert!(iter.next().is_none());
}

#[test]
fn empty_syntaxes() {
    let no = NoSyntax::<u8>::nil();
    assert_eq!(no.rule(), NON_RULE);
    assert!(no.node_ref().is_nil());
    assert!(no.children().is_empty());
    assert!(NoSyntax::<u8>::name(3).is_none());
    let void = VoidSyntax::<u8>::new();
    assert_eq!(void.rule(), NON_RULE);
    assert!(void.parent_ref().is_nil());
    assert!(void.capture_keys().is_empty());
    assert!(VoidSyntax::<u8>::rule_description(0, true).is_none());
}

#[test]
fn simple_node_inner() {
    let node = SimpleNode::Braces { inner: vec![NodeRef::nil()] };
    assert_eq!(node.inner().len(), 1);
    assert!(SimpleNode::Root { inner: Vec::new() }.inner().is_empty());
}

#[test]
fn void_watcher_ignores_reports() {
    let mut watcher = VoidWatcher::default();
    watcher.report_node(&NodeRef::nil());
}
