use lib::arena::{Entry, Id};
use lib::lexis::token::TokenRef;
use lib::syntax::captures::{next_child_node, prev_child_node, Capture, Key};
use lib::syntax::children::{same_name, Child, Children};
use lib::syntax::morphism::{PolyVariant, RefKind};
use lib::syntax::node::NodeRef;

fn node(index: usize) -> NodeRef {
    NodeRef { id: Id { inner: 1 }, entry: Entry { index, version: 1 } }
}

fn token(index: usize) -> TokenRef {
    TokenRef { id: Id { inner: 1 }, entry: Entry { index, version: 1 } }
}

#[test]
fn nil_references() {
    assert!(NodeRef::nil().is_nil());
    assert!(TokenRef::nil().is_nil());
    assert!(NodeRef::nil() == NodeRef::nil());
    assert!(!node(3).is_nil());
    assert!(!NodeRef { id: Id { inner: 1 }, entry: Entry { index: 0, version: 0 } }.is_nil());
    assert!(NodeRef { id: Id { inner: 1 }, entry: Entry::nil() }.is_nil());
    assert!(NodeRef { id: Id { inner: 0 }, entry: Entry { index: 3, version: 1 } }.is_nil());
    assert!(NodeRef::default().is_nil());
}

#[test]
fn poly_variants() {
    let variant = PolyVariant::Node(node(2));
    assert!(variant.kind().is_node());
    assert!(!variant.kind().is_token());
    assert_eq!(variant.as_node_ref(), node(2));
    assert!(variant.as_token_ref().is_nil());
    assert_eq!(variant.id(), Id { inner: 1 });
    let variant = PolyVariant::Token(token(4));
    assert_eq!(variant.as_token_ref(), token(4));
    assert!(variant.as_node_ref().is_nil());
    assert!(RefKind::Token.is_token());
}

#[test]
fn single_capture() {
    let single = node(7);
    let capture = Capture::SingleNode(&single);
    assert!(capture.is_single());
    assert!(!capture.is_many());
    assert_eq!(capture.len(), 1);
    assert!(!capture.is_empty());
    assert!(capture.kind().is_node());
    assert_eq!(capture.get(0), Some(PolyVariant::Node(node(7))));
    assert_eq!(capture.get(1), None);
    assert_eq!(capture.first(), capture.last());
}

#[test]
fn many_capture_iterates_both_ends() {
    let tokens = vec![token(1), token(2), token(3)];
    let capture = Capture::ManyTokens(&tokens);
    assert!(capture.is_many());
    assert!(capture.kind().is_token());
    assert_eq!(capture.len(), 3);
    assert_eq!(capture.first(), Some(PolyVariant::Token(token(1))));
    assert_eq!(capture.last(), Some(PolyVariant::Token(token(3))));
    let mut iter = capture.into_iter();
    assert_eq!(iter.len(), 3);
    assert_eq!(iter.next(), Some(PolyVariant::Token(token(1))));
    assert_eq!(iter.next_back(), Some(PolyVariant::Token(token(3))));
    assert_eq!(iter.next(), Some(PolyVariant::Token(token(2))));
    assert_eq!(iter.next(), None);
    assert_eq!(iter.next_back(), None);
    let empty: Vec<NodeRef> = Vec::new();
    let capture = Capture::ManyNodes(&empty);
    assert!(capture.is_empty());
    assert_eq!(capture.first(), None);
    assert_eq!(capture.last(), None);
}

#[test]
fn keys() {
    assert!(Key::Name("left") < Key::Index(0));
    assert_eq!(Key::Index(3), Key::Index(3));
}

#[test]
fn child_accessors() {
    let child = Child::NodeSeq(vec![node(1), NodeRef::nil(), node(2)]);
    assert!(child.is_sequence());
    assert!(!child.is_singleton());
    assert_eq!(child.len(), 3);
    assert_eq!(child.get(1), Some(PolyVariant::Node(NodeRef::nil())));
    assert_eq!(child.get(3), None);
    let mut iter = child.iter();
    assert_eq!(iter.next(), Some(PolyVariant::Node(node(1))));
    let single = Child::Token(token(5));
    assert!(single.is_singleton());
    assert!(!single.is_empty());
    let mut owned = single.into_iter();
    assert_eq!(owned.next(), Some(PolyVariant::Token(token(5))));
    assert_eq!(owned.next(), None);
    assert!(Child::TokenSeq(Vec::new()).is_empty());
}

#[test]
fn children_lookup_and_nodes() {
    let mut children = Children::new();
    assert!(children.is_empty());
    children.set("left", Child::Node(node(1)));
    children.set("op", Child::Token(token(2)));
    children.set("args", Child::NodeSeq(vec![node(3), NodeRef::nil(), node(4)]));
    assert_eq!(children.len(), 3);
    assert_eq!(children.get("op"), Some(&Child::Token(token(2))));
    assert_eq!(children.get("missing"), None);
    assert_eq!(children.nodes(), vec![node(1), node(3), node(4)]);
    assert_eq!(children.next_node(&node(1)), Some(node(3)));
    assert_eq!(children.next_node(&node(4)), None);
    assert_eq!(children.next_node(&node(9)), None);
    assert_eq!(children.prev_node(&node(1)), None);
    assert_eq!(children.prev_node(&node(3)), Some(node(1)));
    assert_eq!(children.prev_node(&node(4)), Some(node(3)));
    assert_eq!(children.prev_node(&node(9)), None);
    assert_eq!(children.entries().len(), 3);
    assert_eq!(children.into_entries()[0].0, "left");
    assert_eq!(Children::with_capacity(4).prev_node(&node(1)), None);
}

#[test]
fn names_compare_by_text() {
    assert!(same_name("alpha", "alpha"));
    assert!(!same_name("alpha", "alphb"));
    assert!(!same_name("alpha", "alph"));
    assert!(same_name("", ""));
}

#[test]
fn children_collected_in_order() {
    let children = Children::from_iter(vec![
        ("first", Child::Node(node(7))),
        ("second", Child::TokenSeq(vec![token(1), token(2)])),
    ]);
    assert_eq!(children.len(), 2);
    assert_eq!(children.entries()[1].0, "second");
    assert_eq!(children.get("first"), Some(&Child::Node(node(7))));
    assert_eq!(children.nodes(), vec![node(7)]);
}

#[test]
fn children_into_iter_yields_in_order() {
    let mut children = Children::new();
    children.set("a", Child::Node(node(1)));
    children.set("b", Child::Token(token(2)));
    children.set("c", Child::NodeSeq(vec![node(3)]));
    let mut iter = children.into_iter();
    assert_eq!(iter.next(), Some(Child::Node(node(1))));
    assert_eq!(iter.next(), Some(Child::Token(token(2))));
    assert_eq!(iter.next(), Some(Child::NodeSeq(vec![node(3)])));
    assert_eq!(iter.next(), None);
    assert_eq!(iter.next(), None);
}

#[test]
fn child_nodes_around_current() {
    let left = node(1);
    let many = vec![node(2), NodeRef::nil(), node(3)];
    let op = token(9);
    let right = node(2);
    let captures = vec![
        Capture::SingleNode(&left),
        Capture::SingleToken(&op),
        Capture::ManyNodes(&many),
        Capture::SingleNode(&right),
    ];
    assert_eq!(next_child_node(&captures, &node(1)), Some(node(2)));
    assert_eq!(next_child_node(&captures, &node(2)), Some(NodeRef::nil()));
    assert_eq!(next_child_node(&captures, &node(3)), Some(node(2)));
    assert_eq!(next_child_node(&captures, &node(7)), None);
    assert_eq!(prev_child_node(&captures, &node(2)), Some(node(3)));
    assert_eq!(prev_child_node(&captures, &node(3)), Some(NodeRef::nil()));
    assert_eq!(prev_child_node(&captures, &node(1)), None);
    assert_eq!(prev_child_node(&captures, &node(7)), None);
    assert_eq!(next_child_node(&[], &node(1)), None);
}
