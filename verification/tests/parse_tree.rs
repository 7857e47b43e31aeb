use lib::arena::{Entry, Id};
use lib::lexis::site::{Position, PositionSpan, SiteSpan};
use lib::lexis::token::TokenRef;
use lib::syntax::node::NodeRef;
use lib::syntax::parse::{ParseNodeChild, ParseTreeBuilder};

fn token(index: usize) -> TokenRef {
    TokenRef { id: Id { inner: 1 }, entry: Entry { index, version: 1 } }
}

fn node(index: usize) -> NodeRef {
    NodeRef { id: Id { inner: 1 }, entry: Entry { index, version: 1 } }
}

fn read(builder: &mut ParseTreeBuilder, rule: u8, index: usize, text: &str) {
    builder.read_token(rule, token(index), Some(text.chars().count()), Some(text));
}

#[test]
fn builder_groups_blanks_and_tracks_positions() {
    let mut builder = ParseTreeBuilder::new();
    builder.enter_rule(0, node(0));
    read(&mut builder, 5, 0, "foo");
    read(&mut builder, 2, 1, " ");
    read(&mut builder, 2, 2, "\n");
    read(&mut builder, 5, 3, "bar");
    builder.leave_rule(0, node(0));
    let root = builder.into_root();
    assert_eq!(root.site_span, SiteSpan { start: 0, end: 8 });
    assert_eq!(root.position_span.end, Position { line: 2, column: 4 });
    assert_eq!(root.children.len(), 3);
    assert_eq!(root.breaks(), 1);
    match &root.children[1] {
        ParseNodeChild::Blank(blank) => {
            assert_eq!(blank.children, vec![token(1), token(2)]);
            assert_eq!(blank.site_span, SiteSpan { start: 3, end: 5 });
            assert_eq!(blank.breaks(), 1);
        },
        _ => panic!("expected a blank"),
    }
    match &root.children[2] {
        ParseNodeChild::Token(child) => {
            assert_eq!(child.position_span, PositionSpan { start: Position { line: 2, column: 1 }, end: Position { line: 2, column: 4 } });
            assert_eq!(child.start_line(), 2);
            assert_eq!(child.end_line(), 2);
        },
        _ => panic!("expected a token"),
    }
    assert!(root.children[2].well_formed());
    assert_eq!(root.children[0].start_line(), 1);
    assert_eq!(root.children[0].end_line(), 1);
}

#[test]
fn builder_nests_nodes_and_marks_errors() {
    let mut builder = ParseTreeBuilder::new();
    builder.enter_rule(0, node(0));
    builder.enter_rule(1, node(1));
    read(&mut builder, 5, 0, "x");
    builder.syntax_error();
    builder.leave_rule(1, node(1));
    builder.leave_rule(0, node(0));
    let root = builder.into_root();
    assert!(root.well_formed);
    assert_eq!(root.children.len(), 1);
    assert!(!root.children[0].well_formed());
    match &root.children[0] {
        ParseNodeChild::Node(inner) => {
            assert_eq!(inner.rule, 1);
            assert_eq!(inner.site_span, SiteSpan { start: 0, end: 1 });
        },
        _ => panic!("expected a node"),
    }
}

#[test]
fn builder_lifts_previous_sibling() {
    let mut builder = ParseTreeBuilder::new();
    builder.enter_rule(0, node(0));
    builder.enter_rule(1, node(1));
    read(&mut builder, 5, 0, "a");
    builder.leave_rule(1, node(1));
    read(&mut builder, 6, 1, "+");
    builder.enter_rule(2, node(2));
    builder.lift_node(node(1));
    read(&mut builder, 5, 2, "b");
    builder.leave_rule(2, node(2));
    builder.leave_rule(0, node(0));
    let root = builder.into_root();
    assert_eq!(root.children.len(), 1);
    match &root.children[0] {
        ParseNodeChild::Node(binary) => {
            assert_eq!(binary.rule, 2);
            assert_eq!(binary.site_span, SiteSpan { start: 0, end: 3 });
            assert_eq!(binary.children.len(), 3);
        },
        _ => panic!("expected a node"),
    }
}

#[test]
fn empty_builder_gives_empty_root() {
    let root = ParseTreeBuilder::new().into_root();
    assert_eq!(root.rule, 0);
    assert!(root.node_ref.is_nil());
    assert!(!root.well_formed);
    assert!(root.children.is_empty());
}

#[test]
fn tokens_outside_rules_only_move_the_cursor() {
    let mut builder = ParseTreeBuilder::new();
    read(&mut builder, 5, 0, "ab");
    builder.enter_rule(0, node(0));
    builder.leave_rule(0, node(0));
    let root = builder.into_root();
    assert_eq!(root.site_span, SiteSpan { start: 2, end: 2 });
    assert!(root.children.is_empty());
}
