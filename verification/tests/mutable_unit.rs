use lib::arena::Id;
use lib::lexis::token::Token;
use lib::syntax::error::ErrorRef;
use lib::syntax::node::NodeRef;
use lib::units::mutable::syntax::{Cluster, Grammar};
use lib::units::mutable::unit::{Cover, MutableUnit};
use lib::units::mutable::watcher::{VoidWatcher, Watcher};
use lib::units::storage::tree::Chunk;

/// Words of letters, runs of digits, runs of spaces, and any other
/// character on its own.
struct Words;

fn class(c: char) -> u8 {
    if c.is_alphabetic() {
        2
    } else if c.is_ascii_digit() {
        3
    } else if c == ' ' {
        4
    } else {
        5
    }
}

impl Token for Words {
    fn spec_token(_text: vstd::seq::Seq<char>) -> (u8, vstd::prelude::nat) {
        panic!("the token is described for the verifier only")
    }

    fn spec_lookback() -> usize {
        1
    }

    fn lookback() -> usize {
        1
    }

    fn parse(text: &Vec<char>, start: usize) -> (u8, usize) {
        let first = text[start];
        if first == '#' {
            return (0, 0);
        }
        let rule = class(first);
        if rule == 5 {
            return (rule, 1);
        }
        let mut end = start + 1;
        while end < text.len() && class(text[end]) == rule && text[end] != '#' {
            end += 1;
        }
        (rule, end - start)
    }

    fn lemma_token_bounds(_text: vstd::seq::Seq<char>) {}

    fn lemma_token_reads(_text: vstd::seq::Seq<char>, _other: vstd::seq::Seq<char>) {}
}

/// A statement: the tokens up to and including the next punctuation
/// token, or to the end of input; its node counts its words.
#[derive(Debug, PartialEq)]
struct Statement {
    words: usize,
}

impl Grammar for Statement {
    fn spec_parse(_rule: u16, _tokens: vstd::seq::Seq<u8>) -> Cluster<Self> {
        panic!("the parse is described for the verifier only")
    }

    fn parse(rule: u16, tokens: &Vec<u8>, start: usize) -> Cluster<Self> {
        let mut words = 0;
        let mut index = start;
        while index < tokens.len() {
            let token = tokens[index];
            index += 1;
            if token == 2 {
                words += 1;
            }
            if token == 5 {
                return Cluster { rule, node: Statement { words }, length: index - start, lookahead: 0 };
            }
        }
        Cluster { rule, node: Statement { words }, length: index - start, lookahead: 1 }
    }

    fn lemma_parse_bounds(_rule: u16, _tokens: vstd::seq::Seq<u8>) {}

    fn lemma_parse_reads(_rule: u16, _tokens: vstd::seq::Seq<u8>, _other: vstd::seq::Seq<u8>) {}
}

#[derive(Default)]
struct Reports {
    nodes: Vec<usize>,
}

impl Watcher for Reports {
    fn report_node(&mut self, node_ref: &NodeRef) {
        self.nodes.push(node_ref.entry.index);
    }

    fn report_error(&mut self, _error_ref: &ErrorRef) {}
}

type Unit = MutableUnit<Words, Statement>;

fn make(text: &str) -> Unit {
    Unit::new(Id { inner: 1 }, text, &mut VoidWatcher)
}

fn clusters(unit: &Unit) -> Vec<(usize, usize, usize, usize)> {
    unit.entries()
        .iter()
        .map(|entry| (entry.start, entry.id, entry.cluster.length, entry.cluster.node.words))
        .collect()
}

fn cover_of(cover: &Cover) -> (usize, usize, usize, usize) {
    (cover.head, cover.start, cover.end, cover.removed_end)
}

#[test]
fn new_unit_scans_its_text() {
    let unit = make("hello world 42");
    assert_eq!(unit.text(), "hello world 42");
    assert_eq!(unit.length(), 14);
    assert_eq!(unit.chunk_count(), 5);
}

#[test]
fn write_rescans_from_the_lookback_chunk() {
    let mut unit = make("hello world 42");
    let cover = unit.write(6, 11, "there");
    assert_eq!(unit.text(), "hello there 42");
    assert_eq!(unit.chunk_count(), 5);
    assert_eq!(cover_of(&cover), (1, 2, 3, 3));
}

#[test]
fn write_at_the_end_extends_the_last_token() {
    let mut unit = make("hello world 42");
    let cover = unit.write(14, 14, "3");
    assert_eq!(unit.text(), "hello world 423");
    assert_eq!(unit.chunk_count(), 5);
    assert_eq!(cover_of(&cover), (4, 4, 5, 5));
}

#[test]
fn write_that_merges_tokens() {
    let mut unit = make("ab cd");
    let cover = unit.write(2, 3, "");
    assert_eq!(unit.text(), "abcd");
    assert_eq!(unit.chunk_count(), 1);
    assert_eq!(cover_of(&cover), (0, 0, 1, 3));
}

#[test]
fn empty_write_changes_nothing() {
    let mut unit = make("hello world");
    let cover = unit.write(3, 3, "");
    assert_eq!(unit.text(), "hello world");
    assert_eq!(unit.chunk_count(), 3);
    assert_eq!(cover_of(&cover), (0, 0, 0, 0));
}

#[test]
fn write_removes_and_fills_the_whole_text() {
    let mut unit = make("one two");
    unit.write(0, 7, "");
    assert_eq!(unit.text(), "");
    assert_eq!(unit.chunk_count(), 0);
    unit.write(0, 0, "ab c");
    assert_eq!(unit.text(), "ab c");
    assert_eq!(unit.chunk_count(), 3);
}

#[test]
fn write_counts_characters_not_bytes() {
    let mut unit = make("héllo wörld");
    assert_eq!(unit.length(), 11);
    unit.write(7, 8, "o");
    assert_eq!(unit.text(), "héllo world");
    unit.write(1, 2, "e");
    assert_eq!(unit.text(), "hello world");
    assert_eq!(unit.chunk_count(), 3);
}

#[test]
fn many_writes_keep_the_text_in_step() {
    let mut unit = make("");
    let mut expected = String::new();
    for round in 0..200 {
        let piece = format!("w{round} ");
        let at = (round * 7) % (expected.len() + 1);
        let at = if expected.is_char_boundary(at) { at } else { 0 };
        unit.write(at, at, &piece);
        expected.insert_str(at, &piece);
        assert_eq!(unit.text(), expected);
    }
    let fresh = make(&expected);
    assert_eq!(
        clusters(&fresh).iter().map(|c| (c.0, c.2, c.3)).collect::<Vec<_>>(),
        clusters(&unit).iter().map(|c| (c.0, c.2, c.3)).collect::<Vec<_>>()
    );
    assert_eq!(fresh.text(), unit.text());
    assert_eq!(fresh.chunk_count(), unit.chunk_count());
}

#[test]
fn new_unit_parses_its_statements() {
    let mut reports = Reports::default();
    let unit = Unit::new(Id { inner: 1 }, "a b; c d; e", &mut reports);
    assert_eq!(clusters(&unit), vec![(0, 0, 4, 2), (4, 1, 5, 2), (9, 2, 2, 1)]);
    assert_eq!(reports.nodes, vec![0, 1, 2]);
}

#[test]
fn write_reparses_only_the_edited_statement() {
    let mut unit = make("a b; c d; e");
    let mut reports = Reports::default();
    let cover = unit.write_and_watch(5, 6, "x", &mut reports);
    assert_eq!(unit.text(), "a b; x d; e");
    assert_eq!(cover_of(&cover), (4, 5, 6, 6));
    assert_eq!(clusters(&unit), vec![(0, 0, 4, 2), (4, 3, 5, 2), (9, 2, 2, 1)]);
    assert_eq!(reports.nodes, vec![3]);
}

#[test]
fn write_that_joins_statements() {
    let mut unit = make("a b; c d; e");
    let mut reports = Reports::default();
    unit.write_and_watch(3, 4, " ", &mut reports);
    assert_eq!(unit.text(), "a b  c d; e");
    assert_eq!(clusters(&unit), vec![(0, 3, 8, 4), (8, 2, 2, 1)]);
    assert_eq!(reports.nodes, vec![3]);
}

#[test]
fn write_at_the_end_reparses_the_last_statement() {
    let mut unit = make("a b; c");
    unit.write(6, 6, " d");
    assert_eq!(unit.text(), "a b; c d");
    assert_eq!(clusters(&unit), vec![(0, 0, 4, 2), (4, 2, 4, 2)]);
}

#[test]
fn unrecognised_characters_gather_into_one_mismatch() {
    let mut unit = make("ab ##x cd");
    assert_eq!(unit.chunk_count(), 6);
    unit.write(4, 5, "");
    assert_eq!(unit.text(), "ab #x cd");
    assert_eq!(unit.chunk_count(), 6);
    unit.write(3, 4, "");
    assert_eq!(unit.text(), "ab x cd");
    assert_eq!(unit.chunk_count(), 5);
    let fresh = make("ab x cd");
    assert_eq!(fresh.chunk_count(), unit.chunk_count());
}
