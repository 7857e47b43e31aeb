use lib::arena::{Entry, Id};
use lib::lexis::site::{SiteRef, SiteRefSpan, TokenText};
use lib::lexis::token::TokenSet;
use lib::syntax::error::{ErrorRef, SyntaxError};
use lib::syntax::recovery::RecoveryResult;
use lib::syntax::rule::NodeSet;

const CODE: Id = Id { inner: 7 };

fn code(tokens: &[&str]) -> TokenText {
    TokenText { id: CODE, strings: tokens.iter().map(|s| s.to_string()).collect() }
}

fn site(index: usize) -> SiteRef {
    SiteRef { id: CODE, index }
}

fn error(start: usize, end: usize, recovery: RecoveryResult) -> SyntaxError {
    let tokens: &'static TokenSet = Box::leak(Box::new(TokenSet::empty()));
    let nodes: &'static NodeSet = Box::leak(Box::new(NodeSet::empty()));
    SyntaxError {
        span: SiteRefSpan { start: site(start), end: site(end) },
        context: 0,
        recovery,
        expected_tokens: tokens,
        expected_nodes: nodes,
    }
}

#[test]
fn insertion_error_widens_over_blanks() {
    // tokens: `let`, ` `, `x`, ` `, `\n`, `=`
    let text = code(&["let", " ", "x", " ", "\n", "="]);
    let aligned = error(3, 3, RecoveryResult::InsertRecover).aligned_span(&text);
    assert_eq!(aligned, SiteRefSpan { start: site(3), end: site(5) });
    let aligned = error(2, 2, RecoveryResult::InsertRecover).aligned_span(&text);
    assert_eq!(aligned, SiteRefSpan { start: site(1), end: site(2) });
}

#[test]
fn skipping_error_shrinks_to_non_blank_part() {
    let text = code(&["a", " ", "b", "c", " ", " ", "d"]);
    let aligned = error(1, 6, RecoveryResult::PanicRecover).aligned_span(&text);
    assert_eq!(aligned, SiteRefSpan { start: site(2), end: site(4) });
}

#[test]
fn blank_skipping_error_collapses_before_blanks() {
    let text = code(&["a", " ", " ", "b"]);
    let aligned = error(2, 3, RecoveryResult::UnexpectedToken).aligned_span(&text);
    assert_eq!(aligned, SiteRefSpan { start: site(1), end: site(1) });
}

#[test]
fn invalid_span_is_kept() {
    let text = code(&["a"]);
    let mut reversed = error(1, 0, RecoveryResult::PanicRecover);
    assert_eq!(reversed.aligned_span(&text), reversed.span);
    reversed.span.start.id = Id { inner: 99 };
    assert_eq!(reversed.aligned_span(&text), reversed.span);
}

#[test]
fn end_of_code_is_not_blank() {
    let text = code(&["x", " "]);
    assert!(text.is_blank(&site(1)));
    assert!(!text.is_blank(&site(2)));
    assert!(!text.is_blank(&site(0)));
    assert_eq!(text.next(&site(2)), site(2));
    assert_eq!(text.prev(&site(0)), site(0));
    assert_eq!(text.prev(&site(2)), site(1));
}

#[test]
fn error_refs() {
    assert!(ErrorRef::nil().is_nil());
    assert!(!ErrorRef { id: CODE, entry: Entry { index: 0, version: 1 } }.is_nil());
}

fn expecting(recovery: RecoveryResult, context: u16, tokens: &[u8], nodes: &[u16]) -> SyntaxError {
    let mut token_set = TokenSet::empty();
    for token in tokens {
        token_set = token_set.insert(*token);
    }
    let token_set: &'static TokenSet = Box::leak(Box::new(token_set));
    let node_set: &'static NodeSet = Box::leak(Box::new(NodeSet::new(nodes)));
    SyntaxError {
        span: SiteRefSpan { start: site(1), end: site(2) },
        context,
        recovery,
        expected_tokens: token_set,
        expected_nodes: node_set,
    }
}

fn table<'a>(entries: &[(usize, &'a str)]) -> Vec<Option<&'a str>> {
    let mut result = vec![None; 300];
    for (rule, text) in entries {
        result[*rule] = Some(*text);
    }
    result
}

#[test]
fn title_names_the_context() {
    let error = expecting(RecoveryResult::InsertRecover, 3, &[], &[]);
    assert_eq!(error.title(Some("Expression")), "Expression syntax error.");
    assert_eq!(error.title(None), "Syntax error.");
}

#[test]
fn message_lists_two_expected_rules_with_or() {
    let text = code(&["a", "b", "c"]);
    let error = expecting(RecoveryResult::InsertRecover, 3, &[4], &[7]);
    let nodes = table(&[(7, "expression")]);
    let tokens = table(&[(4, ";")]);
    let message = error.message(&text, false, Some("block"), &nodes, &tokens);
    assert_eq!(message, "missing expression or ';' in block");
    let message = error.message(&text, true, Some("block"), &nodes, &tokens);
    assert_eq!(message, "Missing expression or ';' in block.");
}

#[test]
fn message_orders_nodes_before_tokens_and_drops_duplicates() {
    let text = code(&["a", "b", "c"]);
    let error = expecting(RecoveryResult::UnexpectedToken, 0, &[2, 5, 9], &[8, 3]);
    let nodes = table(&[(3, "statement"), (8, "item")]);
    let tokens = table(&[(2, "}"), (5, "item"), (9, "("), (11, "unused")]);
    let message = error.message(&text, false, Some("root"), &nodes, &tokens);
    assert_eq!(message, "missing item, statement, '(', '}'");
}

#[test]
fn message_without_listing() {
    let text = code(&["a", "b", "c"]);
    let error = expecting(RecoveryResult::PanicRecover, 2, &[4], &[]);
    let tokens = table(&[(4, ";")]);
    assert_eq!(error.message(&text, false, None, &[], &tokens), "unexpected input");
    let error = expecting(RecoveryResult::UnexpectedEOI, 2, &[4], &[]);
    assert_eq!(error.message(&text, true, Some("call"), &[], &tokens), "Unexpected end of input in call.");
}

#[test]
fn message_of_empty_skip_reports_missing() {
    let text = code(&["a", " ", "c"]);
    let error = expecting(RecoveryResult::PanicRecover, 2, &[4], &[]);
    let tokens = table(&[(4, ";")]);
    assert_eq!(error.message(&text, false, None, &[], &tokens), "missing ';'");
}

#[test]
fn long_message_is_shortened() {
    let text = code(&["a", "b", "c"]);
    let error = expecting(RecoveryResult::InsertRecover, 1, &[], &[1, 2, 3, 4, 5]);
    let nodes = table(&[
        (1, "first long description"),
        (2, "second long description"),
        (3, "third long description"),
        (4, "fourth long description"),
        (5, "fifth long description"),
    ]);
    let message = error.message(&text, false, Some("context"), &nodes, &[]);
    assert_eq!(
        message,
        "missing fifth long description, first long description, fourth long description\u{2026}"
    );
    assert_eq!(message.chars().count(), 80);
    let message = error.message(&text, true, Some("context"), &nodes, &[]);
    assert!(message.ends_with("third long description in context."));
}
