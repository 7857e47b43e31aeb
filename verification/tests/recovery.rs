use lib::lexis::token::{TokenSet, EOI};
use lib::syntax::recovery::{GroupStack, Recovery, RecoveryResult};

const SEMICOLON: u8 = 2;
const BRACE_OPEN: u8 = 3;
const BRACE_CLOSE: u8 = 4;
const IDENT: u8 = 5;
const PLUS: u8 = 6;
const LET: u8 = 7;
const BRACKET_OPEN: u8 = 8;
const BRACKET_CLOSE: u8 = 9;
const PAREN_OPEN: u8 = 10;
const PAREN_CLOSE: u8 = 11;

#[test]
fn unlimited_recovery_stops_at_expected_token() {
    let recovery = Recovery::unlimited();
    let tokens = [PLUS, SEMICOLON, LET, IDENT];
    let until = TokenSet::empty().insert(IDENT);
    assert_eq!(recovery.recover(&tokens, 0, &until), (RecoveryResult::PanicRecover, 3));
}

#[test]
fn unlimited_recovery_reaches_end_of_input() {
    let recovery = Recovery::unlimited();
    let tokens = [PLUS, SEMICOLON, LET];
    let until = TokenSet::empty().insert(IDENT);
    assert_eq!(recovery.recover(&tokens, 0, &until), (RecoveryResult::UnexpectedEOI, 3));
}

#[test]
fn halting_token_stops_recovery_without_consuming() {
    // `let x = a + ; let y = b;` recovering the right-hand side of `+`
    let recovery = Recovery::unlimited().unexpected(SEMICOLON);
    let tokens = [SEMICOLON, LET, IDENT];
    let until = TokenSet::empty().insert(IDENT);
    assert_eq!(recovery.recover(&tokens, 0, &until), (RecoveryResult::UnexpectedToken, 0));
}

#[test]
fn balanced_group_is_skipped_as_a_whole() {
    // `{foo;} b;` : the semicolon inside the braces does not halt
    let recovery = Recovery::unlimited().unexpected(SEMICOLON).group(BRACE_OPEN, BRACE_CLOSE);
    let tokens = [BRACE_OPEN, IDENT, SEMICOLON, BRACE_CLOSE, IDENT, SEMICOLON];
    let until = TokenSet::empty().insert(IDENT);
    // The identifier inside the group is skipped together with the group.
    assert_eq!(recovery.recover(&tokens, 0, &until), (RecoveryResult::PanicRecover, 4));
}

#[test]
fn unbalanced_group_is_not_skipped() {
    // `{foo [ (bar) baz}` : the `[` is never closed
    let recovery = Recovery::unlimited()
        .unexpected(SEMICOLON)
        .group(BRACE_OPEN, BRACE_CLOSE)
        .group(BRACKET_OPEN, BRACKET_CLOSE)
        .group(PAREN_OPEN, PAREN_CLOSE);
    let tokens = [BRACE_OPEN, IDENT, BRACKET_OPEN, PAREN_OPEN, IDENT, PAREN_CLOSE, IDENT, BRACE_CLOSE, SEMICOLON];
    let until = TokenSet::empty().insert(LET);
    assert_eq!(recovery.recover(&tokens, 0, &until), (RecoveryResult::UnexpectedToken, 8));
    let until_ident = TokenSet::empty().insert(IDENT);
    assert_eq!(recovery.recover(&tokens, 0, &until_ident), (RecoveryResult::PanicRecover, 1));
    // The `(bar)` group is balanced and skipped whole.
    assert_eq!(recovery.recover(&tokens, 3, &until_ident), (RecoveryResult::PanicRecover, 6));
}

#[test]
fn recovery_results() {
    assert!(RecoveryResult::InsertRecover.recovered());
    assert!(RecoveryResult::PanicRecover.recovered());
    assert!(!RecoveryResult::UnexpectedEOI.recovered());
    assert!(!RecoveryResult::UnexpectedToken.recovered());
}

#[test]
fn recovery_at_end_of_input() {
    let recovery = Recovery::unlimited();
    let tokens: [u8; 0] = [];
    let until = TokenSet::empty().insert(EOI);
    assert_eq!(recovery.recover(&tokens, 0, &until), (RecoveryResult::PanicRecover, 0));
    let nothing = TokenSet::empty();
    assert_eq!(recovery.recover(&tokens, 0, &nothing), (RecoveryResult::UnexpectedEOI, 0));
}

#[test]
fn unexpected_set_halts() {
    let recovery = Recovery::unlimited().unexpected_set(TokenSet::empty().insert(PLUS).insert(LET));
    let tokens = [IDENT, IDENT, LET];
    let until = TokenSet::empty();
    assert_eq!(recovery.recover(&tokens, 0, &until), (RecoveryResult::UnexpectedToken, 2));
}

#[test]
fn group_stack_spills_to_heap() {
    let mut stack = GroupStack::new();
    assert!(stack.is_empty());
    for i in 0..12u8 {
        stack.push(i);
    }
    for i in (0..12u8).rev() {
        assert_eq!(stack.pop(), Some(i));
    }
    assert_eq!(stack.pop(), None);
    stack.push(3);
    stack.clear();
    assert!(stack.is_empty());
}
