use vstd::prelude::*;
use vstd::string::StrSliceExecFns;

use crate::lexis::site::{Line, Position, PositionSpan, Site, SiteSpan};
use crate::lexis::token::{TokenRef, TokenRule};
use crate::syntax::node::NodeRef;
use crate::syntax::rule::{NodeRule, ROOT_RULE};

verus! {

/// A child of a parse tree node.
#[derive(PartialEq, Eq, Hash, Debug)]
pub enum ParseNodeChild {
    /// A sequence of blank tokens (whitespaces and line breaks).
    Blank(ParseBlank),
    /// A single token.
    Token(ParseToken),
    /// A sub-node.
    Node(ParseNode),
}

/// A contiguous sequence of tokens that hold blank characters only.
#[derive(Clone, PartialEq, Eq, Hash, Debug)]
pub struct ParseBlank {
    /// The site span covered by the tokens.
    pub site_span: SiteSpan,
    /// The line-column span covered by the tokens.
    pub position_span: PositionSpan,
    /// The references of the tokens.
    pub children: Vec<TokenRef>,
}

/// A single token of a parse tree.
#[derive(Clone, PartialEq, Eq, Hash, Debug)]
pub struct ParseToken {
    /// The rule of the token.
    pub rule: TokenRule,
    /// The reference of the token instance.
    pub token_ref: TokenRef,
    /// The site span covered by the token.
    pub site_span: SiteSpan,
    /// The line-column span covered by the token.
    pub position_span: PositionSpan,
}

/// A node of a parse tree.
#[derive(PartialEq, Eq, Hash, Debug)]
pub struct ParseNode {
    /// The rule that parsed this node.
    pub rule: NodeRule,
    /// The reference of the node instance within the syntax tree.
    pub node_ref: NodeRef,
    /// The site span covered by the node.
    pub site_span: SiteSpan,
    /// The line-column span covered by the node.
    pub position_span: PositionSpan,
    /// True if no syntax errors were detected while parsing this node.
    pub well_formed: bool,
    /// The children of the node.
    pub children: Vec<ParseNodeChild>,
}

/// True when a line-column span does not end on an earlier line than it
/// starts.
pub open spec fn ordered_lines(span: PositionSpan) -> bool {
    span.start.line <= span.end.line
}

impl ParseBlank {
    /// Returns the number of line breaks covered by the tokens.
    pub fn breaks(&self) -> (result: usize)
        requires
            ordered_lines(self.position_span),
        ensures
            result == self.position_span.end.line - self.position_span.start.line,
    {
        self.position_span.end.line - self.position_span.start.line
    }

    /// Returns the first line covered by the tokens.
    pub fn start_line(&self) -> (result: Line)
        ensures
            result == self.position_span.start.line,
    {
        self.position_span.start.line
    }

    /// Returns the last line covered by the tokens.
    pub fn end_line(&self) -> (result: Line)
        ensures
            result == self.position_span.end.line,
    {
        self.position_span.end.line
    }
}

impl ParseToken {
    /// Returns the number of line breaks covered by the token.
    pub fn breaks(&self) -> (result: usize)
        requires
            ordered_lines(self.position_span),
        ensures
            result == self.position_span.end.line - self.position_span.start.line,
    {
        self.position_span.end.line - self.position_span.start.line
    }

    /// Returns the first line covered by the token.
    pub fn start_line(&self) -> (result: Line)
        ensures
            result == self.position_span.start.line,
    {
        self.position_span.start.line
    }

    /// Returns the last line covered by the token.
    pub fn end_line(&self) -> (result: Line)
        ensures
            result == self.position_span.end.line,
    {
        self.position_span.end.line
    }
}

impl ParseNode {
    /// Returns the number of line breaks covered by the node.
    pub fn breaks(&self) -> (result: usize)
        requires
            ordered_lines(self.position_span),
        ensures
            result == self.position_span.end.line - self.position_span.start.line,
    {
        self.position_span.end.line - self.position_span.start.line
    }

    /// Returns the first line covered by the node.
    pub fn start_line(&self) -> (result: Line)
        ensures
            result == self.position_span.start.line,
    {
        self.position_span.start.line
    }

    /// Returns the last line covered by the node.
    pub fn end_line(&self) -> (result: Line)
        ensures
            result == self.position_span.end.line,
    {
        self.position_span.end.line
    }
}

impl ParseNodeChild {
    /// The line-column span of the child.
    pub open spec fn spec_position_span(&self) -> PositionSpan {
        match self {
            ParseNodeChild::Blank(child) => child.position_span,
            ParseNodeChild::Token(child) => child.position_span,
            ParseNodeChild::Node(child) => child.position_span,
        }
    }

    /// Returns the number of line breaks covered by the child.
    pub fn breaks(&self) -> (result: usize)
        requires
            ordered_lines(self.spec_position_span()),
        ensures
            result == self.spec_position_span().end.line - self.spec_position_span().start.line,
    {
        match self {
            ParseNodeChild::Blank(child) => child.breaks(),
            ParseNodeChild::Token(child) => child.breaks(),
            ParseNodeChild::Node(child) => child.breaks(),
        }
    }

    /// Returns the first line covered by the child.
    pub fn start_line(&self) -> (result: Line)
        ensures
            result == self.spec_position_span().start.line,
    {
        match self {
            ParseNodeChild::Blank(child) => child.start_line(),
            ParseNodeChild::Token(child) => child.start_line(),
            ParseNodeChild::Node(child) => child.start_line(),
        }
    }

    /// Returns the last line covered by the child.
    pub fn end_line(&self) -> (result: Line)
        ensures
            result == self.spec_position_span().end.line,
    {
        match self {
            ParseNodeChild::Blank(child) => child.end_line(),
            ParseNodeChild::Token(child) => child.end_line(),
            ParseNodeChild::Node(child) => child.end_line(),
        }
    }

    /// Returns true if no syntax errors were detected while parsing the
    /// child; blanks and tokens are always well formed.
    pub fn well_formed(&self) -> (result: bool)
        ensures
            result == match self {
                ParseNodeChild::Node(child) => child.well_formed,
                _ => true,
            },
    {
        match self {
            ParseNodeChild::Blank(_) => true,
            ParseNodeChild::Token(_) => true,
            ParseNodeChild::Node(child) => child.well_formed,
        }
    }
}

} // verus!

verus! {

/// True for the characters a blank token may consist of.
pub open spec fn is_blank_char(c: char) -> bool {
    c == ' ' || c == '\r' || c == '\x0c' || c == '\t' || c == '\n'
}

/// The position after reading the character `c` at position `p`: a line
/// feed starts the next line at column 1, any other character advances the
/// column.
pub open spec fn step_position(p: Position, c: char) -> Position {
    if c == '\n' {
        Position { line: (p.line + 1) as usize, column: 1 }
    } else {
        Position { line: p.line, column: (p.column + 1) as usize }
    }
}

/// The position after reading `chars` from position `p`.
pub open spec fn advance_position(p: Position, chars: Seq<char>) -> Position
    decreases chars.len(),
{
    if chars.len() == 0 {
        p
    } else {
        step_position(advance_position(p, chars.drop_last()), chars.last())
    }
}

/// True for the ASCII whitespace characters: U+0020 SPACE and the control
/// characters from U+0009 HORIZONTAL TAB to U+000D CARRIAGE RETURN, except
/// U+000B VERTICAL TAB.
pub open spec fn is_ascii_whitespace_char(c: char) -> bool {
    let code = c as u32;
    code == 0x20 || (0x09 <= code <= 0x0d && code != 0x0b)
}

/// A blank character is exactly an ASCII whitespace character.
pub proof fn law_blank_char_is_ascii_whitespace(c: char)
    ensures
        is_blank_char(c) <==> is_ascii_whitespace_char(c),
{
}

/// The number of line feeds in `chars`.
pub open spec fn line_feeds(chars: Seq<char>) -> nat {
    chars.filter(|c: char| c == '\n').len()
}

/// Only a line feed starts a new line: reading `chars` moves the line down
/// by the number of line feeds in them.
pub proof fn law_lines_count_line_feeds(p: Position, chars: Seq<char>)
    requires
        p.line + chars.len() <= usize::MAX,
    ensures
        advance_position(p, chars).line == p.line + line_feeds(chars),
    decreases chars.len(),
{
    reveal(Seq::filter);
    if chars.len() > 0 {
        law_lines_count_line_feeds(p, chars.drop_last());
    }
}

/// Without a line feed, reading `chars` stays on the line and moves the
/// column by one per character.
pub proof fn law_column_without_line_feed(p: Position, chars: Seq<char>)
    requires
        p.column + chars.len() <= usize::MAX,
        forall|i: int| 0 <= i < chars.len() ==> chars[i] != '\n',
    ensures
        advance_position(p, chars) == (Position { line: p.line, column: (p.column + chars.len()) as usize }),
    decreases chars.len(),
{
    if chars.len() > 0 {
        law_column_without_line_feed(p, chars.drop_last());
    }
}

/// After the last line feed of `chars`, at index `i`, the column counts the
/// characters after it, starting from 1.
pub proof fn law_column_after_last_line_feed(p: Position, chars: Seq<char>, i: int)
    requires
        chars.len() <= usize::MAX,
        0 <= i < chars.len(),
        chars[i] == '\n',
        forall|j: int| i < j < chars.len() ==> chars[j] != '\n',
    ensures
        advance_position(p, chars).column == chars.len() - i,
    decreases chars.len(),
{
    if i < chars.len() - 1 {
        law_column_after_last_line_feed(p, chars.drop_last(), i);
    }
}

/// The larger of two numbers.
pub open spec fn max_of(a: int, b: int) -> int {
    if a >= b {
        a
    } else {
        b
    }
}

/// Reading `chars` moves the line by at most one per character, and the
/// column to at most the larger of the start column and 1, plus one per
/// character.
pub proof fn lemma_advance_bounds(p: Position, chars: Seq<char>)
    requires
        p.line + chars.len() <= usize::MAX,
        max_of(p.column as int, 1) + chars.len() <= usize::MAX,
    ensures
        p.line <= advance_position(p, chars).line <= p.line + chars.len(),
        1 <= advance_position(p, chars).column || chars.len() == 0,
        advance_position(p, chars).column <= max_of(p.column as int, 1) + chars.len(),
    decreases chars.len(),
{
    if chars.len() > 0 {
        lemma_advance_bounds(p, chars.drop_last());
    }
}

/// The header of a parse node (every field but the children).
pub open spec fn same_header(a: ParseNode, b: ParseNode) -> bool {
    &&& a.rule == b.rule
    &&& a.node_ref == b.node_ref
    &&& a.site_span == b.site_span
    &&& a.position_span == b.position_span
    &&& a.well_formed == b.well_formed
}

/// `after` is the blank `before` extended over one more token.
pub open spec fn blank_extended(before: ParseBlank, after: ParseBlank, token_ref: TokenRef, end_site: Site, end_position: Position) -> bool {
    &&& after.site_span == (SiteSpan { start: before.site_span.start, end: end_site })
    &&& after.position_span == (PositionSpan { start: before.position_span.start, end: end_position })
    &&& after.children@ == before.children@.push(token_ref)
}

/// `blank` is a fresh blank of one token.
pub open spec fn blank_started(blank: ParseBlank, token_ref: TokenRef, span: SiteSpan, position_span: PositionSpan) -> bool {
    &&& blank.site_span == span
    &&& blank.position_span == position_span
    &&& blank.children@ == seq![token_ref]
}

/// True when `child` is a node referring to `node_ref`.
pub open spec fn is_sibling(child: ParseNodeChild, node_ref: NodeRef) -> bool {
    match child {
        ParseNodeChild::Node(sibling) => sibling.node_ref == node_ref,
        _ => false,
    }
}

/// The position of the last child of `children` that is a node referring
/// to `node_ref`.
pub open spec fn last_sibling(children: Seq<ParseNodeChild>, node_ref: NodeRef) -> Option<int>
    decreases children.len(),
{
    if children.len() == 0 {
        None
    } else if is_sibling(children.last(), node_ref) {
        Some(children.len() - 1)
    } else {
        last_sibling(children.drop_last(), node_ref)
    }
}

/// [last_sibling] finds a node child referring to `node_ref`, and no later
/// child does.
pub proof fn lemma_last_sibling(children: Seq<ParseNodeChild>, node_ref: NodeRef)
    ensures
        last_sibling(children, node_ref) matches Some(i) ==> 0 <= i < children.len() && is_sibling(children[i], node_ref),
        last_sibling(children, node_ref) matches Some(i) ==> forall|j: int| i < j < children.len()
            ==> !is_sibling(#[trigger] children[j], node_ref),
        last_sibling(children, node_ref) is None ==> forall|j: int| 0 <= j < children.len()
            ==> !is_sibling(#[trigger] children[j], node_ref),
    decreases children.len(),
{
    if children.len() > 0 {
        lemma_last_sibling(children.drop_last(), node_ref);
        assert forall|j: int| 0 <= j < children.len() - 1 implies children.drop_last()[j] == #[trigger] children[j] by {}
    }
}

/// A builder that reconstructs the parse tree from the parser's
/// interactions: read tokens, entered and left rules, lifted nodes and
/// reported errors.
pub struct ParseTreeBuilder {
    site: Site,
    position: Position,
    stack: Vec<ParseNode>,
}

impl ParseTreeBuilder {
    /// The site after the last read token.
    pub closed spec fn spec_site(&self) -> Site {
        self.site
    }

    /// The position after the last read token.
    pub closed spec fn spec_position(&self) -> Position {
        self.position
    }

    /// The nodes of the rules entered and not yet left, outermost first.
    pub closed spec fn spec_stack(&self) -> Seq<ParseNode> {
        self.stack@
    }

    /// Creates a builder at site 0, line 1, column 1, with no open rules.
    pub fn new() -> (result: Self)
        ensures
            result.spec_site() == 0,
            result.spec_position() == (Position { line: 1, column: 1 }),
            result.spec_stack().len() == 0,
    {
        ParseTreeBuilder { site: 0, position: Position::start(), stack: Vec::new() }
    }

    /// Reads `text` from the current position; returns whether every
    /// character is blank.
    fn read_chars(&mut self, text: &str) -> (blank: bool)
        requires
            old(self).position.line + text@.len() <= usize::MAX,
            max_of(old(self).position.column as int, 1) + text@.len() <= usize::MAX,
        ensures
            final(self).site == old(self).site,
            final(self).stack == old(self).stack,
            final(self).position == advance_position(old(self).position, text@),
            blank == forall|i: int| 0 <= i < text@.len() ==> #[trigger] is_blank_char(text@[i]),
    {
        let ghost start = self.position;
        let ghost site = self.site;
        let ghost stack = self.stack;
        proof {
            lemma_advance_bounds(start, text@);
        }
        let length = text.unicode_len();
        let mut blank = true;
        let mut i: usize = 0;
        while i < length
            invariant
                length == text@.len(),
                start.line + text@.len() <= usize::MAX,
                max_of(start.column as int, 1) + text@.len() <= usize::MAX,
                0 <= i <= length,
                self.site == site,
                self.stack == stack,
                self.position == advance_position(start, text@.subrange(0, i as int)),
                blank == forall|k: int| 0 <= k < i ==> #[trigger] is_blank_char(text@[k]),
            decreases length - i,
        {
            let ch = text.get_char(i);
            proof {
                assert(text@.subrange(0, i + 1).drop_last() =~= text@.subrange(0, i as int));
                lemma_advance_bounds(start, text@.subrange(0, i as int));
            }
            if ch == ' ' || ch == '\r' || ch == '\x0c' || ch == '\t' {
                assert(is_blank_char(text@[i as int]));
                self.position.column = self.position.column + 1;
            } else if ch == '\n' {
                assert(is_blank_char(text@[i as int]));
                self.position.line = self.position.line + 1;
                self.position.column = 1;
            } else {
                assert(!is_blank_char(text@[i as int]));
                self.position.column = self.position.column + 1;
                blank = false;
            }
            i = i + 1;
        }
        assert(text@.subrange(0, length as int) =~= text@);
        blank
    }

    /// Records a token read by the parser.
    ///
    /// `length` is the number of characters of the token and `text` its
    /// string, when the token exists in the source code. The site and the
    /// position move past the token. Inside a rule, a token of blank
    /// characters only (or one without text) extends the blank that ends
    /// the current node's children or starts a new one; any other token is
    /// added as a token child.
    pub fn read_token(&mut self, rule: TokenRule, token_ref: TokenRef, length: Option<usize>, text: Option<&str>)
        requires
            length matches Some(n) ==> old(self).spec_site() + n <= usize::MAX,
            text matches Some(t) ==> old(self).spec_position().line + t@.len() <= usize::MAX
                && max_of(old(self).spec_position().column as int, 1) + t@.len() <= usize::MAX,
        ensures
            final(self).spec_site() == match length {
                Some(n) => old(self).spec_site() + n,
                None => old(self).spec_site() as int,
            },
            final(self).spec_position() == match text {
                Some(t) => advance_position(old(self).spec_position(), t@),
                None => old(self).spec_position(),
            },
            old(self).spec_stack().len() == 0 ==> final(self).spec_stack() == old(self).spec_stack(),
            old(self).spec_stack().len() > 0 ==> {
                let before = old(self).spec_stack();
                let after = final(self).spec_stack();
                let top = before.last();
                let new_top = after.last();
                let blank = match text {
                    Some(t) => forall|i: int| 0 <= i < t@.len() ==> #[trigger] is_blank_char(t@[i]),
                    None => true,
                };
                let span = SiteSpan { start: old(self).spec_site(), end: final(self).spec_site() };
                let position_span = PositionSpan { start: old(self).spec_position(), end: final(self).spec_position() };
                &&& after.len() == before.len()
                &&& after.drop_last() == before.drop_last()
                &&& same_header(top, new_top)
                &&& !blank ==> new_top.children@ == top.children@.push(
                    ParseNodeChild::Token(ParseToken { rule, token_ref, site_span: span, position_span }),
                )
                &&& blank && top.children@.len() > 0 && top.children@.last() is Blank ==> {
                    &&& new_top.children@.len() == top.children@.len()
                    &&& new_top.children@.drop_last() == top.children@.drop_last()
                    &&& new_top.children@.last() matches ParseNodeChild::Blank(extended)
                        && top.children@.last() matches ParseNodeChild::Blank(previous)
                        && blank_extended(previous, extended, token_ref, span.end, position_span.end)
                }
                &&& blank && !(top.children@.len() > 0 && top.children@.last() is Blank) ==> {
                    &&& new_top.children@.len() == top.children@.len() + 1
                    &&& new_top.children@.drop_last() == top.children@
                    &&& new_top.children@.last() matches ParseNodeChild::Blank(started)
                        && blank_started(started, token_ref, span, position_span)
                }
            },
    {
        let start_site = self.site;
        let start_position = self.position;
        if let Some(n) = length {
            self.site = self.site + n;
        }
        let mut blank = true;
        if let Some(t) = text {
            blank = self.read_chars(t);
        }
        let end_site = self.site;
        let end_position = self.position;
        let span = SiteSpan { start: start_site, end: end_site };
        let position_span = PositionSpan { start: start_position, end: end_position };
        let ghost before = self.stack@;
        let mut current = match self.stack.pop() {
            Some(current) => current,
            None => {
                return;
            },
        };
        let ghost top = current;
        if blank {
            match current.children.pop() {
                Some(ParseNodeChild::Blank(mut extended)) => {
                    extended.site_span.end = end_site;
                    extended.position_span.end = end_position;
                    extended.children.push(token_ref);
                    current.children.push(ParseNodeChild::Blank(extended));
                    assert(current.children@.drop_last() =~= top.children@.drop_last());
                },
                Some(other) => {
                    current.children.push(other);
                    assert(current.children@ =~= top.children@);
                    let mut children: Vec<TokenRef> = Vec::new();
                    children.push(token_ref);
                    assert(children@ =~= seq![token_ref]);
                    current.children.push(ParseNodeChild::Blank(ParseBlank { site_span: span, position_span, children }));
                },
                None => {
                    let mut children: Vec<TokenRef> = Vec::new();
                    children.push(token_ref);
                    assert(children@ =~= seq![token_ref]);
                    current.children.push(ParseNodeChild::Blank(ParseBlank { site_span: span, position_span, children }));
                    assert(current.children@.drop_last() =~= top.children@);
                },
            }
        } else {
            current.children.push(ParseNodeChild::Token(ParseToken { rule, token_ref, site_span: span, position_span }));
        }
        self.stack.push(current);
        assert(self.stack@.drop_last() =~= before.drop_last());
    }

    /// Records that the parser entered a rule: opens a new node with empty
    /// spans at the current site and position.
    pub fn enter_rule(&mut self, rule: NodeRule, node_ref: NodeRef)
        ensures
            final(self).spec_site() == old(self).spec_site(),
            final(self).spec_position() == old(self).spec_position(),
            final(self).spec_stack().len() == old(self).spec_stack().len() + 1,
            final(self).spec_stack().drop_last() == old(self).spec_stack(),
            ({
                let node = final(self).spec_stack().last();
                &&& node.rule == rule
                &&& node.node_ref == node_ref
                &&& node.site_span == (SiteSpan { start: old(self).spec_site(), end: old(self).spec_site() })
                &&& node.position_span == (PositionSpan { start: old(self).spec_position(), end: old(self).spec_position() })
                &&& node.well_formed
                &&& node.children@.len() == 0
            }),
    {
        let node = ParseNode {
            rule,
            node_ref,
            site_span: SiteSpan { start: self.site, end: self.site },
            position_span: PositionSpan { start: self.position, end: self.position },
            well_formed: true,
            children: Vec::new(),
        };
        self.stack.push(node);
        assert(self.stack@.drop_last() =~= old(self).stack@);
    }

    /// Records that the parser left the current rule: closes the current
    /// node's spans at the current site and position and adds it to its
    /// parent's children; the outermost node stays open.
    pub fn leave_rule(&mut self, rule: NodeRule, node_ref: NodeRef)
        ensures
            final(self).spec_site() == old(self).spec_site(),
            final(self).spec_position() == old(self).spec_position(),
            old(self).spec_stack().len() == 0 ==> final(self).spec_stack() == old(self).spec_stack(),
            old(self).spec_stack().len() == 1 ==> {
                let child = old(self).spec_stack().last();
                let closed = final(self).spec_stack().last();
                &&& final(self).spec_stack().len() == 1
                &&& closed.rule == child.rule
                &&& closed.node_ref == child.node_ref
                &&& closed.well_formed == child.well_formed
                &&& closed.children == child.children
                &&& closed.site_span == (SiteSpan { start: child.site_span.start, end: old(self).spec_site() })
                &&& closed.position_span == (PositionSpan { start: child.position_span.start, end: old(self).spec_position() })
            },
            old(self).spec_stack().len() >= 2 ==> {
                let before = old(self).spec_stack();
                let after = final(self).spec_stack();
                let child = before.last();
                let parent = before[before.len() - 2];
                let new_parent = after.last();
                &&& after.len() == before.len() - 1
                &&& after.drop_last() == before.drop_last().drop_last()
                &&& same_header(parent, new_parent)
                &&& new_parent.children@.len() == parent.children@.len() + 1
                &&& new_parent.children@.drop_last() == parent.children@
                &&& new_parent.children@.last() matches ParseNodeChild::Node(closed) && {
                    &&& closed.rule == child.rule
                    &&& closed.node_ref == child.node_ref
                    &&& closed.well_formed == child.well_formed
                    &&& closed.children == child.children
                    &&& closed.site_span == (SiteSpan { start: child.site_span.start, end: old(self).spec_site() })
                    &&& closed.position_span == (PositionSpan { start: child.position_span.start, end: old(self).spec_position() })
                }
            },
    {
        let ghost before = self.stack@;
        let mut child = match self.stack.pop() {
            Some(child) => child,
            None => {
                return;
            },
        };
        child.site_span.end = self.site;
        child.position_span.end = self.position;
        let mut parent = match self.stack.pop() {
            Some(parent) => parent,
            None => {
                self.stack.push(child);
                return;
            },
        };
        let ghost old_parent = parent;
        parent.children.push(ParseNodeChild::Node(child));
        self.stack.push(parent);
        assert(self.stack@.drop_last() =~= before.drop_last().drop_last());
        assert(parent.children@.drop_last() =~= old_parent.children@);
    }

    /// Records that a syntax error was reported: the current node is no
    /// longer well formed.
    pub fn syntax_error(&mut self)
        ensures
            final(self).spec_site() == old(self).spec_site(),
            final(self).spec_position() == old(self).spec_position(),
            final(self).spec_stack().len() == old(self).spec_stack().len(),
            old(self).spec_stack().len() > 0 ==> {
                let top = old(self).spec_stack().last();
                let new_top = final(self).spec_stack().last();
                &&& final(self).spec_stack().drop_last() == old(self).spec_stack().drop_last()
                &&& !new_top.well_formed
                &&& new_top.rule == top.rule
                &&& new_top.node_ref == top.node_ref
                &&& new_top.site_span == top.site_span
                &&& new_top.position_span == top.position_span
                &&& new_top.children == top.children
            },
            old(self).spec_stack().len() == 0 ==> final(self).spec_stack() == old(self).spec_stack(),
    {
        let ghost before = self.stack@;
        match self.stack.pop() {
            Some(mut current) => {
                current.well_formed = false;
                self.stack.push(current);
                assert(self.stack@.drop_last() =~= before.drop_last());
            },
            None => {},
        }
    }

    /// Records that the parser lifted the node `node_ref` into the current
    /// rule: when the current node has no children yet, the last child of
    /// the parent that is the node `node_ref`, and every child after it,
    /// move into the current node, which then starts where that child
    /// started.
    pub fn lift_node(&mut self, node_ref: NodeRef)
        ensures
            final(self).spec_site() == old(self).spec_site(),
            final(self).spec_position() == old(self).spec_position(),
            ({
                let before = old(self).spec_stack();
                let after = final(self).spec_stack();
                if before.len() >= 2 && before.last().children@.len() == 0
                    && last_sibling(before[before.len() - 2].children@, node_ref) is Some {
                    let current = before.last();
                    let parent = before[before.len() - 2];
                    let from = last_sibling(parent.children@, node_ref)->0;
                    let sibling = parent.children@[from]->Node_0;
                    let new_current = after.last();
                    let new_parent = after[after.len() - 2];
                    &&& after.len() == before.len()
                    &&& after.drop_last().drop_last() == before.drop_last().drop_last()
                    &&& same_header(parent, new_parent)
                    &&& new_parent.children@ == parent.children@.subrange(0, from)
                    &&& new_current.rule == current.rule
                    &&& new_current.node_ref == current.node_ref
                    &&& new_current.well_formed == current.well_formed
                    &&& new_current.site_span == (SiteSpan { start: sibling.site_span.start, end: current.site_span.end })
                    &&& new_current.position_span == (PositionSpan { start: sibling.position_span.start, end: current.position_span.end })
                    &&& new_current.children@ == parent.children@.subrange(from, parent.children@.len() as int)
                } else {
                    after == before
                }
            }),
    {
        let ghost before = self.stack@;
        let stack_len = self.stack.len();
        if stack_len == 0 {
            return;
        }
        if self.stack[stack_len - 1].children.len() != 0 {
            return;
        }
        if stack_len < 2 {
            return;
        }
        let parent_index = stack_len - 2;
        let mut from_index = usize::MAX;
        let mut from_site: usize = 0;
        let mut from_position = Position::start();
        let ghost siblings = self.stack@[parent_index as int].children@;
        proof {
            lemma_last_sibling(siblings, node_ref);
        }
        let mut index = self.stack[parent_index].children.len();
        while index > 0
            invariant
                self.stack@ == before,
                stack_len == before.len(),
                parent_index == stack_len - 2,
                siblings == before[parent_index as int].children@,
                0 <= index <= siblings.len(),
                forall|j: int| index <= j < siblings.len() ==> !is_sibling(#[trigger] siblings[j], node_ref),
            ensures
                self.stack@ == before,
                index == 0 ==> forall|j: int| 0 <= j < siblings.len() ==> !is_sibling(#[trigger] siblings[j], node_ref),
                index > 0 ==> {
                    &&& is_sibling(siblings[index - 1], node_ref)
                    &&& forall|j: int| index <= j < siblings.len() ==> !is_sibling(#[trigger] siblings[j], node_ref)
                    &&& from_index == index - 1
                    &&& from_site == siblings[index - 1]->Node_0.site_span.start
                    &&& from_position == siblings[index - 1]->Node_0.position_span.start
                },
            decreases index,
        {
            match &self.stack[parent_index].children[index - 1] {
                ParseNodeChild::Node(sibling) => {
                    if sibling.node_ref == node_ref {
                        from_index = index - 1;
                        from_site = sibling.site_span.start;
                        from_position = sibling.position_span.start;
                        break;
                    }
                },
                _ => {},
            }
            index = index - 1;
        }
        if index == 0 {
            proof {
                if let Some(i) = last_sibling(siblings, node_ref) {
                    assert(is_sibling(siblings[i], node_ref));
                }
            }
            return;
        }
        proof {
            let i = last_sibling(siblings, node_ref)->0;
            assert(is_sibling(siblings[i], node_ref));
            if i < from_index {
                assert(!is_sibling(siblings[i], node_ref));
            }
            if i > from_index {
                assert(!is_sibling(siblings[from_index as int], node_ref));
            }
        }
        let mut current = self.stack.pop().unwrap();
        let mut parent = self.stack.pop().unwrap();
        let ghost old_parent = parent;
        let ghost old_current = current;
        let lifted = parent.children.split_off(from_index);
        current.site_span.start = from_site;
        current.position_span.start = from_position;
        let mut tail = lifted;
        std::mem::swap(&mut current.children, &mut tail);
        current.children.append(&mut tail);
        self.stack.push(parent);
        self.stack.push(current);
        proof {
            assert(current.children@ =~= old_parent.children@.subrange(from_index as int, old_parent.children@.len() as int));
            assert(self.stack@.drop_last().drop_last() =~= before.drop_last().drop_last());
        }
    }

    /// Finishes the build: returns the outermost open node, or an empty,
    /// not well formed root node when no rule was entered.
    pub fn into_root(self) -> (result: ParseNode)
        ensures
            self.spec_stack().len() > 0 ==> result == self.spec_stack().last(),
            self.spec_stack().len() == 0 ==> {
                &&& result.rule == ROOT_RULE
                &&& result.node_ref.spec_is_nil()
                &&& result.site_span == (SiteSpan { start: 0, end: 0 })
                &&& result.position_span == (PositionSpan { start: Position { line: 1, column: 1 }, end: Position { line: 1, column: 1 } })
                &&& !result.well_formed
                &&& result.children@.len() == 0
            },
    {
        let mut stack = self.stack;
        match stack.pop() {
            Some(root) => root,
            None => ParseNode {
                rule: ROOT_RULE,
                node_ref: NodeRef::nil(),
                site_span: SiteSpan { start: 0, end: 0 },
                position_span: PositionSpan { start: Position::start(), end: Position::start() },
                well_formed: false,
                children: Vec::new(),
            },
        }
    }
}

} // verus!
