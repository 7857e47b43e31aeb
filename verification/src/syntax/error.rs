use vstd::prelude::*;
use vstd::string::*;

use crate::arena::{Entry, Id};
use crate::lexis::site::{SiteRef, SiteRefSpan, TokenText};
use crate::lexis::token::{TokenRule, TokenSet};
use crate::syntax::recovery::RecoveryResult;
use crate::syntax::describe::{
    compose_message, context_text, described_items, insert_described, items_view,
    lemma_ordered_items, node_described, ordered_items, shortened_message, strictly_ordered,
    table_entry, table_lookup, text_present, token_described,
};
use crate::syntax::rule::{NodeRule, NodeSet, ROOT_RULE};

verus! {

/// A report of a syntax error recovery made during parsing.
#[derive(Clone, Copy, PartialEq, Eq, Debug)]
pub struct SyntaxError {
    /// The span of tokens where the error occurred.
    pub span: SiteRefSpan,
    /// The parsing rule that reported the error.
    pub context: NodeRule,
    /// The recovery strategy that was applied.
    pub recovery: RecoveryResult,
    /// The tokens the parser expected in the span.
    pub expected_tokens: &'static TokenSet,
    /// The nodes the parser expected in the span.
    pub expected_nodes: &'static NodeSet,
}

/// The start of `span` moved back over the blank tokens right before it.
pub open spec fn widened_start(code: TokenText, start: int, result: int) -> bool {
    &&& 0 <= result <= start
    &&& forall|k: int| result <= k < start ==> #[trigger] code.spec_blank_at(k)
    &&& result == 0 || !code.spec_blank_at(result - 1)
}

/// The end of `span` moved forward over the blank tokens starting at it.
pub open spec fn widened_end(code: TokenText, end: int, result: int) -> bool {
    &&& end <= result <= code.count()
    &&& forall|k: int| end <= k < result ==> #[trigger] code.spec_blank_at(k)
    &&& !code.spec_blank_at(result)
}

/// The end of a span moved back over blank tokens, but not before `start`.
pub open spec fn trimmed_end(code: TokenText, start: int, end: int, result: int) -> bool {
    &&& start <= result <= end
    &&& forall|k: int| result <= k < end ==> #[trigger] code.spec_blank_at(k)
    &&& result == start || !code.spec_blank_at(result - 1)
}

/// The start of a span moved forward over blank tokens, but not past `end`.
pub open spec fn trimmed_start(code: TokenText, start: int, end: int, result: int) -> bool {
    &&& start <= result <= end
    &&& forall|k: int| start <= k < result ==> #[trigger] code.spec_blank_at(k)
    &&& result == end || !code.spec_blank_at(result)
}

impl SyntaxError {
    /// Moves `site` back over the blank tokens right before it.
    fn widen_start(code: &TokenText, site: SiteRef) -> (result: SiteRef)
        requires
            code.spec_valid_site(site),
        ensures
            result.id == site.id,
            code.spec_valid_site(result),
            widened_start(*code, site.index as int, result.index as int),
    {
        let mut start = site;
        loop
            invariant
                code.spec_valid_site(start),
                start.id == site.id,
                start.index <= site.index,
                forall|k: int| start.index <= k < site.index ==> #[trigger] code.spec_blank_at(k),
            ensures
                code.spec_valid_site(start),
                start.id == site.id,
                widened_start(*code, site.index as int, start.index as int),
            decreases start.index,
        {
            let previous = code.prev(&start);
            if previous == start {
                break;
            }
            if !code.is_valid_site(&previous) {
                break;
            }
            if !code.is_blank(&previous) {
                break;
            }
            start = previous;
        }
        start
    }

    /// The span widened over the blank tokens around it; used for errors
    /// recovered by insertion.
    fn widen_span(&self, code: &TokenText) -> (result: SiteRefSpan)
        ensures
            !code.is_valid_span_spec(self.span) ==> result == self.span,
            code.is_valid_span_spec(self.span) ==> {
                &&& result.start.id == self.span.start.id
                &&& result.end.id == self.span.end.id
                &&& widened_start(*code, self.span.start.index as int, result.start.index as int)
                &&& widened_end(*code, self.span.end.index as int, result.end.index as int)
            },
    {
        if !code.is_valid_span(&self.span) {
            return self.span;
        }
        let start = Self::widen_start(code, self.span.start);
        let mut end = self.span.end;
        loop
            invariant
                code.spec_valid_site(end),
                end.id == self.span.end.id,
                self.span.end.index <= end.index,
                forall|k: int| self.span.end.index <= k < end.index ==> #[trigger] code.spec_blank_at(k),
            ensures
                end.id == self.span.end.id,
                widened_end(*code, self.span.end.index as int, end.index as int),
            decreases code.count() - end.index,
        {
            if !code.is_blank(&end) {
                break;
            }
            let next = code.next(&end);
            if next == end {
                break;
            }
            if !code.is_valid_site(&end) {
                break;
            }
            end = next;
        }
        SiteRefSpan { start, end }
    }

    /// The span trimmed of the blank tokens at its bounds; an all-blank span
    /// collapses to an empty span at its start moved back over the blank
    /// tokens before it. Used for errors recovered by skipping.
    fn shorten_span(&self, code: &TokenText) -> (result: SiteRefSpan)
        ensures
            !code.is_valid_span_spec(self.span) ==> result == self.span,
            code.is_valid_span_spec(self.span) ==> {
                let start = self.span.start.index as int;
                let end = self.span.end.index as int;
                &&& result.start.id == self.span.start.id
                &&& result.end.id == self.span.start.id || result.end.id == self.span.end.id
                &&& (exists|e: int, s: int| #[trigger] trimmed_end(*code, start, end, e)
                    && #[trigger] trimmed_start(*code, start, e, s) && if s == e {
                        &&& widened_start(*code, start, result.start.index as int)
                        &&& result.end == result.start
                    } else {
                        result.start.index == s && result.end.index == e && result.end.id == self.span.end.id
                    })
            },
    {
        if !code.is_valid_span(&self.span) {
            return self.span;
        }
        let mut start = self.span.start;
        let mut end = self.span.end;
        while start != end
            invariant
                code.is_valid_span_spec(self.span),
                start == self.span.start,
                code.spec_valid_site(end),
                end.id == self.span.end.id,
                start.index <= end.index <= self.span.end.index,
                forall|k: int| end.index <= k < self.span.end.index ==> #[trigger] code.spec_blank_at(k),
            ensures
                start == self.span.start,
                code.spec_valid_site(end),
                end.id == self.span.end.id,
                trimmed_end(*code, self.span.start.index as int, self.span.end.index as int, end.index as int),
            decreases end.index,
        {
            let previous = code.prev(&end);
            if previous == end {
                break;
            }
            if !code.is_valid_site(&previous) {
                break;
            }
            if !code.is_blank(&previous) {
                break;
            }
            end = previous;
        }
        let ghost e = end.index as int;
        while start != end
            invariant
                code.is_valid_span_spec(self.span),
                code.spec_valid_site(start),
                code.spec_valid_site(end),
                start.id == self.span.start.id,
                end.id == self.span.end.id,
                end.index == e,
                self.span.start.index <= start.index <= end.index,
                forall|k: int| self.span.start.index <= k < start.index ==> #[trigger] code.spec_blank_at(k),
            ensures
                start.id == self.span.start.id,
                end.id == self.span.end.id,
                end.index == e,
                trimmed_start(*code, self.span.start.index as int, e, start.index as int),
            decreases end.index - start.index,
        {
            if !code.is_blank(&start) {
                break;
            }
            let next = code.next(&start);
            if next == start {
                break;
            }
            if !code.is_valid_site(&next) {
                break;
            }
            start = next;
        }
        let ghost s = start.index as int;
        if start == end {
            let site_ref = Self::widen_start(code, self.span.start);
            assert(trimmed_end(*code, self.span.start.index as int, self.span.end.index as int, e));
            assert(trimmed_start(*code, self.span.start.index as int, e, s));
            return SiteRefSpan { start: site_ref, end: site_ref };
        }
        assert(trimmed_end(*code, self.span.start.index as int, self.span.end.index as int, e));
        assert(trimmed_start(*code, self.span.start.index as int, e, s));
        SiteRefSpan { start, end }
    }

    /// The span of tokens aligned to the blanks surrounding the error's
    /// span, as [SyntaxError::aligned_span] computes it: an invalid span is
    /// kept; errors recovered by insertion widen the span over the
    /// surrounding blanks; the others shrink it to its non-blank part, or to
    /// an empty span at its start moved back over the blanks before it when
    /// the span is all blank.
    pub open spec fn aligned_to(self, code: TokenText, result: SiteRefSpan) -> bool {
        &&& !code.is_valid_span_spec(self.span) ==> result == self.span
        &&& code.is_valid_span_spec(self.span) ==> {
            &&& result.start.id == self.span.start.id
            &&& result.end.id == self.span.end.id
        }
        &&& code.is_valid_span_spec(self.span) && self.recovery == RecoveryResult::InsertRecover ==> {
            &&& widened_start(code, self.span.start.index as int, result.start.index as int)
            &&& widened_end(code, self.span.end.index as int, result.end.index as int)
        }
        &&& code.is_valid_span_spec(self.span) && self.recovery != RecoveryResult::InsertRecover ==> {
            let start = self.span.start.index as int;
            let end = self.span.end.index as int;
            exists|e: int, s: int| #[trigger] trimmed_end(code, start, end, e)
                && #[trigger] trimmed_start(code, start, e, s) && if s == e {
                    &&& widened_start(code, start, result.start.index as int)
                    &&& result.end == result.start
                } else {
                    result.start.index == s && result.end.index == e
                }
        }
    }

    /// Computes a span of tokens aligned to the blanks surrounding the
    /// error's span: errors recovered by insertion widen the span over the
    /// surrounding blanks, the others shrink it to its non-blank part.
    pub fn aligned_span(&self, code: &TokenText) -> (result: SiteRefSpan)
        ensures
            self.aligned_to(*code, result),
    {
        match self.recovery {
            RecoveryResult::InsertRecover => self.widen_span(code),
            _ => self.shorten_span(code),
        }
    }
}

impl SyntaxError {
    /// The canonical title of this error, given the description of its
    /// context rule: "<context> syntax error.", or "Syntax error." for a
    /// rule without a description.
    pub fn title(&self, context_description: Option<&str>) -> (result: String)
        ensures
            result@ == match context_description {
                Some(context) => context@ + " syntax error."@,
                None => "Syntax error."@,
            },
    {
        let mut result = String::new();
        match context_description {
            Some(context) => {
                result.append(context);
                result.append(" syntax error.");
            },
            None => {
                result.append("Syntax error.");
            },
        }
        assert(result@ =~= match context_description {
            Some(context) => context@ + " syntax error."@,
            None => "Syntax error."@,
        });
        result
    }

    /// The described rules of the error's expected nodes and tokens, in
    /// message order, each text once.
    fn described_rules<'a>(
        &self,
        node_descriptions: &[Option<&'a str>],
        token_descriptions: &[Option<&'a str>],
    ) -> (result: Vec<(bool, &'a str)>)
        requires
            self.expected_nodes.wf(),
        ensures
            strictly_ordered(items_view(result@)),
            items_view(result@).to_set() == described_items(
                self.expected_nodes@,
                node_descriptions@,
                self.expected_tokens@,
                token_descriptions@,
            ),
    {
        let ghost node_table = node_descriptions@;
        let ghost token_table = token_descriptions@;
        let ghost entries = self.expected_nodes.entries();
        let mut items: Vec<(bool, &'a str)> = Vec::new();
        let mut iter = self.expected_nodes.iter();
        proof {
            self.expected_nodes.lemma_entries_wf();
            assert(items_view(items@).to_set() =~= described_items(
                entries.take(0).to_set(),
                node_table,
                Set::empty(),
                token_table,
            ));
        }
        loop
            invariant
                iter.wf(),
                iter.source() == *self.expected_nodes,
                entries == self.expected_nodes.entries(),
                node_table == node_descriptions@,
                token_table == token_descriptions@,
                strictly_ordered(items_view(items@)),
                items_view(items@).to_set() == described_items(
                    entries.take(iter.next_index()).to_set(),
                    node_table,
                    Set::empty(),
                    token_table,
                ),
            ensures
                strictly_ordered(items_view(items@)),
                items_view(items@).to_set() == described_items(entries.to_set(), node_table, Set::empty(), token_table),
            decreases entries.len() - iter.next_index(),
        {
            let ghost k = iter.next_index();
            let ghost before = items_view(items@).to_set();
            let ghost prefix = entries.take(k).to_set();
            match iter.next() {
                None => {
                    assert(entries.take(k) =~= entries);
                    break;
                },
                Some(rule) => {
                    let ghost next_prefix = entries.take(k + 1).to_set();
                    assert(entries.take(k + 1) =~= entries.take(k).push(rule));
                    assert(next_prefix =~= prefix.insert(rule)) by {
                        entries.take(k).lemma_push_to_set_commute(rule);
                    }
                    let description = table_lookup(node_descriptions, rule as usize);
                    match description {
                        Some(text) => {
                            proof {
                                assert(text_present(before, text@) == node_described(prefix, node_table, text@)) by {
                                    assert(before.contains((false, text@)) == node_described(prefix, node_table, text@));
                                    assert(!before.contains((true, text@)));
                                }
                            }
                            insert_described(&mut items, false, text);
                            proof {
                                let after = items_view(items@).to_set();
                                assert forall|item: (bool, Seq<char>)| after.contains(item) == described_items(next_prefix, node_table, Set::empty(), token_table).contains(item) by {
                                    if !item.0 {
                                        if node_described(prefix, node_table, item.1) {
                                            let r = choose|r: NodeRule| prefix.contains(r) && table_entry(node_table, r as int) == Some(item.1);
                                            assert(next_prefix.contains(r));
                                        }
                                        if item.1 == text@ {
                                            assert(next_prefix.contains(rule));
                                            assert(table_entry(node_table, rule as int) == Some(text@));
                                        }
                                        if node_described(next_prefix, node_table, item.1) {
                                            let r = choose|r: NodeRule| next_prefix.contains(r) && table_entry(node_table, r as int) == Some(item.1);
                                            if r != rule {
                                                assert(prefix.contains(r));
                                            }
                                        }
                                    }
                                }
                                assert(after =~= described_items(next_prefix, node_table, Set::empty(), token_table));
                            }
                        },
                        None => {
                            proof {
                                assert forall|item: (bool, Seq<char>)| before.contains(item) == described_items(next_prefix, node_table, Set::empty(), token_table).contains(item) by {
                                    if !item.0 {
                                        if node_described(prefix, node_table, item.1) {
                                            let r = choose|r: NodeRule| prefix.contains(r) && table_entry(node_table, r as int) == Some(item.1);
                                            assert(next_prefix.contains(r));
                                        }
                                        if node_described(next_prefix, node_table, item.1) {
                                            let r = choose|r: NodeRule| next_prefix.contains(r) && table_entry(node_table, r as int) == Some(item.1);
                                            if r != rule {
                                                assert(prefix.contains(r));
                                            }
                                        }
                                    }
                                }
                                assert(before =~= described_items(next_prefix, node_table, Set::empty(), token_table));
                            }
                        },
                    }
                },
            }
        }
        let ghost nodes = self.expected_nodes@;
        let ghost tokens = self.expected_tokens@;
        proof {
            assert(entries.to_set() == nodes);
            assert(tokens.filter(|x: TokenRule| (x as int) < 0) =~= Set::empty());
        }
        let mut next: usize = 0;
        while next < 256
            invariant
                next <= 256,
                nodes == self.expected_nodes@,
                tokens == self.expected_tokens@,
                node_table == node_descriptions@,
                token_table == token_descriptions@,
                strictly_ordered(items_view(items@)),
                items_view(items@).to_set() == described_items(
                    nodes,
                    node_table,
                    tokens.filter(|x: TokenRule| (x as int) < next),
                    token_table,
                ),
            decreases 256 - next,
        {
            let rule: TokenRule = next as u8;
            let ghost below = tokens.filter(|x: TokenRule| (x as int) < next);
            let ghost next_below = tokens.filter(|x: TokenRule| (x as int) < next + 1);
            let ghost before = items_view(items@).to_set();
            if self.expected_tokens.contains(rule) {
                assert(next_below =~= below.insert(rule));
                let description = table_lookup(token_descriptions, next);
                match description {
                    Some(text) => {
                        proof {
                            assert(text_present(before, text@) == (node_described(nodes, node_table, text@) || token_described(below, token_table, text@)));
                        }
                        insert_described(&mut items, true, text);
                        proof {
                            let after = items_view(items@).to_set();
                            assert forall|item: (bool, Seq<char>)| after.contains(item) == described_items(nodes, node_table, next_below, token_table).contains(item) by {
                                if item.0 {
                                    if token_described(below, token_table, item.1) {
                                        let r = choose|r: TokenRule| below.contains(r) && table_entry(token_table, r as int) == Some(item.1);
                                        assert(next_below.contains(r));
                                    }
                                    if item.1 == text@ {
                                        assert(next_below.contains(rule));
                                        assert(table_entry(token_table, rule as int) == Some(text@));
                                    }
                                    if token_described(next_below, token_table, item.1) {
                                        let r = choose|r: TokenRule| next_below.contains(r) && table_entry(token_table, r as int) == Some(item.1);
                                        if r != rule {
                                            assert(below.contains(r));
                                        }
                                    }
                                }
                            }
                            assert(after =~= described_items(nodes, node_table, next_below, token_table));
                        }
                    },
                    None => {
                        proof {
                            assert forall|item: (bool, Seq<char>)| before.contains(item) == described_items(nodes, node_table, next_below, token_table).contains(item) by {
                                if item.0 {
                                    if token_described(below, token_table, item.1) {
                                        let r = choose|r: TokenRule| below.contains(r) && table_entry(token_table, r as int) == Some(item.1);
                                        assert(next_below.contains(r));
                                    }
                                    if token_described(next_below, token_table, item.1) {
                                        let r = choose|r: TokenRule| next_below.contains(r) && table_entry(token_table, r as int) == Some(item.1);
                                        if r != rule {
                                            assert(below.contains(r));
                                        }
                                    }
                                }
                            }
                            assert(before =~= described_items(nodes, node_table, next_below, token_table));
                        }
                    },
                }
            } else {
                proof {
                    assert(next_below =~= below);
                }
            }
            next = next + 1;
        }
        proof {
            assert(tokens.filter(|x: TokenRule| (x as int) < 256) =~= tokens);
        }
        items
    }

    /// The canonical message of this error: what was missing or unexpected,
    /// the expected rules, and the context rule.
    ///
    /// The expected rules are named by their descriptions: `node_descriptions`
    /// and `token_descriptions` hold the description of each rule at the
    /// rule's index, in the form that `alt` selects (rules without one are
    /// left out), and `context_description` is the verbose description of
    /// the error's context rule. `alt` selects the alternate form:
    /// capitalized, ending in a full stop, and never shortened. Whether the
    /// error's span is empty is judged on its span aligned to `code`.
    pub fn message(
        &self,
        code: &TokenText,
        alt: bool,
        context_description: Option<&str>,
        node_descriptions: &[Option<&str>],
        token_descriptions: &[Option<&str>],
    ) -> (result: String)
        requires
            self.expected_nodes.wf(),
        ensures
            exists|span: SiteRefSpan|
                self.aligned_to(*code, span) && result@ == shortened_message(
                    alt,
                    span.start == span.end,
                    context_text(self.context, context_description),
                    self.recovery,
                    ordered_items(
                        described_items(
                            self.expected_nodes@,
                            node_descriptions@,
                            self.expected_tokens@,
                            token_descriptions@,
                        ),
                    ),
                    true,
                ),
    {
        let span = self.aligned_span(code);
        let empty_span = span.start == span.end;
        let context: &str = match context_description {
            Some(text) => if self.context != ROOT_RULE {
                text
            } else {
                ""
            },
            None => "",
        };
        proof {
            reveal_strlit("");
            assert(context@ =~= context_text(self.context, context_description));
        }
        let items = self.described_rules(node_descriptions, token_descriptions);
        proof {
            lemma_ordered_items(
                items_view(items@),
                described_items(
                    self.expected_nodes@,
                    node_descriptions@,
                    self.expected_tokens@,
                    token_descriptions@,
                ),
            );
        }
        compose_message(alt, empty_span, context, self.recovery, &items)
    }
}

/// A reference to a syntax error within a syntax tree.
#[derive(Clone, Copy, PartialEq, Eq, Structural, Hash, PartialOrd, Ord, Debug)]
pub struct ErrorRef {
    /// The identifier of the syntax tree.
    pub id: Id,
    /// The versioned index of the error within the tree.
    pub entry: Entry,
}

impl ErrorRef {
    /// Returns a reference that refers to no syntax error.
    pub fn nil() -> (result: Self)
        ensures
            result.id.inner == 0,
            result.entry.index == usize::MAX,
            result.entry.version == 0,
    {
        ErrorRef { id: Id::nil(), entry: Entry::nil() }
    }

    /// Returns true if the reference intentionally refers to no error.
    pub fn is_nil(&self) -> (result: bool)
        ensures
            result == (self.id.inner == 0 || self.entry.spec_is_nil()),
    {
        self.id.is_nil() || self.entry.is_nil()
    }
}

/// Two nil error references are equal and nil: [ErrorRef::nil] fixes every
/// field of its result.
pub proof fn law_nil_error_refs_equal(a: ErrorRef, b: ErrorRef)
    requires
        a.id.inner == 0 && a.entry.index == usize::MAX && a.entry.version == 0,
        b.id.inner == 0 && b.entry.index == usize::MAX && b.entry.version == 0,
    ensures
        a == b,
        a.id.inner == 0 || a.entry.spec_is_nil(),
{
}

} // verus!
