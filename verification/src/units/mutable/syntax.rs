use vstd::prelude::*;

use crate::arena::{Entry, Id};
use crate::lexis::token::TokenRule;
use crate::syntax::node::NodeRef;
use crate::syntax::rule::{NodeRule, ROOT_RULE};
use crate::units::mutable::watcher::Watcher;
use crate::units::storage::tree::reversed;

verus! {

/// The outcome of parsing one rule from a token: the rule, the node it
/// built, the number of tokens it consumed, and the number of tokens after
/// those that it looked at (the end of input counting as one).
pub struct Cluster<N> {
    pub rule: NodeRule,
    pub node: N,
    pub length: usize,
    pub lookahead: usize,
}

/// The syntax grammar of a language: how a rule parses the tokens in front
/// of it.
///
/// An implementation parses a rule from the start of a token sequence, and
/// proves that its parse consumes at least one token, stays within the
/// tokens (and the end of input), and depends on no token past those it
/// consumed and looked at.
pub trait Grammar: Sized {
    /// The outcome of parsing `rule` from the start of `tokens`.
    spec fn spec_parse(rule: NodeRule, tokens: Seq<TokenRule>) -> Cluster<Self>;

    /// Parses `rule` from the token at `start`.
    fn parse(rule: NodeRule, tokens: &Vec<TokenRule>, start: usize) -> (cluster: Cluster<Self>)
        requires
            start < tokens@.len(),
        ensures
            cluster == Self::spec_parse(rule, tokens@.skip(start as int)),
    ;

    /// A parse of a non-empty token sequence consumes at least one token and
    /// reads no further than one past the last token.
    proof fn lemma_parse_bounds(rule: NodeRule, tokens: Seq<TokenRule>)
        requires
            tokens.len() > 0,
        ensures
            Self::spec_parse(rule, tokens).rule == rule,
            1 <= Self::spec_parse(rule, tokens).length <= tokens.len(),
            Self::spec_parse(rule, tokens).length + Self::spec_parse(rule, tokens).lookahead <= tokens.len() + 1,
    ;

    /// A parse depends only on the tokens it consumed and looked at: another
    /// sequence that starts with the same tokens (and ends with them, when
    /// the parse looked at the end of input) parses the same way.
    proof fn lemma_parse_reads(rule: NodeRule, tokens: Seq<TokenRule>, other: Seq<TokenRule>)
        requires
            tokens.len() > 0,
            Self::spec_parse(rule, tokens).length + Self::spec_parse(rule, tokens).lookahead <= tokens.len() ==> {
                let n = Self::spec_parse(rule, tokens).length + Self::spec_parse(rule, tokens).lookahead;
                n <= other.len() && tokens.take(n as int) == other.take(n as int)
            },
            Self::spec_parse(rule, tokens).length + Self::spec_parse(rule, tokens).lookahead > tokens.len()
                ==> other == tokens,
        ensures
            Self::spec_parse(rule, other) == Self::spec_parse(rule, tokens),
    ;
}

/// A cluster of a unit's syntax: where its parse started, the identifier of
/// its node within the unit, and the parse itself.
pub struct SyntaxEntry<N> {
    pub start: usize,
    pub id: usize,
    pub cluster: Cluster<N>,
}

/// True when `entries` are the parse of `tokens`: the top rule parsed from
/// the first token, then from the token after the last one it consumed, and
/// so on to the end of the tokens.
pub open spec fn is_parse<N: Grammar>(tokens: Seq<TokenRule>, entries: Seq<SyntaxEntry<N>>) -> bool {
    &&& (entries.len() == 0 <==> tokens.len() == 0)
    &&& entries.len() > 0 ==> entries[0].start == 0
    &&& entries.len() > 0 ==> entries.last().start + entries.last().cluster.length == tokens.len()
    &&& forall|k: int| 0 <= k < entries.len() ==> #[trigger] entries[k].start < tokens.len()
    &&& forall|k: int| 0 <= k < entries.len() ==> #[trigger] entries[k].cluster == N::spec_parse(
        ROOT_RULE,
        tokens.skip(entries[k].start as int),
    )
    &&& forall|k: int| 0 <= k < entries.len() - 1 ==> #[trigger] entries[k + 1].start == entries[k].start
        + entries[k].cluster.length
}

/// The cluster starts of a parse strictly increase.
pub proof fn lemma_parse_starts_increase<N: Grammar>(tokens: Seq<TokenRule>, entries: Seq<SyntaxEntry<N>>, i: int, j: int)
    requires
        is_parse(tokens, entries),
        0 <= i < j < entries.len(),
    ensures
        entries[i].start < entries[j].start,
    decreases j - i,
{
    let k = j - 1;
    assert(entries[k].start < tokens.len());
    N::lemma_parse_bounds(ROOT_RULE, tokens.skip(entries[k].start as int));
    assert(entries[k + 1].start == entries[k].start + entries[k].cluster.length);
    if i < k {
        lemma_parse_starts_increase(tokens, entries, i, k);
    }
}

/// The parse of a token sequence is unique: two sequences of entries that
/// are both its parse start their clusters at the same tokens and hold the
/// same clusters.
pub proof fn law_parse_is_unique<N: Grammar>(tokens: Seq<TokenRule>, a: Seq<SyntaxEntry<N>>, b: Seq<SyntaxEntry<N>>)
    requires
        is_parse(tokens, a),
        is_parse(tokens, b),
    ensures
        a.len() == b.len(),
        forall|k: int| 0 <= k < a.len() ==> #[trigger] a[k].start == b[k].start && a[k].cluster == b[k].cluster,
{
    let m = if a.len() < b.len() {
        a.len()
    } else {
        b.len()
    };
    assert forall|k: int| 0 <= k < m implies #[trigger] a[k].start == b[k].start by {
        lemma_same_start(tokens, a, b, k);
    }
    if a.len() < b.len() {
        lemma_same_start(tokens, a, b, a.len() - 1);
        assert(b[a.len() - 1 + 1].start == b[a.len() - 1].start + b[a.len() - 1].cluster.length);
        assert(b[a.len() as int].start < tokens.len());
    } else if b.len() < a.len() {
        lemma_same_start(tokens, a, b, b.len() - 1);
        assert(a[b.len() - 1 + 1].start == a[b.len() - 1].start + a[b.len() - 1].cluster.length);
        assert(a[b.len() as int].start < tokens.len());
    }
}

/// Two parses of the same tokens start their `k`-th clusters at the same
/// token.
proof fn lemma_same_start<N: Grammar>(tokens: Seq<TokenRule>, a: Seq<SyntaxEntry<N>>, b: Seq<SyntaxEntry<N>>, k: int)
    requires
        is_parse(tokens, a),
        is_parse(tokens, b),
        0 <= k < a.len(),
        k < b.len(),
    ensures
        a[k].start == b[k].start,
        a[k].cluster == b[k].cluster,
    decreases k,
{
    if k > 0 {
        lemma_same_start(tokens, a, b, k - 1);
        assert(a[k - 1 + 1].start == a[k - 1].start + a[k - 1].cluster.length);
        assert(b[k - 1 + 1].start == b[k - 1].start + b[k - 1].cluster.length);
    }
}

/// The first old token that a session may still reuse a cluster from, when
/// it stands at the new token `position`.
pub open spec fn low_mark(position: int, start: int, end: int, removed_end: int) -> int {
    if position < end {
        if position < start {
            position
        } else {
            start
        }
    } else {
        position - end + removed_end
    }
}

/// True when the old cluster `entry` can stand for the parse of `rule` at
/// the new token `position` after an edit that replaced the old tokens
/// `start..removed_end` with the new tokens `start..end`: it was a parse of
/// `rule` from the same token before the edit and read no edited token, or
/// it started after the edited tokens at the token that `position` now is.
pub open spec fn reusable<N>(entry: SyntaxEntry<N>, rule: NodeRule, position: int, start: int, end: int, removed_end: int) -> bool {
    &&& entry.cluster.rule == rule
    &&& {
        ||| entry.start == position && position + entry.cluster.length + entry.cluster.lookahead <= start
        ||| position >= end && entry.start == position - end + removed_end && entry.start >= removed_end
    }
}

/// The bookkeeping of a reparse after an edit: the clusters of the old
/// syntax not yet passed, the new token the parse stands at, the next free
/// node identifier, and the edit as the old tokens `start..removed_end`
/// replaced with the new tokens `start..end`.
pub struct MutableSyntaxSession<N> {
    pending: Vec<SyntaxEntry<N>>,
    position: usize,
    next_id: usize,
    start: usize,
    end: usize,
    removed_end: usize,
    old_tokens: Ghost<Seq<TokenRule>>,
    old_entries: Ghost<Seq<SyntaxEntry<N>>>,
    taken: Ghost<nat>,
}

impl<N: Grammar> MutableSyntaxSession<N> {
    /// The old syntax.
    pub closed spec fn spec_old_entries(&self) -> Seq<SyntaxEntry<N>> {
        self.old_entries@
    }

    /// The new token the session stands at.
    pub closed spec fn spec_position(&self) -> nat {
        self.position as nat
    }

    /// The next free node identifier.
    pub closed spec fn spec_next_id(&self) -> nat {
        self.next_id as nat
    }

    /// The edit: (start, end, removed_end).
    pub closed spec fn spec_edit(&self) -> (int, int, int) {
        (self.start as int, self.end as int, self.removed_end as int)
    }

    /// Well-formedness over the new tokens: the old clusters are the parse
    /// of the old tokens, the pending ones are those not yet passed (the
    /// passed ones all start before the low mark), the new tokens agree with
    /// the old ones outside the edit, and every old identifier is taken.
    pub closed spec fn wf(&self, tokens: Seq<TokenRule>) -> bool {
        let old = self.old_entries@;
        let n = old.len();
        &&& is_parse(self.old_tokens@, old)
        &&& self.taken@ <= n
        &&& self.pending@.len() == n - self.taken@
        &&& forall|k: int| 0 <= k < self.pending@.len() ==> #[trigger] self.pending@[k] == old[n - 1 - k]
        &&& forall|j: int| 0 <= j < self.taken@ ==> #[trigger] old[j].start < low_mark(
            self.position as int,
            self.start as int,
            self.end as int,
            self.removed_end as int,
        )
        &&& self.start <= self.end <= tokens.len()
        &&& self.start <= self.removed_end <= self.old_tokens@.len()
        &&& tokens.len() - self.end == self.old_tokens@.len() - self.removed_end
        &&& forall|k: int| 0 <= k < self.start ==> #[trigger] tokens[k] == self.old_tokens@[k]
        &&& forall|k: int| 0 <= k < tokens.len() - self.end ==> #[trigger] tokens[self.end + k]
            == self.old_tokens@[self.removed_end + k]
        &&& forall|j: int| 0 <= j < n ==> #[trigger] old[j].id < self.next_id
        &&& self.position <= tokens.len()
        &&& self.old_tokens@.len() < usize::MAX
    }
}

impl<N: Grammar> MutableSyntaxSession<N> {
    /// Starts a reparse of `tokens` at their first token, after an edit that
    /// replaced the old tokens `start..removed_end` with the new tokens
    /// `start..end`, over the old syntax `entries` of `old_tokens`.
    pub fn new(
        entries: Vec<SyntaxEntry<N>>,
        Ghost(old_tokens): Ghost<Seq<TokenRule>>,
        Ghost(tokens): Ghost<Seq<TokenRule>>,
        start: usize,
        end: usize,
        removed_end: usize,
        next_id: usize,
    ) -> (result: Self)
        requires
            is_parse(old_tokens, entries@),
            old_tokens.len() < usize::MAX,
            start <= end <= tokens.len(),
            start <= removed_end <= old_tokens.len(),
            tokens.len() - end == old_tokens.len() - removed_end,
            forall|k: int| 0 <= k < start ==> #[trigger] tokens[k] == old_tokens[k],
            forall|k: int| 0 <= k < tokens.len() - end ==> #[trigger] tokens[end + k] == old_tokens[removed_end + k],
            forall|j: int| 0 <= j < entries@.len() ==> #[trigger] entries@[j].id < next_id,
        ensures
            result.wf(tokens),
            result.spec_old_entries() == entries@,
            result.spec_position() == 0,
            result.spec_next_id() == next_id,
            result.spec_edit() == (start as int, end as int, removed_end as int),
    {
        let ghost old = entries@;
        let pending = reversed(entries);
        MutableSyntaxSession {
            pending,
            position: 0,
            next_id,
            start,
            end,
            removed_end,
            old_tokens: Ghost(old_tokens),
            old_entries: Ghost(old),
            taken: Ghost(0),
        }
    }

    /// The new token the session stands at.
    pub fn position(&self) -> (result: usize)
        ensures
            result == self.spec_position(),
    {
        self.position
    }

    /// The next free node identifier.
    pub fn next_id(&self) -> (result: usize)
        ensures
            result == self.spec_next_id(),
    {
        self.next_id
    }

    /// Parses `rule` from the current token, and moves past the tokens it
    /// consumed. An old cluster that can stand for this parse (see
    /// [reusable]) is reused with its node identifier; otherwise the rule
    /// is parsed anew under the next free identifier, which is reported to
    /// `watcher`.
    #[verifier::rlimit(60)]
    #[verifier::spinoff_prover]
    pub fn descend<W: Watcher>(&mut self, tokens: &Vec<TokenRule>, rule: NodeRule, unit: Id, watcher: &mut W) -> (entry: SyntaxEntry<N>)
        requires
            old(self).wf(tokens@),
            old(self).spec_position() < tokens@.len(),
            old(self).spec_next_id() < usize::MAX,
        ensures
            final(self).wf(tokens@),
            final(self).spec_old_entries() == old(self).spec_old_entries(),
            final(self).spec_edit() == old(self).spec_edit(),
            entry.start == old(self).spec_position(),
            entry.cluster == N::spec_parse(rule, tokens@.skip(entry.start as int)),
            final(self).spec_position() == entry.start + entry.cluster.length,
            forall|j: int| 0 <= j < old(self).spec_old_entries().len() && #[trigger] reusable(
                old(self).spec_old_entries()[j], rule, entry.start as int, old(self).spec_edit().0,
                old(self).spec_edit().1, old(self).spec_edit().2)
                ==> entry.id == old(self).spec_old_entries()[j].id,
            (forall|j: int| 0 <= j < old(self).spec_old_entries().len() ==> !#[trigger] reusable(
                old(self).spec_old_entries()[j], rule, entry.start as int, old(self).spec_edit().0,
                old(self).spec_edit().1, old(self).spec_edit().2)) ==> {
                &&& entry.id == old(self).spec_next_id()
                &&& final(self).spec_next_id() == old(self).spec_next_id() + 1
            },
            old(self).spec_next_id() <= final(self).spec_next_id() <= old(self).spec_next_id() + 1,
            entry.id < final(self).spec_next_id(),
    {
        let ghost old_entries = self.old_entries@;
        let ghost old_tokens = self.old_tokens@;
        let ghost n = old_entries.len();
        let pos = self.position;
        let ghost low = low_mark(pos as int, self.start as int, self.end as int, self.removed_end as int);
        proof {
            N::lemma_parse_bounds(rule, tokens@.skip(pos as int));
        }
        let mut found: Option<SyntaxEntry<N>> = None;
        let ghost mut found_at: int = 0;
        let ghost mut reused = false;
        if pos < self.start || pos >= self.end {
            let target = if pos < self.start {
                pos
            } else {
                pos - self.end + self.removed_end
            };
            assert(target == low);
            while self.pending.len() > 0 && self.pending[self.pending.len() - 1].start < target
                invariant
                    self.old_entries@ == old_entries,
                    self.old_tokens@ == old_tokens,
                    self.start == old(self).start,
                    self.end == old(self).end,
                    self.removed_end == old(self).removed_end,
                    self.position == pos,
                    self.next_id == old(self).next_id,
                    pos < self.start || pos >= self.end,
                    target == low,
                    low == low_mark(pos as int, self.start as int, self.end as int, self.removed_end as int),
                    n == old_entries.len(),
                    self.taken@ <= n,
                    self.pending@.len() == n - self.taken@,
                    forall|k: int| 0 <= k < self.pending@.len() ==> #[trigger] self.pending@[k] == old_entries[n - 1 - k],
                    forall|j: int| 0 <= j < self.taken@ ==> #[trigger] old_entries[j].start < target,
                decreases self.pending@.len(),
            {
                let ghost t = self.taken@;
                assert(self.pending@[self.pending@.len() - 1] == old_entries[t as int]);
                let _passed = self.pending.pop();
                proof {
                    self.taken@ = t + 1;
                }
            }
            if self.pending.len() > 0 {
                let last = self.pending.len() - 1;
                let top_start = self.pending[last].start;
                let top_rule = self.pending[last].cluster.rule;
                let top_length = self.pending[last].cluster.length;
                let top_lookahead = self.pending[last].cluster.lookahead;
                let ghost t = self.taken@;
                proof {
                    assert(self.pending@[last as int] == old_entries[t as int]);
                    assert(old_entries[t as int].start < old_tokens.len());
                    N::lemma_parse_bounds(ROOT_RULE, old_tokens.skip(old_entries[t as int].start as int));
                }
                let fits = if pos < self.start {
                    top_start == target && top_length <= self.start - pos && top_lookahead <= self.start - pos
                        - top_length
                } else {
                    top_start == target && top_start >= self.removed_end
                };
                if top_rule == rule && fits {
                    found = self.pending.pop();
                    proof {
                        self.taken@ = t + 1;
                        found_at = t as int;
                        reused = true;
                        assert(found == Some(old_entries[t as int]));
                        assert(old_entries[t as int].start == target);
                        assert(pos < self.start ==> pos + old_entries[t as int].cluster.length
                            + old_entries[t as int].cluster.lookahead <= self.start);
                        assert(pos >= self.start ==> pos >= self.end && old_entries[t as int].start >= self.removed_end);
                        assert(old_entries[t as int].cluster.rule == rule);
                        assert(reusable(old_entries[t as int], rule, pos as int, self.start as int, self.end as int,
                            self.removed_end as int));
                    }
                }
            }
        }
        let ghost passed = self.taken@;
        proof {
            assert forall|j: int| 0 <= j < n && #[trigger] reusable(old_entries[j], rule, pos as int, self.start as int,
                self.end as int, self.removed_end as int) implies found is Some && j == passed - 1 by {
                let t = if found is Some { passed - 1 } else { passed as int };
                assert(old_entries[j].start < old_tokens.len());
                N::lemma_parse_bounds(ROOT_RULE, old_tokens.skip(old_entries[j].start as int));
                assert(old_entries[j].cluster == N::spec_parse(ROOT_RULE, old_tokens.skip(old_entries[j].start as int)));
                assert(old_entries[j].cluster.length >= 1);
                if old_entries[j].start == pos && pos + old_entries[j].cluster.length + old_entries[j].cluster.lookahead
                    <= self.start {
                    assert(pos < self.start);
                    assert(low == pos);
                } else {
                    assert(pos >= self.end);
                    assert(low == pos - self.end + self.removed_end);
                }
                assert(old_entries[j].start == low);
                if j < t {
                    lemma_parse_starts_increase(old_tokens, old_entries, j, t);
                } else if j > t {
                    lemma_parse_starts_increase(old_tokens, old_entries, t, j);
                }
            }
        }
        let entry = match found {
            Some(cached) => {
                let ghost j = found_at;
                assert(j == passed - 1);
                assert(cached == old_entries[j]);
                proof {
                    let os = old_entries[j].start as int;
                    let a = old_tokens.skip(os);
                    let b = tokens@.skip(pos as int);
                    N::lemma_parse_bounds(ROOT_RULE, a);
                    let c = N::spec_parse(ROOT_RULE, a);
                    assert(c == old_entries[j].cluster);
                    assert(rule == ROOT_RULE);
                    let m = c.length + c.lookahead;
                    if pos < self.start {
                        assert(m <= self.start - pos);
                        assert forall|i: int| 0 <= i < m implies #[trigger] a.take(m as int)[i] == b.take(m as int)[i] by {
                            assert(a[i] == old_tokens[pos + i]);
                            assert(b[i] == tokens@[pos + i]);
                            assert(tokens@[pos + i] == old_tokens[pos + i]);
                        }
                        assert(a.take(m as int) =~= b.take(m as int));
                    } else {
                        assert(a.len() == b.len());
                        assert forall|i: int| 0 <= i < a.len() implies #[trigger] a[i] == b[i] by {
                            let k = pos - self.end + i;
                            assert(a[i] == old_tokens[os + i]);
                            assert(b[i] == tokens@[self.end + k]);
                            assert(tokens@[self.end + k] == old_tokens[self.removed_end + k]);
                        }
                        assert(a =~= b);
                    }
                    N::lemma_parse_reads(ROOT_RULE, a, b);
                }
                SyntaxEntry { start: pos, id: cached.id, cluster: cached.cluster }
            },
            None => {
                let cluster = N::parse(rule, tokens, pos);
                let id = self.next_id;
                self.next_id = self.next_id + 1;
                let node_ref = NodeRef { id: unit, entry: Entry { index: id, version: 1 } };
                watcher.report_node(&node_ref);
                SyntaxEntry { start: pos, id, cluster }
            },
        };
        assert(entry.cluster == N::spec_parse(rule, tokens@.skip(pos as int)));
        proof {
            N::lemma_parse_bounds(rule, tokens@.skip(pos as int));
            assert(tokens@.skip(pos as int).len() == tokens@.len() - pos);
            assert(entry.cluster.length <= tokens@.len() - pos);
            if reused {
                assert(reusable(old(self).spec_old_entries()[found_at], rule, entry.start as int,
                    old(self).spec_edit().0, old(self).spec_edit().1, old(self).spec_edit().2));
            }
        }
        let length = entry.cluster.length;
        let count = tokens.len();
        assert(pos + length <= count);
        self.position = pos + length;
        proof {
            assert forall|j: int| 0 <= j < self.taken@ implies #[trigger] old_entries[j].start < low_mark(
                self.position as int,
                self.start as int,
                self.end as int,
                self.removed_end as int,
            ) by {
                if found is Some && j == passed - 1 {
                    assert(old_entries[j].start == low);
                }
            }
        }
        entry
    }
}

impl<N: Grammar> MutableSyntaxSession<N> {
    /// Reparses the tokens from the first one to the end: the top rule from
    /// the first token, then from the token after the last one it consumed,
    /// and so on, each through [MutableSyntaxSession::descend], so that
    /// every old cluster that can stand for a parse is reused.
    pub fn run<W: Watcher>(&mut self, tokens: &Vec<TokenRule>, unit: Id, watcher: &mut W) -> (entries: Vec<SyntaxEntry<N>>)
        requires
            old(self).wf(tokens@),
            old(self).spec_position() == 0,
            old(self).spec_next_id() + tokens@.len() < usize::MAX,
        ensures
            is_parse(tokens@, entries@),
            forall|k: int, j: int|
                0 <= k < entries@.len() && 0 <= j < old(self).spec_old_entries().len() && #[trigger] reusable(
                    old(self).spec_old_entries()[j], ROOT_RULE, #[trigger] entries@[k].start as int,
                    old(self).spec_edit().0, old(self).spec_edit().1, old(self).spec_edit().2)
                    ==> entries@[k].id == old(self).spec_old_entries()[j].id,
            forall|k: int| 0 <= k < entries@.len() ==> #[trigger] entries@[k].id < final(self).spec_next_id(),
            old(self).spec_next_id() <= final(self).spec_next_id() <= old(self).spec_next_id() + tokens@.len(),
    {
        let ghost old_entries = self.old_entries@;
        let ghost edit = self.spec_edit();
        let ghost first_id = self.next_id as int;
        let mut out: Vec<SyntaxEntry<N>> = Vec::new();
        while self.position < tokens.len()
            invariant
                self.wf(tokens@),
                self.old_entries@ == old_entries,
                self.spec_edit() == edit,
                first_id <= self.next_id <= first_id + self.position,
                first_id + tokens@.len() < usize::MAX,
                out@.len() == 0 <==> self.position == 0,
                out@.len() > 0 ==> out@[0].start == 0,
                out@.len() > 0 ==> out@.last().start + out@.last().cluster.length == self.position,
                forall|k: int| 0 <= k < out@.len() ==> #[trigger] out@[k].start < tokens@.len(),
                forall|k: int| 0 <= k < out@.len() ==> #[trigger] out@[k].cluster == N::spec_parse(
                    ROOT_RULE,
                    tokens@.skip(out@[k].start as int),
                ),
                forall|k: int| 0 <= k < out@.len() - 1 ==> #[trigger] out@[k + 1].start == out@[k].start
                    + out@[k].cluster.length,
                forall|k: int| 0 <= k < out@.len() ==> #[trigger] out@[k].id < self.next_id,
                forall|k: int, j: int|
                    0 <= k < out@.len() && 0 <= j < old_entries.len() && #[trigger] reusable(
                        old_entries[j], ROOT_RULE, #[trigger] out@[k].start as int, edit.0, edit.1, edit.2)
                        ==> out@[k].id == old_entries[j].id,
            decreases tokens@.len() - self.position,
        {
            let ghost before = out@;
            let ghost pos = self.position;
            let entry = self.descend(tokens, ROOT_RULE, unit, watcher);
            proof {
                N::lemma_parse_bounds(ROOT_RULE, tokens@.skip(pos as int));
            }
            out.push(entry);
            proof {
                assert(out@[out@.len() - 1] == entry);
                assert forall|k: int| 0 <= k < out@.len() - 1 implies #[trigger] out@[k + 1].start == out@[k].start
                    + out@[k].cluster.length by {
                    if k < before.len() - 1 {
                        assert(out@[k] == before[k]);
                        assert(out@[k + 1] == before[k + 1]);
                    } else {
                        assert(out@[k] == before[k]);
                    }
                }
                assert forall|k: int, j: int|
                    0 <= k < out@.len() && 0 <= j < old_entries.len() && #[trigger] reusable(
                        old_entries[j], ROOT_RULE, #[trigger] out@[k].start as int, edit.0, edit.1, edit.2)
                        implies out@[k].id == old_entries[j].id by {
                    if k < before.len() {
                        assert(out@[k] == before[k]);
                    }
                }
                assert forall|k: int| 0 <= k < out@.len() implies #[trigger] out@[k].id < self.next_id by {
                    if k < before.len() {
                        assert(out@[k] == before[k]);
                    }
                }
                assert forall|k: int| 0 <= k < out@.len() implies #[trigger] out@[k].cluster == N::spec_parse(
                    ROOT_RULE,
                    tokens@.skip(out@[k].start as int),
                ) && out@[k].start < tokens@.len() by {
                    if k < before.len() {
                        assert(out@[k] == before[k]);
                    }
                }
            }
        }
        out
    }
}

} // verus!
