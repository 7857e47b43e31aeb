use std::marker::PhantomData;

use vstd::prelude::*;
use vstd::string::*;

use crate::arena::Id;
use crate::lexis::token::{Token, TokenRule, MISMATCH};
use crate::units::mutable::lexis::{
    chars_of, lemma_lex_prefix, lemma_lex_split, lemma_no_two_mismatches, lemma_shape_concat, lemma_shape_spans,
    lex, run, shape,
};
use crate::syntax::rule::ROOT_RULE;
use crate::units::mutable::syntax::{is_parse, law_parse_is_unique, reusable, Grammar, MutableSyntaxSession, SyntaxEntry};
use crate::units::mutable::watcher::{VoidWatcher, Watcher};
use crate::units::storage::tree::{
    chunks_text, is_chunking, lemma_chunks_text_concat, lemma_chunks_text_len, same_chunk, spans_positive,
    spans_sum, rules_of, lemma_spans_sum_concat, Chunk, TokenTree,
};

verus! {

/// The site an edit at `from` rescans from: `lookback` characters before
/// it, or the start of the text.
pub open spec fn lookback_site(from: int, lookback: nat) -> int {
    if from >= lookback {
        from - lookback
    } else {
        0
    }
}

/// What an edit changed in the chunks of a unit: the chunk `head` that the
/// rescan started from, and the chunks `start..end` that replaced the old
/// chunks `start..removed_end`; the chunks around them stayed as they were.
#[derive(Clone, Copy, PartialEq, Eq, Structural, Debug)]
pub struct Cover {
    pub head: usize,
    pub start: usize,
    pub end: usize,
    pub removed_end: usize,
}

/// True when the chunks `new` stand in place of the chunks `old` as
/// `cover` says: the chunks `start..end` of `new` replaced the chunks
/// `start..removed_end` of `old`, the chunks around them are the same, and
/// the cover is as narrow as it can be: its first and last new chunks
/// differ from the old ones they replaced.
pub open spec fn unchanged_around(old: Seq<Chunk>, new: Seq<Chunk>, cover: Cover) -> bool {
    &&& cover.head <= cover.start <= cover.end <= new.len()
    &&& cover.start <= cover.removed_end <= old.len()
    &&& new.len() - cover.end == old.len() - cover.removed_end
    &&& forall|k: int| 0 <= k < cover.start ==> #[trigger] same_chunk(new[k], old[k])
    &&& forall|k: int| 0 <= k < new.len() - cover.end ==> #[trigger] same_chunk(new[cover.end + k], old[cover.removed_end + k])
    &&& cover.start < cover.end && cover.start < cover.removed_end ==> {
        &&& !same_chunk(new[cover.start as int], old[cover.start as int])
        &&& !same_chunk(new[cover.end - 1], old[cover.removed_end - 1])
    }
}

/// True when the chunks `new` are the rescan of the chunks `old` after the
/// characters `from..to` of their text were replaced with `text`: they cut
/// the edited text into the grammar's tokens, as a scan of the whole edited
/// text from its start does, and `cover` tells what changed.
pub open spec fn relexed<T: Token>(old: Seq<Chunk>, new: Seq<Chunk>, cover: Cover, from: int, to: int, text: Seq<char>) -> bool {
    let edited = chunks_text(old).subrange(0, from) + text + chunks_text(old).subrange(to, chunks_text(old).len() as int);
    &&& is_chunking(new, edited)
    &&& shape(new) == lex::<T>(edited)
    &&& unchanged_around(old, new, cover)
}

/// A compilation unit whose text can be edited: its text cut into chunks by
/// the lexical grammar `T`, held in a balanced tree that an edit rescans and
/// rewrites in part, and the syntax of its tokens under the syntax grammar
/// `N`, which an edit reparses reusing the clusters the edit did not reach.
pub struct MutableUnit<T, N> {
    id: Id,
    tree: TokenTree,
    length: usize,
    entries: Vec<SyntaxEntry<N>>,
    next_id: usize,
    grammar: PhantomData<T>,
}

impl<T: Token, N: Grammar> MutableUnit<T, N> {
    /// The chunks of the unit, in order.
    pub closed spec fn chunks(&self) -> Seq<Chunk> {
        self.tree.chunks()
    }

    /// The text of the unit.
    pub closed spec fn spec_text(&self) -> Seq<char> {
        chunks_text(self.tree.chunks())
    }

    /// The syntax of the unit: its clusters, in order.
    pub closed spec fn syntax(&self) -> Seq<SyntaxEntry<N>> {
        self.entries@
    }

    /// The next free node identifier.
    pub closed spec fn spec_next_id(&self) -> nat {
        self.next_id as nat
    }

    /// The identifier of the unit.
    pub closed spec fn spec_id(&self) -> Id {
        self.id
    }

    /// Well-formedness of the lexical side: the tree is well formed, its
    /// chunks cut the text into tokens, and the text's length fits a
    /// `usize`.
    pub closed spec fn lexis_wf(&self) -> bool {
        &&& self.tree.wf()
        &&& is_chunking(self.tree.chunks(), chunks_text(self.tree.chunks()))
        &&& self.length == chunks_text(self.tree.chunks()).len()
        &&& self.length < usize::MAX
        &&& shape(self.tree.chunks()) == lex::<T>(chunks_text(self.tree.chunks()))
    }

    /// Well-formedness: the lexical side is well formed, the syntax is the
    /// parse of the token rules, and every node identifier is below the
    /// next free one.
    pub closed spec fn wf(&self) -> bool {
        &&& self.lexis_wf()
        &&& is_parse::<N>(rules_of(self.tree.chunks()), self.entries@)
        &&& forall|k: int| 0 <= k < self.entries@.len() ==> #[trigger] self.entries@[k].id < self.next_id
    }

    /// Creates a unit of `text`, scanned by the lexical grammar and parsed
    /// by the syntax grammar, with node identifiers from zero.
    pub fn new<W: Watcher>(id: Id, text: &str, watcher: &mut W) -> (result: Self)
        requires
            text@.len() < usize::MAX,
        ensures
            result.wf(),
            result.spec_id() == id,
            result.spec_text() == text@,
            shape(result.chunks()) == lex::<T>(text@),
    {
        let chars = chars_of(text);
        let mut targets: Vec<usize> = Vec::new();
        targets.push(chars.len());
        let (chunks, stop, _index) = run::<T>(&chars, text, chars.len(), &targets);
        proof {
            assert(chars@.take(stop as int) =~= chars@);
            assert(chars@.skip(stop as int) =~= Seq::<char>::empty());
            assert(lex::<T>(chars@.skip(stop as int)) =~= Seq::<(TokenRule, nat)>::empty());
            assert(lex::<T>(text@) =~= shape(chunks@));
            lemma_chunks_text_len(chunks@);
        }
        let tree = TokenTree::from_chunks(chunks);
        let length = text.unicode_len();
        let tokens = tree.rules();
        let mut session = MutableSyntaxSession::<N>::new(
            Vec::new(),
            Ghost(Seq::empty()),
            Ghost(tokens@),
            0,
            tokens.len(),
            0,
            0,
        );
        let entries = session.run(&tokens, id, watcher);
        let next_id = session.next_id();
        MutableUnit { id, tree, length, entries, next_id, grammar: PhantomData }
    }

    /// The clusters of the syntax, in order.
    pub fn entries(&self) -> (result: &Vec<SyntaxEntry<N>>)
        ensures
            result@ == self.syntax(),
    {
        &self.entries
    }

    /// The number of characters of the text.
    pub fn length(&self) -> (result: usize)
        requires
            self.wf(),
        ensures
            result == self.spec_text().len(),
    {
        self.length
    }

    /// The text of the unit.
    pub fn text(&self) -> (result: String)
        requires
            self.wf(),
        ensures
            result@ == self.spec_text(),
    {
        self.tree.text()
    }

    /// The number of chunks of the unit.
    pub fn chunk_count(&self) -> (result: usize)
        requires
            self.wf(),
        ensures
            result == self.chunks().len(),
    {
        self.tree.len()
    }
}

/// True when two chunks hold the same token rule, span and text.
fn same_chunks(a: &Chunk, b: &Chunk) -> (result: bool)
    ensures
        result == same_chunk(*a, *b),
{
    a.token == b.token && a.span == b.span && a.string == b.string
}

/// The text of the chunks, one after another.
fn join_strings(chunks: &Vec<Chunk>) -> (result: String)
    ensures
        result@ == chunks_text(chunks@),
{
    let mut out = String::new();
    let mut i: usize = 0;
    assert(chunks@.take(0) =~= Seq::<Chunk>::empty());
    while i < chunks.len()
        invariant
            i <= chunks@.len(),
            out@ == chunks_text(chunks@.take(i as int)),
        decreases chunks@.len() - i,
    {
        out.append(chunks[i].string.as_str());
        proof {
            assert(chunks@.take(i + 1).drop_last() =~= chunks@.take(i as int));
            assert(chunks@.take(i + 1).last() == chunks@[i as int]);
        }
        i = i + 1;
    }
    assert(chunks@.take(i as int) =~= chunks@);
    out
}

/// The chunks of a part of a chunking still cover their strings.
proof fn lemma_chunking_part(chunks: Seq<Chunk>, from: int, to: int)
    requires
        0 <= from <= to <= chunks.len(),
        forall|i: int| 0 <= i < chunks.len() ==> #[trigger] chunks[i].span == chunks[i].string@.len(),
        spans_positive(chunks),
    ensures
        forall|i: int| 0 <= i < to - from ==> #[trigger] chunks.subrange(from, to)[i].span == chunks.subrange(from, to)[i].string@.len(),
        spans_positive(chunks.subrange(from, to)),
        spans_sum(chunks.subrange(from, to)) == chunks_text(chunks.subrange(from, to)).len(),
        to - from <= chunks_text(chunks.subrange(from, to)).len(),
{
    let part = chunks.subrange(from, to);
    assert forall|i: int| 0 <= i < to - from implies #[trigger] part[i].span == part[i].string@.len() && part[i].span > 0 by {
        assert(part[i] == chunks[from + i]);
    }
    lemma_chunks_text_len(part);
}

/// The positions in the edited text, from the start of the rescan, where
/// the old chunks `old_tail` began at or after the edit: the old characters
/// `a..b` of the rescanned text were replaced with `text_len` characters.
/// Returns the index of the first old chunk that began at or after the
/// edit, and the positions of it and of every later chunk (and of the end).
fn tail_targets(old_tail: &Vec<Chunk>, a: usize, b: usize, text_len: usize, Ghost(new_len): Ghost<int>) -> (result: (usize, Vec<usize>))
    requires
        forall|i: int| 0 <= i < old_tail@.len() ==> #[trigger] old_tail@[i].span > 0,
        a <= b <= spans_sum(old_tail@),
        spans_sum(old_tail@) < usize::MAX,
        spans_sum(old_tail@) - (b - a) + text_len == new_len,
        new_len < usize::MAX,
        old_tail@.len() < usize::MAX,
    ensures
        result.0 <= old_tail@.len(),
        result.1@.len() == old_tail@.len() + 1 - result.0,
        forall|i: int| 0 <= i < result.1@.len() ==> #[trigger] result.1@[i] + b == spans_sum(
            old_tail@.take(result.0 + i)) + a + text_len,
        forall|i: int, k: int| 0 <= i < k < result.1@.len() ==> result.1@[i] < result.1@[k],
        forall|i: int| 0 <= i < result.1@.len() ==> a + text_len <= #[trigger] result.1@[i],
        result.1@.len() > 0,
        result.1@.last() == new_len,
{
    let ghost tail = old_tail@;
    let m = old_tail.len();
    let mut c: usize = 0;
    let mut j: usize = 0;
    assert(tail.take(0) =~= Seq::<Chunk>::empty());
    proof {
        lemma_spans_grow(tail);
    }
    while c < b
        invariant
            j <= m,
            m == tail.len(),
            tail == old_tail@,
            c == spans_sum(tail.take(j as int)),
            b <= spans_sum(tail),
            spans_sum(tail) < usize::MAX,
            forall|x: int, y: int| 0 <= x < y <= tail.len() ==> spans_sum(#[trigger] tail.take(x)) < spans_sum(
                #[trigger] tail.take(y)),
        decreases m - j,
    {
        proof {
            assert(tail.take(m as int) =~= tail);
            if j == m {
                assert(tail.take(j as int) =~= tail);
            }
            lemma_spans_take_step(tail, j as int);
            if j + 1 < m {
                assert(spans_sum(tail.take(j + 1)) < spans_sum(tail.take(m as int)));
            }
        }
        c = c + old_tail[j].span;
        j = j + 1;
    }
    let j0 = j;
    let mut targets: Vec<usize> = Vec::new();
    while j <= m
        invariant
            j0 <= j <= m + 1,
            m == tail.len(),
            m < usize::MAX,
            tail == old_tail@,
            targets@.len() == j - j0,
            j <= m ==> c == spans_sum(tail.take(j as int)),
            b <= spans_sum(tail.take(j0 as int)),
            j <= m ==> b <= c,
            forall|i: int| 0 <= i < targets@.len() ==> #[trigger] targets@[i] + b == spans_sum(tail.take(j0 + i)) + a
                + text_len,
            spans_sum(tail) - (b - a) + text_len == new_len,
            new_len < usize::MAX,
            spans_sum(tail) < usize::MAX,
            forall|x: int, y: int| 0 <= x < y <= tail.len() ==> spans_sum(#[trigger] tail.take(x)) < spans_sum(
                #[trigger] tail.take(y)),
        decreases m + 1 - j,
    {
        proof {
            assert(tail.take(m as int) =~= tail);
            if j < m {
                assert(spans_sum(tail.take(j as int)) < spans_sum(tail.take(m as int)));
            }
        }
        targets.push(c - b + a + text_len);
        if j < m {
            proof {
                lemma_spans_take_step(tail, j as int);
                if j + 1 < m {
                    assert(spans_sum(tail.take(j + 1)) < spans_sum(tail.take(m as int)));
                }
            }
            c = c + old_tail[j].span;
        }
        j = j + 1;
    }
    proof {
        assert(tail.take(m as int) =~= tail);
        assert forall|i: int, k: int| 0 <= i < k < targets@.len() implies targets@[i] < targets@[k] by {
            assert(spans_sum(tail.take(j0 + i)) < spans_sum(tail.take(j0 + k)));
        }
        assert forall|i: int| 0 <= i < targets@.len() implies a + text_len <= #[trigger] targets@[i] by {
            if i > 0 {
                assert(spans_sum(tail.take(j0 as int)) < spans_sum(tail.take(j0 + i)));
            }
        }
    }
    (j0, targets)
}

/// The characters of the first `j + 1` chunks are those of the first `j`
/// and of the chunk at `j`.
proof fn lemma_spans_take_step(chunks: Seq<Chunk>, j: int)
    requires
        0 <= j < chunks.len(),
    ensures
        spans_sum(chunks.take(j + 1)) == spans_sum(chunks.take(j)) + chunks[j].span,
{
    assert(chunks.take(j + 1).drop_last() =~= chunks.take(j));
}

/// The characters of the first chunks grow strictly with their number,
/// when every chunk covers a character.
proof fn lemma_spans_grow(chunks: Seq<Chunk>)
    requires
        forall|i: int| 0 <= i < chunks.len() ==> #[trigger] chunks[i].span > 0,
    ensures
        forall|x: int, y: int| 0 <= x < y <= chunks.len() ==> spans_sum(#[trigger] chunks.take(x)) < spans_sum(
            #[trigger] chunks.take(y)),
{
    assert forall|x: int, y: int| 0 <= x < y <= chunks.len() implies spans_sum(#[trigger] chunks.take(x)) < spans_sum(
        #[trigger] chunks.take(y)) by {
        lemma_spans_grow_from(chunks, x, y);
    }
}

/// The characters of the first `y` chunks exceed those of the first `x`.
proof fn lemma_spans_grow_from(chunks: Seq<Chunk>, x: int, y: int)
    requires
        forall|i: int| 0 <= i < chunks.len() ==> #[trigger] chunks[i].span > 0,
        0 <= x < y <= chunks.len(),
    ensures
        spans_sum(chunks.take(x)) < spans_sum(chunks.take(y)),
    decreases y - x,
{
    lemma_spans_take_step(chunks, y - 1);
    if x < y - 1 {
        lemma_spans_grow_from(chunks, x, y - 1);
    }
}

/// The old chunks with those from `head + skip` to `head + kept_from -
/// trail` replaced by the fresh chunks `skip..fresh.len() - trail` stand in
/// place of the old chunks as the cover of the rescan says, when `fresh`
/// and the first `kept_from` chunks from `head` agree on their first `skip`
/// and last `trail` chunks, and no further.
proof fn lemma_cover(old: Seq<Chunk>, all: Seq<Chunk>, head: int, fresh: Seq<Chunk>, kept_from: int, skip: int, trail: int)
    requires
        0 <= head <= old.len(),
        old.len() < usize::MAX,
        all.len() < usize::MAX,
        0 <= kept_from <= old.len() - head,
        0 <= skip <= fresh.len(),
        skip <= kept_from,
        0 <= trail <= fresh.len() - skip,
        trail <= kept_from - skip,
        all == old.take(head + skip) + fresh.subrange(skip, fresh.len() - trail) + old.skip(head + kept_from - trail),
        skip < fresh.len() && skip < kept_from ==> !same_chunk(fresh[skip], old.skip(head)[skip]),
        trail < fresh.len() - skip && trail < kept_from - skip ==> !same_chunk(
            fresh[fresh.len() - 1 - trail], old.skip(head)[kept_from - 1 - trail]),
    ensures
        unchanged_around(old, all, Cover {
            head: head as usize,
            start: (head + skip) as usize,
            end: (head + fresh.len() - trail) as usize,
            removed_end: (head + kept_from - trail) as usize,
        }),
{
    let tail = old.skip(head);
    let p = fresh.len() as int;
    let start = head + skip;
    let end = head + p - trail;
    let removed_end = head + kept_from - trail;
    let cover = Cover {
        head: head as usize,
        start: start as usize,
        end: end as usize,
        removed_end: removed_end as usize,
    };
    assert(cover.start == start && cover.end == end && cover.removed_end == removed_end);
    assert forall|k: int| 0 <= k < cover.start implies #[trigger] same_chunk(all[k], old[k]) by {
        assert(all[k] == old[k]);
    }
    assert forall|k: int| 0 <= k < all.len() - cover.end implies #[trigger] same_chunk(all[cover.end + k], old[cover.removed_end + k]) by {
        assert(all[end + k] == old[removed_end + k]);
    }
    if start < end && start < removed_end {
        assert(all[start] == fresh[skip]);
        assert(old[start] == tail[skip]);
        assert(all[end - 1] == fresh[p - 1 - trail]);
        assert(old[removed_end - 1] == tail[kept_from - 1 - trail]);
    }
}

/// The old chunks with the fresh ones written over the cover of a rescan
/// hold, chunk by chunk, the same rules, spans and texts as the chunks
/// before `head`, the fresh chunks, and the old chunks from `kept_from` on:
/// so they cut the same text into the same tokens.
proof fn lemma_same_view(all: Seq<Chunk>, joined: Seq<Chunk>, head: int, fresh: Seq<Chunk>, tail: Seq<Chunk>, kept_from: int, skip: int, trail: int)
    requires
        0 <= head,
        0 <= kept_from <= tail.len(),
        0 <= skip <= fresh.len(),
        skip <= kept_from,
        0 <= trail <= fresh.len() - skip,
        trail <= kept_from - skip,
        forall|k: int| 0 <= k < skip ==> #[trigger] same_chunk(fresh[k], tail[k]),
        forall|k: int| 0 <= k < trail ==> #[trigger] same_chunk(fresh[fresh.len() - 1 - k], tail[kept_from - 1 - k]),
        ({
            let old = joined.take(head) + tail;
            &&& joined == joined.take(head) + fresh + tail.skip(kept_from)
            &&& head <= joined.len()
            &&& all == old.take(head + skip) + fresh.subrange(skip, fresh.len() - trail) + old.skip(head + kept_from - trail)
        }),
    ensures
        all.len() == joined.len(),
        forall|i: int| 0 <= i < all.len() ==> #[trigger] same_chunk(all[i], joined[i]),
        shape(all) == shape(joined),
        chunks_text(all) == chunks_text(joined),
{
    let p = fresh.len() as int;
    let old = joined.take(head) + tail;
    assert forall|i: int| 0 <= i < all.len() implies #[trigger] same_chunk(all[i], joined[i]) by {
        if i < head {
            assert(all[i] == old[i]);
            assert(old[i] == joined[i]);
        } else if i < head + skip {
            assert(all[i] == tail[i - head]);
            assert(joined[i] == fresh[i - head]);
            assert(same_chunk(fresh[i - head], tail[i - head]));
        } else if i < head + p - trail {
            assert(all[i] == fresh[i - head]);
            assert(joined[i] == fresh[i - head]);
        } else if i < head + p {
            let d = head + p - 1 - i;
            assert(all[i] == tail[kept_from - 1 - d]);
            assert(joined[i] == fresh[p - 1 - d]);
            assert(same_chunk(fresh[p - 1 - d], tail[kept_from - 1 - d]));
        } else {
            assert(all[i] == tail[kept_from + i - head - p]);
            assert(joined[i] == tail[kept_from + i - head - p]);
        }
    }
    assert(all.len() == joined.len());
    assert forall|i: int| 0 <= i < all.len() implies #[trigger] shape(all)[i] == shape(joined)[i] by {
        assert(same_chunk(all[i], joined[i]));
    }
    assert(shape(all) =~= shape(joined));
    lemma_same_text(all, joined);
}

/// Chunks that hold, one by one, the same texts have the same text.
proof fn lemma_same_text(a: Seq<Chunk>, b: Seq<Chunk>)
    requires
        a.len() == b.len(),
        forall|i: int| 0 <= i < a.len() ==> #[trigger] same_chunk(a[i], b[i]),
    ensures
        chunks_text(a) == chunks_text(b),
    decreases a.len(),
{
    if a.len() > 0 {
        assert forall|i: int| 0 <= i < a.len() - 1 implies #[trigger] same_chunk(a.drop_last()[i], b.drop_last()[i]) by {
            assert(same_chunk(a[i], b[i]));
        }
        lemma_same_text(a.drop_last(), b.drop_last());
        assert(same_chunk(a[a.len() - 1], b[b.len() - 1]));
    }
}

/// The start of a rescan from the chunk `head`: the chunks before it keep
/// their tokens in a scan of the edited text, and the chunks from it on are
/// the scan of their text.
proof fn lemma_rescan_start<T: Token>(old: Seq<Chunk>, head: int, site: int, from: int, to: int, text: Seq<char>)
    requires
        is_chunking(old, chunks_text(old)),
        shape(old) == lex::<T>(chunks_text(old)),
        0 <= head <= old.len(),
        spans_sum(old.take(head)) <= site,
        site == lookback_site(from, T::spec_lookback() as nat),
        head > 0 ==> old[head - 1].token != MISMATCH || (head < old.len() && old[head].token == MISMATCH),
        0 <= from <= to <= chunks_text(old).len(),
    ensures
        ({
            let t = chunks_text(old);
            let prefix = old.take(head);
            let tail = old.skip(head);
            let edited = t.subrange(0, from) + text + t.subrange(to, t.len() as int);
            &&& chunks_text(prefix).len() == spans_sum(prefix)
            &&& t == chunks_text(prefix) + chunks_text(tail)
            &&& lex::<T>(chunks_text(tail)) == shape(tail)
            &&& lex::<T>(edited) == shape(prefix) + lex::<T>(edited.skip(spans_sum(prefix) as int))
            &&& spans_sum(tail) == chunks_text(tail).len()
            &&& forall|i: int| 0 <= i < tail.len() ==> #[trigger] tail[i].span == tail[i].string@.len() && tail[i].span > 0
            &&& spans_sum(prefix) <= from
            &&& prefix.len() <= spans_sum(prefix)
            &&& forall|i: int| 0 <= i < prefix.len() ==> #[trigger] prefix[i].span == prefix[i].string@.len() && prefix[i].span > 0
        }),
{
    let t = chunks_text(old);
    let n = old.len() as int;
    let prefix = old.take(head);
    let tail = old.skip(head);
    let whole = lex::<T>(t);
    let head_site = spans_sum(prefix);
    let edited = t.subrange(0, from) + text + t.subrange(to, t.len() as int);
    assert(prefix =~= old.subrange(0, head));
    assert(tail =~= old.subrange(head, n));
    assert(old =~= prefix + tail);
    lemma_chunks_text_concat(prefix, tail);
    lemma_chunking_part(old, 0, head);
    lemma_chunking_part(old, head, n);
    lemma_shape_concat(prefix, tail);
    assert(whole.take(head) =~= shape(prefix));
    lemma_shape_spans(prefix);
    lemma_lex_split::<T>(t, head);
    assert(whole.skip(head) =~= shape(tail));
    assert(t.skip(head_site as int) =~= chunks_text(tail));
    assert forall|i: int| 0 <= i < tail.len() implies #[trigger] tail[i].span == tail[i].string@.len() && tail[i].span > 0 by {
        assert(tail[i] == old.subrange(head, n)[i]);
    }
    assert forall|i: int| 0 <= i < prefix.len() implies #[trigger] prefix[i].span == prefix[i].string@.len() && prefix[i].span > 0 by {
        assert(prefix[i] == old.subrange(0, head)[i]);
    }
    if head > 0 {
        assert(whole[head - 1].0 == old[head - 1].token);
        if old[head - 1].token == MISMATCH {
            assert(whole[head].0 == old[head].token);
            lemma_no_two_mismatches::<T>(t, head - 1);
        }
        assert(head_site >= head);
    }
    assert(t.take(from) =~= edited.take(from));
    lemma_lex_prefix::<T>(t, edited, from, head);
}

/// The chunks of a rescanned tail from `kept_from` on are the scan of
/// their text, which is the text of the tail from their first character.
proof fn lemma_rescan_end<T: Token>(tail: Seq<Chunk>, kept_from: int)
    requires
        0 <= kept_from <= tail.len(),
        lex::<T>(chunks_text(tail)) == shape(tail),
        forall|i: int| 0 <= i < tail.len() ==> #[trigger] tail[i].span == tail[i].string@.len() && tail[i].span > 0,
    ensures
        ({
            let ow = chunks_text(tail);
            let cj = spans_sum(tail.take(kept_from));
            &&& chunks_text(tail.skip(kept_from)) == ow.skip(cj as int)
            &&& lex::<T>(ow.skip(cj as int)) == shape(tail.skip(kept_from))
        }),
{
    let ow = chunks_text(tail);
    let front = tail.take(kept_from);
    let kept = tail.skip(kept_from);
    let cj = spans_sum(front);
    lemma_shape_spans(front);
    assert(shape(tail).take(kept_from) =~= shape(front));
    lemma_lex_split::<T>(ow, kept_from);
    lemma_shape_concat(front, kept);
    assert(tail =~= front + kept);
    assert(lex::<T>(ow).skip(kept_from) =~= lex::<T>(ow.skip(cj as int)));
    assert(shape(tail).skip(kept_from) =~= shape(kept));
    lemma_chunks_text_concat(front, kept);
    lemma_chunking_part(tail, 0, kept_from);
    assert(tail.subrange(0, kept_from) =~= front);
}

/// The numbers of leading and of trailing chunks on which `product` and
/// the first `kept_from` chunks of `old_tail` agree, the trailing ones
/// counted among those the leading ones leave.
fn common_ends(product: &Vec<Chunk>, old_tail: &Vec<Chunk>, kept_from: usize) -> (result: (usize, usize))
    requires
        kept_from <= old_tail@.len(),
    ensures
        ({
            let (skip, trail) = result;
            let p = product@.len() as int;
            &&& skip <= p
            &&& skip <= kept_from
            &&& trail <= p - skip
            &&& trail <= kept_from - skip
            &&& forall|k: int| 0 <= k < skip ==> #[trigger] same_chunk(product@[k], old_tail@[k])
            &&& forall|k: int| 0 <= k < trail ==> #[trigger] same_chunk(product@[p - 1 - k], old_tail@[kept_from - 1 - k])
            &&& skip < p && skip < kept_from ==> !same_chunk(product@[skip as int], old_tail@[skip as int])
            &&& trail < p - skip && trail < kept_from - skip ==> !same_chunk(
                product@[p - 1 - trail], old_tail@[kept_from - 1 - trail])
        }),
{
    let p = product.len();
    let mut skip: usize = 0;
    while skip < p && skip < kept_from && same_chunks(&product[skip], &old_tail[skip])
        invariant
            p == product@.len(),
            kept_from <= old_tail@.len(),
            skip <= p,
            skip <= kept_from,
            forall|k: int| 0 <= k < skip ==> #[trigger] same_chunk(product@[k], old_tail@[k]),
        decreases p - skip,
    {
        skip = skip + 1;
    }
    let mut trail: usize = 0;
    while trail < p - skip && trail < kept_from - skip && same_chunks(&product[p - 1 - trail], &old_tail[kept_from - 1 - trail])
        invariant
            p == product@.len(),
            kept_from <= old_tail@.len(),
            skip <= p,
            skip <= kept_from,
            trail <= p - skip,
            trail <= kept_from - skip,
            forall|k: int| 0 <= k < trail ==> #[trigger] same_chunk(product@[p - 1 - k], old_tail@[kept_from - 1 - k]),
        decreases p - skip - trail,
    {
        trail = trail + 1;
    }
    (skip, trail)
}

/// Chunks that cut the first `stop` characters of `text` into the first
/// tokens of its scan, followed by chunks that cut the rest into the scan
/// of the rest, cut the whole text into its scan.
proof fn lemma_joined_chunks<T: Token>(front: Seq<Chunk>, back: Seq<Chunk>, text: Seq<char>, stop: int)
    requires
        0 <= stop <= text.len(),
        is_chunking(front, text.take(stop)),
        forall|i: int| 0 <= i < back.len() ==> #[trigger] back[i].span == back[i].string@.len() && back[i].span > 0,
        chunks_text(back) == text.skip(stop),
        lex::<T>(text) == shape(front) + lex::<T>(text.skip(stop)),
        lex::<T>(text.skip(stop)) == shape(back),
    ensures
        is_chunking(front + back, text),
        shape(front + back) == lex::<T>(text),
{
    let all = front + back;
    lemma_chunks_text_concat(front, back);
    lemma_shape_concat(front, back);
    assert(text =~= text.take(stop) + text.skip(stop));
    assert forall|i: int| 0 <= i < all.len() implies #[trigger] all[i].span == all[i].string@.len() && all[i].span > 0 by {
        if i < front.len() {
            assert(all[i] == front[i]);
        } else {
            assert(all[i] == back[i - front.len()]);
        }
    }
}

/// Rescans the text of the chunks `old_tail` with the characters `a..b`
/// replaced by `text`: token by token from the start, until a token ends,
/// at or after the edit, where an old chunk began. Returns the fresh chunks,
/// the index of the old chunk from which the old chunks are kept, and the
/// number of characters of the rescanned text.
fn rescan<T: Token>(old_tail: &Vec<Chunk>, a: usize, b: usize, text: &str) -> (result: (Vec<Chunk>, usize, usize))
    requires
        lex::<T>(chunks_text(old_tail@)) == shape(old_tail@),
        forall|i: int| 0 <= i < old_tail@.len() ==> #[trigger] old_tail@[i].span == old_tail@[i].string@.len()
            && old_tail@[i].span > 0,
        a <= b <= chunks_text(old_tail@).len(),
        chunks_text(old_tail@).len() < usize::MAX,
        chunks_text(old_tail@).len() - (b - a) + text@.len() < usize::MAX,
    ensures
        ({
            let ow = chunks_text(old_tail@);
            let input = ow.subrange(0, a as int) + text@ + ow.subrange(b as int, ow.len() as int);
            let joined = result.0@ + old_tail@.skip(result.1 as int);
            &&& result.1 <= old_tail@.len()
            &&& is_chunking(joined, input)
            &&& shape(joined) == lex::<T>(input)
            &&& spans_positive(result.0@)
            &&& result.2 == input.len()
        }),
{
    let ghost tail = old_tail@;
    let ghost ow = chunks_text(tail);
    proof {
        lemma_chunks_text_len(tail);
    }
    let tail_text = join_strings(old_tail);
    let tail_len = tail_text.as_str().unicode_len();
    let tail_str = tail_text.as_str();
    let mut input = String::from_str(tail_str.substring_char(0, a));
    input.append(text);
    input.append(tail_str.substring_char(b, tail_len));
    let text_len = text.unicode_len();
    assert(input@ =~= ow.subrange(0, a as int) + text@ + ow.subrange(b as int, ow.len() as int));
    let chars = chars_of(input.as_str());
    let (j0, targets) = tail_targets(old_tail, a, b, text_len, Ghost(input@.len() as int));
    let (product, stop, index) = run::<T>(&chars, input.as_str(), a + text_len, &targets);
    let kept_from = j0 + index;
    let ghost fresh = product@;
    let ghost kept = tail.skip(kept_from as int);
    let ghost cj = spans_sum(tail.take(kept_from as int));
    proof {
        assert(targets@[index as int] + b == cj + a + text_len);
        assert(input@.skip(stop as int) =~= ow.skip(cj as int));
        lemma_rescan_end::<T>(tail, kept_from as int);
        assert forall|i: int| 0 <= i < kept.len() implies #[trigger] kept[i].span == kept[i].string@.len()
            && kept[i].span > 0 by {
            assert(kept[i] == tail[kept_from + i]);
        }
        lemma_joined_chunks::<T>(fresh, kept, input@, stop as int);
    }
    let input_len = input.unicode_len();
    (product, kept_from, input_len)
}

impl<T: Token, N: Grammar> MutableUnit<T, N> {
    /// The chunk a rescan for an edit at `from` starts from: the chunk that
    /// holds the site [Token::lookback] characters before `from`, or the
    /// one before it when that one is a mismatch. Returns its index, its
    /// first character, and copies of the chunks from it on.
    fn rescan_head(&self, from: usize) -> (result: (usize, usize, Vec<Chunk>))
        requires
            self.lexis_wf(),
            from <= self.spec_text().len(),
        ensures
            result.0 <= self.chunks().len(),
            result.1 == spans_sum(self.chunks().take(result.0 as int)),
            result.1 <= lookback_site(from as int, T::spec_lookback() as nat),
            result.2@ == self.chunks().skip(result.0 as int),
            result.0 > 0 ==> self.chunks()[result.0 - 1].token != MISMATCH || (result.0 < self.chunks().len()
                && self.chunks()[result.0 as int].token == MISMATCH),
    {
        let ghost old_chunks = self.tree.chunks();
        proof {
            lemma_chunks_text_len(old_chunks);
        }
        let lookback = T::lookback();
        let site = if from >= lookback {
            from - lookback
        } else {
            0
        };
        let (head, head_site) = match self.tree.lookup(site) {
            Some((index, offset)) => (index, site - offset),
            None => {
                let count = self.tree.len();
                assert(old_chunks.take(count as int) =~= old_chunks);
                (count, self.length)
            },
        };
        let mut copies = self.tree.copy_chunks();
        let mut old_tail = copies.split_off(head);
        let mut head = head;
        let mut head_site = head_site;
        if head > 0 && copies[head - 1].token == MISMATCH {
            let ghost h0 = head as int;
            let last = copies.pop().unwrap();
            proof {
                assert(old_chunks.take(h0).drop_last() =~= old_chunks.take(h0 - 1));
                assert(old_chunks.take(h0).last() == old_chunks[h0 - 1]);
            }
            head_site = head_site - last.span;
            head = head - 1;
            old_tail.insert(0, last);
        }
        proof {
            assert(old_tail@ =~= old_chunks.skip(head as int));
        }
        (head, head_site, old_tail)
    }
}

impl<T: Token, N: Grammar> MutableUnit<T, N> {
    /// Rescans the text around an edit and rewrites the chunks from there:
    /// from the chunk that holds the site [Token::lookback] characters
    /// before `from` (or the one before it, when that one is a mismatch),
    /// the edited text is scanned token by token until a token ends, at or
    /// after the edit, where an old chunk began; the old chunks from there
    /// on are kept. The leading and trailing chunks that the scan gave back
    /// unchanged are reported outside the cover.
    #[verifier::rlimit(100)]
    #[verifier::spinoff_prover]
    fn update_lexis(&mut self, from: usize, to: usize, text: &str) -> (cover: Cover)
        requires
            old(self).lexis_wf(),
            from <= to <= old(self).spec_text().len(),
            old(self).spec_text().len() - (to - from) + text@.len() < usize::MAX,
        ensures
            final(self).lexis_wf(),
            final(self).spec_text() == old(self).spec_text().subrange(0, from as int) + text@
                + old(self).spec_text().subrange(to as int, old(self).spec_text().len() as int),
            relexed::<T>(old(self).chunks(), final(self).chunks(), cover, from as int, to as int, text@),
            final(self).syntax() == old(self).syntax(),
            final(self).spec_next_id() == old(self).spec_next_id(),
            final(self).spec_id() == old(self).spec_id(),
    {
        let ghost old_chunks = self.tree.chunks();
        let ghost old_text = chunks_text(old_chunks);
        let ghost n = old_chunks.len();
        let ghost lb = T::spec_lookback() as int;
        proof {
            lemma_chunks_text_len(old_chunks);
        }
        let (head, head_site, old_tail) = self.rescan_head(from);
        let ghost site = lookback_site(from as int, T::spec_lookback() as nat);
        let ghost prefix = old_chunks.take(head as int);
        let ghost tail = old_tail@;
        let ghost edited = old_text.subrange(0, from as int) + text@ + old_text.subrange(to as int, old_text.len() as int);
        proof {
            lemma_rescan_start::<T>(old_chunks, head as int, site as int, from as int, to as int, text@);
        }
        let a = from - head_site;
        let b = to - head_site;
        let ghost ow = chunks_text(tail);
        proof {
            lemma_chunking_part(tail, 0, tail.len() as int);
            assert(tail.subrange(0, tail.len() as int) =~= tail);
            assert(edited.skip(head_site as int) =~= ow.subrange(0, a as int) + text@ + ow.subrange(b as int, ow.len() as int));
        }
        let (product, kept_from, input_len) = rescan::<T>(&old_tail, a, b, text);
        let p = product.len();
        let (skip, trail) = common_ends(&product, &old_tail, kept_from);
        let ghost fresh = product@;
        let ghost kept = tail.skip(kept_from as int);
        let ghost rest_seq = fresh + kept;
        proof {
            lemma_chunks_text_len(rest_seq);
            assert(chunks_text(prefix) =~= edited.take(head_site as int));
            lemma_chunking_part(old_chunks, 0, head as int);
            assert(old_chunks.subrange(0, head as int) =~= prefix);
            lemma_joined_chunks::<T>(prefix, rest_seq, edited, head_site as int);
            lemma_chunks_text_len(prefix + rest_seq);
            assert((prefix + rest_seq).take(head as int) =~= prefix);
            assert(prefix + tail =~= old_chunks);
            assert(prefix + rest_seq =~= prefix + fresh + kept);
        }
        let mut replaced = product;
        let _same_tail = replaced.split_off(p - trail);
        let replaced = replaced.split_off(skip);
        proof {
            assert(replaced@ =~= fresh.subrange(skip as int, p - trail));
            assert(spans_positive(replaced@)) by {
                assert forall|i: int| 0 <= i < replaced@.len() implies #[trigger] replaced@[i].span > 0 by {
                    assert(replaced@[i] == fresh[skip + i]);
                }
            }
        }
        self.tree.write(head + skip, head + kept_from - trail, replaced);
        self.length = head_site + input_len;
        proof {
            let all = self.tree.chunks();
            assert(all =~= old_chunks.take(head + skip) + fresh.subrange(skip as int, p - trail) + old_chunks.skip(
                head + kept_from - trail,
            ));
            let joined = prefix + rest_seq;
            lemma_same_view(all, joined, head as int, fresh, tail, kept_from as int, skip as int, trail as int);
            assert forall|i: int| 0 <= i < all.len() implies #[trigger] all[i].span == all[i].string@.len()
                && all[i].span > 0 by {
                assert(same_chunk(all[i], joined[i]));
            }
            assert(chunks_text(all) == edited);
            assert(shape(all) == lex::<T>(edited));
            assert(edited.len() == head_site + input_len) by {
                assert(edited =~= edited.take(head_site as int) + edited.skip(head_site as int));
            }
            lemma_cover(old_chunks, all, head as int, fresh, kept_from as int, skip as int, trail as int);
        }
        Cover { head, start: head + skip, end: head + p - trail, removed_end: head + kept_from - trail }
    }
}

impl<T: Token, N: Grammar> MutableUnit<T, N> {
    /// Reparses the tokens after the chunks `old_chunks` became the current
    /// chunks as `cover` says: the top rule is parsed again from the first
    /// token to the end, reusing every old cluster that can stand for a
    /// parse (see [reusable]) with its node identifier; the nodes parsed
    /// anew get fresh identifiers and are reported to `watcher`.
    fn update_syntax<W: Watcher>(&mut self, watcher: &mut W, cover: Cover, Ghost(old_chunks): Ghost<Seq<Chunk>>)
        requires
            old(self).lexis_wf(),
            is_parse::<N>(rules_of(old_chunks), old(self).syntax()),
            forall|k: int| 0 <= k < old(self).syntax().len() ==> #[trigger] old(self).syntax()[k].id < old(self).spec_next_id(),
            unchanged_around(old_chunks, old(self).chunks(), cover),
            old_chunks.len() < usize::MAX,
            old(self).spec_next_id() + old(self).chunks().len() < usize::MAX,
        ensures
            final(self).wf(),
            final(self).chunks() == old(self).chunks(),
            final(self).spec_text() == old(self).spec_text(),
            final(self).spec_id() == old(self).spec_id(),
            forall|k: int, j: int|
                0 <= k < final(self).syntax().len() && 0 <= j < old(self).syntax().len() && #[trigger] reusable(
                    old(self).syntax()[j], ROOT_RULE, #[trigger] final(self).syntax()[k].start as int,
                    cover.start as int, cover.end as int, cover.removed_end as int)
                    ==> final(self).syntax()[k].id == old(self).syntax()[j].id,
    {
        let tokens = self.tree.rules();
        let ghost new_chunks = self.tree.chunks();
        let ghost old_tokens = rules_of(old_chunks);
        proof {
            assert forall|k: int| 0 <= k < cover.start implies #[trigger] tokens@[k] == old_tokens[k] by {
                assert(same_chunk(new_chunks[k], old_chunks[k]));
            }
            assert forall|k: int| 0 <= k < tokens@.len() - cover.end implies #[trigger] tokens@[cover.end + k]
                == old_tokens[cover.removed_end + k] by {
                assert(same_chunk(new_chunks[cover.end + k], old_chunks[cover.removed_end + k]));
            }
        }
        let mut old_entries: Vec<SyntaxEntry<N>> = Vec::new();
        std::mem::swap(&mut old_entries, &mut self.entries);
        let mut session = MutableSyntaxSession::<N>::new(
            old_entries,
            Ghost(old_tokens),
            Ghost(tokens@),
            cover.start,
            cover.end,
            cover.removed_end,
            self.next_id,
        );
        let ghost before_run = session;
        let ghost old_syntax = before_run.spec_old_entries();
        let entries = session.run(&tokens, self.id, watcher);
        proof {
            assert forall|k: int, j: int|
                0 <= k < entries@.len() && 0 <= j < old_syntax.len() && #[trigger] reusable(
                    old_syntax[j], ROOT_RULE, #[trigger] entries@[k].start as int,
                    cover.start as int, cover.end as int, cover.removed_end as int)
                    implies entries@[k].id == old_syntax[j].id by {
                assert(reusable(before_run.spec_old_entries()[j], ROOT_RULE, entries@[k].start as int,
                    before_run.spec_edit().0, before_run.spec_edit().1, before_run.spec_edit().2));
            }
        }
        self.entries = entries;
        self.next_id = session.next_id();
    }

    /// Replaces the characters `from..to` of the text with `text`, rescans
    /// the edited part, and reparses the tokens: the chunks from the one that
    /// holds the site [Token::lookback] characters before `from` to the end
    /// become the scan of their edited text (see [relexed]), and the syntax
    /// becomes the parse of the new tokens, in which every old cluster that
    /// can stand for a parse keeps its node identifier. The nodes parsed
    /// anew are reported to `watcher`. An empty edit of an empty span leaves
    /// the unit as it is. Returns what changed in the chunks.
    pub fn write_and_watch<W: Watcher>(&mut self, from: usize, to: usize, text: &str, watcher: &mut W) -> (cover: Cover)
        requires
            old(self).wf(),
            from <= to <= old(self).spec_text().len(),
            old(self).spec_text().len() - (to - from) + text@.len() < usize::MAX,
            old(self).spec_next_id() + (old(self).spec_text().len() - (to - from) + text@.len()) < usize::MAX,
        ensures
            final(self).wf(),
            final(self).spec_id() == old(self).spec_id(),
            final(self).spec_text() == old(self).spec_text().subrange(0, from as int) + text@
                + old(self).spec_text().subrange(to as int, old(self).spec_text().len() as int),
            is_parse::<N>(rules_of(final(self).chunks()), final(self).syntax()),
            from == to && text@.len() == 0 ==> {
                &&& final(self).chunks() == old(self).chunks()
                &&& final(self).syntax() == old(self).syntax()
                &&& cover == Cover { head: 0, start: 0, end: 0, removed_end: 0 }
            },
            !(from == to && text@.len() == 0) ==> {
                &&& relexed::<T>(old(self).chunks(), final(self).chunks(), cover, from as int, to as int, text@)
                &&& forall|k: int, j: int|
                    0 <= k < final(self).syntax().len() && 0 <= j < old(self).syntax().len() && #[trigger] reusable(
                        old(self).syntax()[j], ROOT_RULE, #[trigger] final(self).syntax()[k].start as int,
                        cover.start as int, cover.end as int, cover.removed_end as int)
                        ==> final(self).syntax()[k].id == old(self).syntax()[j].id
            },
    {
        if from == to && text.is_empty() {
            let ghost all = self.spec_text();
            assert(all.subrange(0, from as int) + text@ + all.subrange(to as int, all.len() as int) =~= all);
            return Cover { head: 0, start: 0, end: 0, removed_end: 0 };
        }
        let ghost old_chunks = self.chunks();
        proof {
            lemma_chunks_text_len(old_chunks);
        }
        let cover = self.update_lexis(from, to, text);
        proof {
            lemma_chunks_text_len(self.chunks());
        }
        self.update_syntax(watcher, cover, Ghost(old_chunks));
        cover
    }

    /// Replaces the characters `from..to` of the text with `text`, as
    /// [MutableUnit::write_and_watch] does, without reporting the nodes
    /// parsed anew.
    pub fn write(&mut self, from: usize, to: usize, text: &str) -> (cover: Cover)
        requires
            old(self).wf(),
            from <= to <= old(self).spec_text().len(),
            old(self).spec_text().len() - (to - from) + text@.len() < usize::MAX,
            old(self).spec_next_id() + (old(self).spec_text().len() - (to - from) + text@.len()) < usize::MAX,
        ensures
            final(self).wf(),
            final(self).spec_id() == old(self).spec_id(),
            final(self).spec_text() == old(self).spec_text().subrange(0, from as int) + text@
                + old(self).spec_text().subrange(to as int, old(self).spec_text().len() as int),
            is_parse::<N>(rules_of(final(self).chunks()), final(self).syntax()),
            from == to && text@.len() == 0 ==> {
                &&& final(self).chunks() == old(self).chunks()
                &&& final(self).syntax() == old(self).syntax()
                &&& cover == Cover { head: 0, start: 0, end: 0, removed_end: 0 }
            },
            !(from == to && text@.len() == 0) ==> {
                &&& relexed::<T>(old(self).chunks(), final(self).chunks(), cover, from as int, to as int, text@)
                &&& forall|k: int, j: int|
                    0 <= k < final(self).syntax().len() && 0 <= j < old(self).syntax().len() && #[trigger] reusable(
                        old(self).syntax()[j], ROOT_RULE, #[trigger] final(self).syntax()[k].start as int,
                        cover.start as int, cover.end as int, cover.removed_end as int)
                        ==> final(self).syntax()[k].id == old(self).syntax()[j].id
            },
    {
        let mut watcher = VoidWatcher;
        self.write_and_watch(from, to, text, &mut watcher)
    }
}

/// A unit is determined by its text: two well-formed units with the same
/// text (one edited by any number of writes, the other created afresh, for
/// instance) cut it into the same tokens, and hold the same syntax: their
/// clusters start at the same tokens and are the same parses.
pub proof fn law_unit_is_determined_by_text<T: Token, N: Grammar>(a: MutableUnit<T, N>, b: MutableUnit<T, N>)
    requires
        a.wf(),
        b.wf(),
        a.spec_text() == b.spec_text(),
    ensures
        shape(a.chunks()) == shape(b.chunks()),
        a.syntax().len() == b.syntax().len(),
        forall|k: int| 0 <= k < a.syntax().len() ==> #[trigger] a.syntax()[k].start == b.syntax()[k].start
            && a.syntax()[k].cluster == b.syntax()[k].cluster,
{
    let ca = a.chunks();
    let cb = b.chunks();
    assert(shape(ca) == shape(cb));
    assert(ca.len() == shape(ca).len());
    assert(rules_of(ca) =~= rules_of(cb)) by {
        assert forall|i: int| 0 <= i < ca.len() implies #[trigger] rules_of(ca)[i] == rules_of(cb)[i] by {
            assert(shape(ca)[i] == shape(cb)[i]);
        }
    }
    law_parse_is_unique::<N>(rules_of(ca), a.syntax(), b.syntax());
}

} // verus!
