use vstd::prelude::*;
use vstd::std_specs::iter::IteratorSpec;
use vstd::string::*;

use crate::lexis::token::{Token, TokenRule, MISMATCH};
use crate::units::storage::tree::{chunks_text, is_chunking, spans_sum, Chunk};

verus! {

broadcast use {vstd::string::group_string_axioms, vstd::string::next_postcondition};

/// True when the grammar recognises a token at the start of `text`.
pub open spec fn recognised<T: Token>(text: Seq<char>) -> bool {
    T::spec_token(text).1 >= 1
}

/// The number of characters of a mismatch at the start of `text`: up to the
/// next character where a token is recognised, or to the end.
pub open spec fn mismatch_len<T: Token>(text: Seq<char>) -> nat
    decreases text.len(),
{
    if text.len() <= 1 {
        text.len()
    } else if recognised::<T>(text.skip(1)) {
        1
    } else {
        1 + mismatch_len::<T>(text.skip(1))
    }
}

/// The first token of a non-empty `text`: the recognised token, or the
/// mismatch up to the next recognised one.
pub open spec fn first_token<T: Token>(text: Seq<char>) -> (TokenRule, nat) {
    if recognised::<T>(text) {
        T::spec_token(text)
    } else {
        (MISMATCH, mismatch_len::<T>(text))
    }
}

/// The tokens of `text` as rules and lengths: its first token, then the
/// tokens of the rest after it.
pub open spec fn lex<T: Token>(text: Seq<char>) -> Seq<(TokenRule, nat)>
    decreases text.len(),
{
    if text.len() == 0 {
        Seq::empty()
    } else {
        let first = first_token::<T>(text);
        if 1 <= first.1 <= text.len() {
            seq![first] + lex::<T>(text.skip(first.1 as int))
        } else {
            seq![first]
        }
    }
}

/// The rules and lengths of chunks.
pub open spec fn shape(chunks: Seq<Chunk>) -> Seq<(TokenRule, nat)> {
    Seq::new(chunks.len(), |i: int| (chunks[i].token, chunks[i].span as nat))
}

/// The number of characters of tokens given by rules and lengths.
pub open spec fn shape_sum(tokens: Seq<(TokenRule, nat)>) -> nat
    decreases tokens.len(),
{
    if tokens.len() == 0 {
        0
    } else {
        tokens[0].1 + shape_sum(tokens.skip(1))
    }
}

/// A mismatch covers at least one character and stays within the text.
pub proof fn lemma_mismatch_bounds<T: Token>(text: Seq<char>)
    requires
        text.len() > 0,
    ensures
        1 <= mismatch_len::<T>(text) <= text.len(),
    decreases text.len(),
{
    if text.len() > 1 && !recognised::<T>(text.skip(1)) {
        lemma_mismatch_bounds::<T>(text.skip(1));
    }
}

/// The first token of a non-empty text covers at least one character and
/// stays within the text; a mismatch is followed by a recognised token or
/// the end.
pub proof fn lemma_first_bounds<T: Token>(text: Seq<char>)
    requires
        text.len() > 0,
    ensures
        1 <= first_token::<T>(text).1 <= text.len(),
        first_token::<T>(text).0 == MISMATCH <==> !recognised::<T>(text),
{
    T::lemma_token_bounds(text);
    lemma_mismatch_bounds::<T>(text);
}

/// The tokens of a non-empty text are its first token and the tokens after.
pub proof fn lemma_lex_unfold<T: Token>(text: Seq<char>)
    requires
        text.len() > 0,
    ensures
        lex::<T>(text) == seq![first_token::<T>(text)] + lex::<T>(text.skip(first_token::<T>(text).1 as int)),
{
    lemma_first_bounds::<T>(text);
}

/// The tokens of a text cover it.
pub proof fn lemma_lex_sum<T: Token>(text: Seq<char>)
    ensures
        shape_sum(lex::<T>(text)) == text.len(),
        forall|i: int| 0 <= i < lex::<T>(text).len() ==> #[trigger] lex::<T>(text)[i].1 >= 1,
    decreases text.len(),
{
    if text.len() > 0 {
        lemma_lex_unfold::<T>(text);
        let first = first_token::<T>(text);
        let rest = text.skip(first.1 as int);
        lemma_lex_sum::<T>(rest);
        lemma_first_bounds::<T>(text);
        let all = lex::<T>(text);
        assert(all.skip(1) =~= lex::<T>(rest));
        assert(shape_sum(all) == all[0].1 + shape_sum(all.skip(1)));
        assert forall|i: int| 0 <= i < all.len() implies #[trigger] all[i].1 >= 1 by {
            if i > 0 {
                assert(all[i] == lex::<T>(rest)[i - 1]);
            }
        }
    }
}

/// The tokens of a text after its first `k` tokens are the tokens of the
/// text after the characters they cover.
pub proof fn lemma_lex_split<T: Token>(text: Seq<char>, k: int)
    requires
        0 <= k <= lex::<T>(text).len(),
    ensures
        shape_sum(lex::<T>(text).take(k)) <= text.len(),
        lex::<T>(text) == lex::<T>(text).take(k) + lex::<T>(text.skip(shape_sum(lex::<T>(text).take(k)) as int)),
    decreases k,
{
    let all = lex::<T>(text);
    if k == 0 {
        assert(all.take(0) =~= Seq::<(TokenRule, nat)>::empty());
        assert(text.skip(0) =~= text);
        assert(all =~= all.take(0) + all);
    } else {
        lemma_lex_unfold::<T>(text);
        lemma_first_bounds::<T>(text);
        let first = first_token::<T>(text);
        let rest = text.skip(first.1 as int);
        let tail = lex::<T>(rest);
        assert(all =~= seq![first] + tail);
        lemma_lex_split::<T>(rest, k - 1);
        let part = tail.take(k - 1);
        assert(all.take(k) =~= seq![first] + part);
        assert((seq![first] + part).skip(1) =~= part);
        assert(shape_sum(all.take(k)) == first.1 + shape_sum(part));
        assert(rest.skip(shape_sum(part) as int) =~= text.skip(shape_sum(all.take(k)) as int));
        assert(all =~= all.take(k) + lex::<T>(text.skip(shape_sum(all.take(k)) as int)));
    }
}

/// A mismatch at the start of a text covers the characters up to the next
/// recognised token: no token is recognised inside it, and one is
/// recognised right after it unless it reaches the end.
pub proof fn lemma_mismatch_facts<T: Token>(text: Seq<char>)
    requires
        text.len() > 0,
    ensures
        forall|d: int| 1 <= d < mismatch_len::<T>(text) ==> !#[trigger] recognised::<T>(text.skip(d)),
        mismatch_len::<T>(text) == text.len() || recognised::<T>(text.skip(mismatch_len::<T>(text) as int)),
    decreases text.len(),
{
    lemma_mismatch_bounds::<T>(text);
    if text.len() > 1 && !recognised::<T>(text.skip(1)) {
        let rest = text.skip(1);
        lemma_mismatch_facts::<T>(rest);
        assert forall|d: int| 1 <= d < mismatch_len::<T>(text) implies !#[trigger] recognised::<T>(text.skip(d)) by {
            if d > 1 {
                assert(rest.skip(d - 1) =~= text.skip(d));
            }
        }
        assert(rest.skip(mismatch_len::<T>(rest) as int) =~= text.skip(mismatch_len::<T>(text) as int));
    }
}

/// A mismatch ends exactly at the first later character where a token is
/// recognised, or at the end.
pub proof fn lemma_mismatch_exact<T: Token>(text: Seq<char>, m: int)
    requires
        1 <= m <= text.len(),
        forall|d: int| 1 <= d < m ==> !#[trigger] recognised::<T>(text.skip(d)),
        m == text.len() || recognised::<T>(text.skip(m)),
    ensures
        mismatch_len::<T>(text) == m,
    decreases m,
{
    if m > 1 {
        let rest = text.skip(1);
        assert(!recognised::<T>(text.skip(1)));
        assert forall|d: int| 1 <= d < m - 1 implies !#[trigger] recognised::<T>(rest.skip(d)) by {
            assert(rest.skip(d) =~= text.skip(d + 1));
        }
        assert(rest.skip(m - 1) =~= text.skip(m));
        lemma_mismatch_exact::<T>(rest, m - 1);
    } else if text.len() > 1 {
        assert(recognised::<T>(text.skip(1)));
    }
}

/// Two texts that agree on their first `f` characters agree on the `n`
/// characters from `d` when those lie within them.
pub proof fn lemma_take_shift(t: Seq<char>, u: Seq<char>, f: int, d: int, n: int)
    requires
        0 <= f <= t.len(),
        f <= u.len(),
        t.take(f) == u.take(f),
        0 <= d,
        0 <= n,
        d + n <= f,
    ensures
        t.skip(d).take(n) == u.skip(d).take(n),
{
    assert forall|i: int| 0 <= i < n implies #[trigger] t.skip(d).take(n)[i] == u.skip(d).take(n)[i] by {
        assert(t.skip(d).take(n)[i] == t[d + i]);
        assert(u.skip(d).take(n)[i] == u[d + i]);
        assert(t.take(f)[d + i] == t[d + i]);
        assert(u.take(f)[d + i] == u[d + i]);
        assert(t.take(f)[d + i] == u.take(f)[d + i]);
    }
    assert(t.skip(d).take(n) =~= u.skip(d).take(n));
}

/// The first token of a text is the same in another text that agrees with
/// it on its first `f` characters, when recognising it (and, for a
/// mismatch, the token right after it) looks at no character from `f` on.
pub proof fn lemma_first_same<T: Token>(t: Seq<char>, u: Seq<char>, f: int)
    requires
        t.len() > 0,
        0 <= f <= t.len(),
        f <= u.len(),
        t.take(f) == u.take(f),
        recognised::<T>(t) ==> T::spec_token(t).1 + T::spec_lookback() <= f,
        !recognised::<T>(t) ==> {
            let m = mismatch_len::<T>(t);
            &&& m < t.len()
            &&& m + T::spec_token(t.skip(m as int)).1 + T::spec_lookback() <= f
        },
    ensures
        first_token::<T>(u) == first_token::<T>(t),
{
    let lb = T::spec_lookback() as int;
    if recognised::<T>(t) {
        let n = T::spec_token(t).1 as int + lb;
        lemma_take_shift(t, u, f, 0, n);
        assert(t.skip(0) =~= t);
        assert(u.skip(0) =~= u);
        T::lemma_token_reads(t, u);
    } else {
        let m = mismatch_len::<T>(t) as int;
        lemma_mismatch_facts::<T>(t);
        lemma_mismatch_bounds::<T>(t);
        let next = T::spec_token(t.skip(m)).1 as int;
        assert(recognised::<T>(t.skip(m)));
        assert forall|d: int| 0 <= d < m implies !#[trigger] recognised::<T>(u.skip(d)) by {
            let td = t.skip(d);
            let ud = u.skip(d);
            assert(!recognised::<T>(td)) by {
                if d == 0 {
                    assert(td =~= t);
                }
            }
            lemma_take_shift(t, u, f, d, lb);
            T::lemma_token_reads(td, ud);
        }
        lemma_take_shift(t, u, f, m, next + lb);
        T::lemma_token_reads(t.skip(m), u.skip(m));
        assert(!recognised::<T>(u)) by {
            assert(u.skip(0) =~= u);
        }
        assert forall|d: int| 1 <= d < m implies !#[trigger] recognised::<T>(u.skip(d)) by {}
        lemma_mismatch_exact::<T>(u, m);
    }
}

/// The characters of the first tokens of a text, and of one more of them.
pub proof fn lemma_shape_sum_take(tokens: Seq<(TokenRule, nat)>, k: int)
    requires
        0 < k <= tokens.len(),
    ensures
        shape_sum(tokens.take(k)) == tokens[0].1 + shape_sum(tokens.skip(1).take(k - 1)),
        shape_sum(tokens.take(k)) >= shape_sum(tokens.take(k - 1)),
    decreases k,
{
    assert(tokens.take(k).skip(1) =~= tokens.skip(1).take(k - 1));
    if k > 1 {
        lemma_shape_sum_take(tokens, k - 1);
        lemma_shape_sum_take(tokens.skip(1), k - 1);
        assert(tokens.skip(1).take(k - 1 - 1) =~= tokens.take(k - 1).skip(1));
    } else {
        assert(tokens.take(0) =~= Seq::<(TokenRule, nat)>::empty());
    }
}

/// The tokens of a text that agrees with another on its first `f`
/// characters begin with the first `k` tokens of the other, when the last
/// of them is a recognised token and they and the lookback after them end
/// by `f`.
pub proof fn lemma_lex_prefix<T: Token>(t: Seq<char>, u: Seq<char>, f: int, k: int)
    requires
        0 <= f <= t.len(),
        f <= u.len(),
        t.take(f) == u.take(f),
        0 <= k <= lex::<T>(t).len(),
        k > 0 ==> lex::<T>(t)[k - 1].0 != MISMATCH,
        k > 0 ==> shape_sum(lex::<T>(t).take(k)) + T::spec_lookback() <= f,
    ensures
        lex::<T>(u) == lex::<T>(t).take(k) + lex::<T>(u.skip(shape_sum(lex::<T>(t).take(k)) as int)),
    decreases k,
{
    let all = lex::<T>(t);
    if k == 0 {
        assert(all.take(0) =~= Seq::<(TokenRule, nat)>::empty());
        assert(u.skip(0) =~= u);
        assert(lex::<T>(u) =~= all.take(0) + lex::<T>(u));
    } else {
        lemma_lex_unfold::<T>(t);
        lemma_first_bounds::<T>(t);
        let first = first_token::<T>(t);
        let l = first.1 as int;
        let t2 = t.skip(l);
        let tail = lex::<T>(t2);
        assert(all =~= seq![first] + tail);
        assert(all[0] == first);
        lemma_shape_sum_take(all, k);
        assert(all.skip(1) =~= tail);
        let s = shape_sum(all.take(k)) as int;
        lemma_lex_sum::<T>(t2);
        // the first token of `u` is the first token of `t`
        if k >= 2 {
            lemma_shape_sum_take(all, 2);
            lemma_shape_sum_mono(all, 2, k);
        }
        if !recognised::<T>(t) {
            lemma_mismatch_facts::<T>(t);
            assert(k >= 2);
            lemma_lex_unfold::<T>(t2);
            assert(t2.len() > 0);
            assert(recognised::<T>(t.skip(l)));
            assert(all[1] == first_token::<T>(t2));
            assert(all.skip(1).take(1) =~= seq![all[1]]);
            assert(seq![all[1]].skip(1) =~= Seq::<(TokenRule, nat)>::empty());
            assert(shape_sum(seq![all[1]]) == all[1].1 + shape_sum(seq![all[1]].skip(1)));
            assert(shape_sum(all.take(2)) == l + all[1].1);
        } else {
            assert(shape_sum(all.take(1)) == l) by {
                lemma_shape_sum_take(all, 1);
                assert(all.skip(1).take(0) =~= Seq::<(TokenRule, nat)>::empty());
            }
            lemma_shape_sum_mono(all, 1, k);
        }
        lemma_first_same::<T>(t, u, f);
        // the rest, from the end of the first token
        let u2 = u.skip(l);
        assert(t2.take(f - l) =~= u2.take(f - l)) by {
            lemma_take_shift(t, u, f, l, f - l);
        }
        assert(u.len() > 0);
        lemma_lex_unfold::<T>(u);
        if k - 1 > 0 {
            assert(tail[k - 2] == all[k - 1]);
        }
        lemma_lex_prefix::<T>(t2, u2, f - l, k - 1);
        assert(all.take(k) =~= seq![first] + tail.take(k - 1));
        assert(u2.skip(shape_sum(tail.take(k - 1)) as int) =~= u.skip(s));
        assert(lex::<T>(u) =~= all.take(k) + lex::<T>(u.skip(s)));
    }
}

/// The characters of the first tokens grow with their number.
pub proof fn lemma_shape_sum_mono(tokens: Seq<(TokenRule, nat)>, j: int, k: int)
    requires
        0 <= j <= k <= tokens.len(),
    ensures
        shape_sum(tokens.take(j)) <= shape_sum(tokens.take(k)),
    decreases k - j,
{
    if j < k {
        lemma_shape_sum_take(tokens, k);
        lemma_shape_sum_mono(tokens, j, k - 1);
    }
}

/// After a mismatch comes a recognised token: no two mismatches follow
/// each other in the tokens of a text.
pub proof fn lemma_no_two_mismatches<T: Token>(text: Seq<char>, i: int)
    requires
        0 <= i,
        i + 1 < lex::<T>(text).len(),
        lex::<T>(text)[i].0 == MISMATCH,
    ensures
        lex::<T>(text)[i + 1].0 != MISMATCH,
{
    let all = lex::<T>(text);
    lemma_lex_split::<T>(text, i);
    let s = shape_sum(all.take(i)) as int;
    let rest = text.skip(s);
    let tail = lex::<T>(rest);
    assert(all =~= all.take(i) + tail);
    assert(tail.len() >= 2);
    assert(rest.len() > 0);
    lemma_lex_unfold::<T>(rest);
    lemma_first_bounds::<T>(rest);
    let first = first_token::<T>(rest);
    assert(tail[0] == all[i]);
    assert(!recognised::<T>(rest));
    lemma_mismatch_facts::<T>(rest);
    let rest2 = rest.skip(first.1 as int);
    assert(lex::<T>(rest2).len() >= 1);
    assert(rest2.len() > 0);
    assert(recognised::<T>(rest2));
    lemma_lex_unfold::<T>(rest2);
    T::lemma_token_bounds(rest2);
    assert(tail[1] == lex::<T>(rest2)[0]);
    assert(all[i + 1] == tail[1]);
}

/// The shape of a concatenation is the concatenation of the shapes.
pub proof fn lemma_shape_concat(a: Seq<Chunk>, b: Seq<Chunk>)
    ensures
        shape(a + b) == shape(a) + shape(b),
{
    assert(shape(a + b) =~= shape(a) + shape(b));
}

/// The characters of tokens one after another.
pub proof fn lemma_shape_sum_concat(a: Seq<(TokenRule, nat)>, b: Seq<(TokenRule, nat)>)
    ensures
        shape_sum(a + b) == shape_sum(a) + shape_sum(b),
    decreases a.len(),
{
    if a.len() > 0 {
        assert((a + b).skip(1) =~= a.skip(1) + b);
        lemma_shape_sum_concat(a.skip(1), b);
    } else {
        assert(a + b =~= b);
    }
}

/// The characters that the shape of chunks sums up are their spans.
pub proof fn lemma_shape_spans(chunks: Seq<Chunk>)
    ensures
        shape_sum(shape(chunks)) == spans_sum(chunks),
    decreases chunks.len(),
{
    if chunks.len() > 0 {
        let init = chunks.drop_last();
        lemma_shape_spans(init);
        assert(chunks =~= init + seq![chunks.last()]);
        lemma_shape_concat(init, seq![chunks.last()]);
        lemma_shape_sum_concat(shape(init), shape(seq![chunks.last()]));
        let one = shape(seq![chunks.last()]);
        assert(one.skip(1) =~= Seq::<(TokenRule, nat)>::empty());
        assert(one[0].1 == chunks.last().span);
        assert(shape_sum(one) == one[0].1 + shape_sum(one.skip(1)));
        assert(shape_sum(one.skip(1)) == 0);
        assert(shape(chunks) == shape(init) + one);
    } else {
        assert(shape(chunks) =~= Seq::<(TokenRule, nat)>::empty());
    }
}

/// The characters of `text`, one after another.
pub fn chars_of(text: &str) -> (result: Vec<char>)
    ensures
        result@ == text@,
{
    let mut result: Vec<char> = Vec::new();
    let mut iter = text.chars();
    let ghost all = text@;
    loop
        invariant
            iter.obeys_prophetic_iter_laws(),
            all == text@,
            result@ + iter.remaining() == all,
            iter.decrease() is Some,
        ensures
            result@ == all,
        decreases iter.decrease()->0,
    {
        let ghost before = iter.remaining();
        match iter.next() {
            Some(c) => {
                result.push(c);
                assert(result@ + iter.remaining() =~= all);
            },
            None => {
                assert(result@ =~= all);
                break;
            },
        }
    }
    result
}

/// Recognises the token at the character `pos` of `chars`: the grammar's
/// token, or the mismatch up to the next character where the grammar
/// recognises one.
fn next_token<T: Token>(chars: &Vec<char>, pos: usize) -> (result: (TokenRule, usize))
    requires
        pos < chars@.len(),
    ensures
        result.0 == first_token::<T>(chars@.skip(pos as int)).0,
        result.1 == first_token::<T>(chars@.skip(pos as int)).1,
        1 <= result.1 <= chars@.len() - pos,
{
    let ghost s = chars@.skip(pos as int);
    proof {
        lemma_first_bounds::<T>(s);
    }
    let (rule, len) = T::parse(chars, pos);
    if len >= 1 {
        return (rule, len);
    }
    let n = chars.len();
    let mut m: usize = 1;
    while pos + m < n && T::parse(chars, pos + m).1 == 0
        invariant
            1 <= m,
            pos + m <= n,
            n == chars@.len(),
            pos < n,
            s == chars@.skip(pos as int),
            forall|d: int| 1 <= d < m ==> !#[trigger] recognised::<T>(s.skip(d)),
        decreases n - pos - m,
    {
        proof {
            assert(s.skip(m as int) =~= chars@.skip(pos + m));
        }
        m = m + 1;
    }
    proof {
        assert(s.skip(m as int) =~= chars@.skip(pos + m));
        lemma_mismatch_exact::<T>(s, m as int);
    }
    (MISMATCH, m)
}

/// Scans `chars` (the characters of `text`) token by token from the first
/// one, and stops at the first token boundary from `sync_from` on that is
/// one of `targets` (the last of which is the end of the text). Returns the
/// chunks scanned, the boundary it stopped at, and the index of that
/// boundary among the targets.
pub fn run<T: Token>(chars: &Vec<char>, text: &str, sync_from: usize, targets: &Vec<usize>) -> (result: (
    Vec<Chunk>,
    usize,
    usize,
))
    requires
        chars@ == text@,
        sync_from <= chars@.len(),
        targets@.len() > 0,
        targets@.last() == chars@.len(),
        forall|i: int, j: int| 0 <= i < j < targets@.len() ==> targets@[i] < targets@[j],
        forall|i: int| 0 <= i < targets@.len() ==> sync_from <= #[trigger] targets@[i],
    ensures
        result.2 < targets@.len(),
        targets@[result.2 as int] == result.1,
        result.1 <= chars@.len(),
        is_chunking(result.0@, chars@.take(result.1 as int)),
        lex::<T>(chars@) == shape(result.0@) + lex::<T>(chars@.skip(result.1 as int)),
{
    let n = chars.len();
    let mut pos: usize = 0;
    let mut q: usize = 0;
    let mut product: Vec<Chunk> = Vec::new();
    let mut stopped = false;
    proof {
        assert(chars@.skip(0) =~= chars@);
        assert(shape(product@) =~= Seq::<(TokenRule, nat)>::empty());
        assert(lex::<T>(chars@) =~= shape(product@) + lex::<T>(chars@.skip(0)));
        assert(chars@.take(0) =~= Seq::<char>::empty());
        assert(chunks_text(product@) =~= chars@.take(0));
    }
    while !stopped
        invariant
            n == chars@.len(),
            chars@ == text@,
            sync_from <= n,
            targets@.len() > 0,
            targets@.last() == n,
            forall|i: int, j: int| 0 <= i < j < targets@.len() ==> targets@[i] < targets@[j],
            forall|i: int| 0 <= i < targets@.len() ==> sync_from <= #[trigger] targets@[i],
            pos <= n,
            q < targets@.len(),
            stopped ==> targets@[q as int] == pos,
            is_chunking(product@, chars@.take(pos as int)),
            lex::<T>(chars@) == shape(product@) + lex::<T>(chars@.skip(pos as int)),
        decreases n - pos + (if stopped { 0int } else { 1int }),
    {
        if pos >= sync_from {
            while q < targets.len() - 1 && targets[q] < pos
                invariant
                    q < targets@.len(),
                decreases targets@.len() - q,
            {
                q = q + 1;
            }
            if targets[q] == pos {
                stopped = true;
            }
        }
        if !stopped {
            proof {
                if pos == n {
                    assert(pos >= sync_from);
                    if q + 1 < targets@.len() {
                        assert(targets@[q as int] >= pos);
                        assert(targets@[q as int] < targets@[targets@.len() - 1]);
                    }
                }
            }
            let (rule, len) = next_token::<T>(chars, pos);
            let piece = text.substring_char(pos, pos + len);
            let string = String::from_str(piece);
            let chunk = Chunk { token: rule, span: len, string };
            let ghost before = product@;
            let ghost rest = chars@.skip(pos as int);
            proof {
                lemma_lex_unfold::<T>(rest);
                assert(rest.skip(len as int) =~= chars@.skip(pos + len));
            }
            product.push(chunk);
            proof {
                lemma_shape_concat(before, seq![chunk]);
                assert(product@ =~= before + seq![chunk]);
                assert(shape(seq![chunk]) =~= seq![(rule, len as nat)]);
                assert(lex::<T>(chars@) =~= shape(product@) + lex::<T>(chars@.skip(pos + len)));
                assert(product@.drop_last() =~= before);
                assert(chars@.take(pos + len) =~= chars@.take(pos as int) + chars@.subrange(pos as int, pos + len));
                assert(chunks_text(product@) =~= chars@.take(pos + len));
                assert forall|i: int| 0 <= i < product@.len() implies #[trigger] product@[i].span
                    == product@[i].string@.len() && product@[i].span > 0 by {
                    if i < before.len() {
                        assert(product@[i] == before[i]);
                    }
                }
            }
            pos = pos + len;
        }
    }
    (product, pos, q)
}

} // verus!
