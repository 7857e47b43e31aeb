use vstd::prelude::*;


verus! {

/// A numeric identifier of a lexical token kind.
pub type TokenRule = u8;

/// The token rule of the end-of-input marker.
pub const EOI: TokenRule = 0;

/// The token rule of a mismatched (unrecognized) fragment of text.
pub const MISMATCH: TokenRule = 1;

/// True when bit `b` of `x` is set.
pub open spec fn has_bit(x: u128, b: u128) -> bool {
    (x >> b) & 1u128 == 1u128
}

proof fn lemma_empty_bits(j: u128)
    by (bit_vector)
    requires
        j < 128,
    ensures
        (0u128 >> j) & 1u128 != 1u128,
{
}

proof fn lemma_full_bits(j: u128)
    by (bit_vector)
    requires
        j < 128,
    ensures
        (0xffff_ffff_ffff_ffff_ffff_ffff_ffff_ffffu128 >> j) & 1u128 == 1u128,
{
}

proof fn lemma_set_bit(x: u128, k: u128, j: u128)
    by (bit_vector)
    requires
        k < 128,
        j < 128,
    ensures
        ((x | (1u128 << k)) >> j) & 1u128 == 1u128 <==> ((x >> j) & 1u128 == 1u128 || j == k),
{
}

proof fn lemma_union_bits(x: u128, y: u128, j: u128)
    by (bit_vector)
    requires
        j < 128,
    ensures
        ((x | y) >> j) & 1u128 == 1u128 <==> ((x >> j) & 1u128 == 1u128 || (y >> j) & 1u128 == 1u128),
{
}

/// A set of token rules, one bit per rule.
#[derive(Clone, Copy, PartialEq, Eq, Hash, Debug)]
pub struct TokenSet {
    high: u128,
    low: u128,
}

impl TokenSet {
    /// The abstract set of token rules.
    pub closed spec fn view(self) -> Set<TokenRule> {
        Set::new(
            |rule: TokenRule|
                if rule >= 128 {
                    has_bit(self.high, (rule - 128) as u128)
                } else {
                    has_bit(self.low, rule as u128)
                },
        )
    }

    /// Creates a token set without entries.
    pub fn empty() -> (result: Self)
        ensures
            result@ == Set::<TokenRule>::empty(),
    {
        let result = TokenSet { high: 0, low: 0 };
        assert forall|rule: TokenRule| !result@.contains(rule) by {
            if rule >= 128 {
                lemma_empty_bits((rule - 128) as u128);
            } else {
                lemma_empty_bits(rule as u128);
            }
        }
        assert(result@ =~= Set::<TokenRule>::empty());
        result
    }

    /// Creates a token set holding every token rule.
    pub fn all() -> (result: Self)
        ensures
            forall|rule: TokenRule| result@.contains(rule),
    {
        let result = TokenSet { high: 0xffff_ffff_ffff_ffff_ffff_ffff_ffff_ffff, low: 0xffff_ffff_ffff_ffff_ffff_ffff_ffff_ffff };
        assert forall|rule: TokenRule| result@.contains(rule) by {
            if rule >= 128 {
                lemma_full_bits((rule - 128) as u128);
            } else {
                lemma_full_bits(rule as u128);
            }
        }
        result
    }

    /// Returns true if the set contains `rule`.
    pub fn contains(&self, rule: TokenRule) -> (result: bool)
        ensures
            result == self@.contains(rule),
    {
        if rule >= 128 {
            let shift: u128 = (rule - 128) as u128;
            (self.high >> shift) & 1 == 1
        } else {
            let shift: u128 = rule as u128;
            (self.low >> shift) & 1 == 1
        }
    }

    /// Returns a token set that additionally holds `rule`.
    pub fn insert(self, rule: TokenRule) -> (result: Self)
        ensures
            result@ == self@.insert(rule),
    {
        let result = if rule >= 128 {
            let shift: u128 = (rule - 128) as u128;
            TokenSet { high: self.high | (1u128 << shift), low: self.low }
        } else {
            let shift: u128 = rule as u128;
            TokenSet { high: self.high, low: self.low | (1u128 << shift) }
        };
        assert forall|r: TokenRule| result@.contains(r) <==> self@.insert(rule).contains(r) by {
            if r >= 128 {
                if rule >= 128 {
                    lemma_set_bit(self.high, (rule - 128) as u128, (r - 128) as u128);
                }
            } else {
                if rule < 128 {
                    lemma_set_bit(self.low, rule as u128, r as u128);
                }
            }
        }
        assert(result@ =~= self@.insert(rule));
        result
    }

    /// Returns a token set holding the rules of both sets.
    pub fn union(self, other: Self) -> (result: Self)
        ensures
            result@ == self@.union(other@),
    {
        let result = TokenSet { high: self.high | other.high, low: self.low | other.low };
        assert forall|r: TokenRule| result@.contains(r) <==> self@.union(other@).contains(r) by {
            if r >= 128 {
                lemma_union_bits(self.high, other.high, (r - 128) as u128);
            } else {
                lemma_union_bits(self.low, other.low, r as u128);
            }
        }
        assert(result@ =~= self@.union(other@));
        result
    }
}

} // verus!

verus! {

/// A reference to a token instance within a compilation unit.
#[derive(Clone, Copy, PartialEq, Eq, Structural, Hash, PartialOrd, Ord, Debug)]
pub struct TokenRef {
    /// The identifier of the compilation unit.
    pub id: crate::arena::Id,
    /// The versioned index of the token chunk within the unit.
    pub entry: crate::arena::Entry,
}

impl TokenRef {
    /// True when the reference intentionally refers to no token.
    pub open spec fn spec_is_nil(self) -> bool {
        self.id.inner == 0 || self.entry.spec_is_nil()
    }

    /// Returns a reference that refers to no token.
    pub fn nil() -> (result: Self)
        ensures
            result.spec_is_nil(),
            result.id.inner == 0,
            result.entry.index == usize::MAX,
            result.entry.version == 0,
    {
        TokenRef { id: crate::arena::Id::nil(), entry: crate::arena::Entry::nil() }
    }

    /// Returns true if the reference intentionally refers to no token.
    pub fn is_nil(&self) -> (result: bool)
        ensures
            result == self.spec_is_nil(),
    {
        self.id.is_nil() || self.entry.is_nil()
    }
}

/// The lexical grammar of a language: how a token is recognised at the
/// start of a text.
///
/// A unit scans a text token by token: it recognises the token at the
/// current character and moves past it, and where no token is recognised it
/// gathers the characters up to the next recognised token into one
/// [MISMATCH] token. An implementation proves that a token stays within the
/// text, that a recognised token is not of the [MISMATCH] rule, and that
/// recognising a token looks at no character past the token's end and the
/// [Token::lookback] characters after it.
pub trait Token: Sized {
    /// The token at the start of `text`: its rule, and its number of
    /// characters, zero when no token is recognised there.
    spec fn spec_token(text: Seq<char>) -> (TokenRule, nat);

    /// The number of characters after a token that recognising it may look
    /// at.
    spec fn spec_lookback() -> usize;

    /// The number of characters after a token that recognising it may look
    /// at.
    fn lookback() -> (result: usize)
        ensures
            result == Self::spec_lookback(),
    ;

    /// Recognises the token at the character `start` of `text`.
    fn parse(text: &Vec<char>, start: usize) -> (result: (TokenRule, usize))
        requires
            start < text@.len(),
        ensures
            result.0 == Self::spec_token(text@.skip(start as int)).0,
            result.1 == Self::spec_token(text@.skip(start as int)).1,
    ;

    /// A token stays within the text, and a recognised token is not of the
    /// [MISMATCH] rule.
    proof fn lemma_token_bounds(text: Seq<char>)
        requires
            text.len() > 0,
        ensures
            Self::spec_token(text).1 <= text.len(),
            Self::spec_token(text).1 >= 1 ==> Self::spec_token(text).0 != MISMATCH,
    ;

    /// Recognising a token depends on no character past the token and the
    /// lookback after it: another text that starts with those characters
    /// (and ends with them, when they reach the end) gives the same token.
    proof fn lemma_token_reads(text: Seq<char>, other: Seq<char>)
        requires
            text.len() > 0,
            Self::spec_token(text).1 + Self::spec_lookback() <= text.len() ==> {
                let n = Self::spec_token(text).1 + Self::spec_lookback();
                n <= other.len() && text.take(n as int) == other.take(n as int)
            },
            Self::spec_token(text).1 + Self::spec_lookback() > text.len() ==> other == text,
        ensures
            Self::spec_token(other) == Self::spec_token(text),
    ;
}

} // verus!
