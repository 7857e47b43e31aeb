use vstd::prelude::*;

use crate::arena::Id;

verus! {

/// An absolute Unicode character index in the source code text.
pub type Site = usize;

/// A line number, starting from 1.
pub type Line = usize;

/// A column number, starting from 1.
pub type Column = usize;

/// A line-column position in the source code text.
#[derive(Clone, Copy, PartialEq, Eq, Structural, Hash, PartialOrd, Ord, Debug)]
pub struct Position {
    pub line: Line,
    pub column: Column,
}

impl Position {
    /// The position of the first character: line 1, column 1.
    pub fn start() -> (result: Self)
        ensures
            result.line == 1,
            result.column == 1,
    {
        Position { line: 1, column: 1 }
    }
}

/// A span of the source code between two line-column positions.
#[derive(Clone, Copy, PartialEq, Eq, Structural, Hash, Debug)]
pub struct PositionSpan {
    pub start: Position,
    pub end: Position,
}

/// A span of the source code between two character sites.
#[derive(Clone, Copy, PartialEq, Eq, Structural, Hash, Debug)]
pub struct SiteSpan {
    pub start: Site,
    pub end: Site,
}

/// A reference to a place between tokens of a tokenized source code: the
/// start of the token at `index`, or the end of the code when `index` is
/// the number of tokens.
#[derive(Clone, Copy, PartialEq, Eq, Structural, Hash, Debug)]
pub struct SiteRef {
    /// The identifier of the source code.
    pub id: Id,
    /// The index of the token this site starts.
    pub index: usize,
}

/// A span of token sites.
#[derive(Clone, Copy, PartialEq, Eq, Structural, Hash, Debug)]
pub struct SiteRefSpan {
    pub start: SiteRef,
    pub end: SiteRef,
}

/// True for the bytes of blank characters: space, tab, carriage return,
/// line feed and form feed.
pub open spec fn is_blank_byte(byte: u8) -> bool {
    byte == 32 || byte == 9 || byte == 13 || byte == 10 || byte == 12
}

/// True for the ASCII whitespace bytes: U+0020 SPACE and the control
/// characters from U+0009 HORIZONTAL TAB to U+000D CARRIAGE RETURN, except
/// U+000B VERTICAL TAB.
pub open spec fn is_ascii_whitespace_byte(byte: u8) -> bool {
    byte == 0x20 || (0x09 <= byte <= 0x0d && byte != 0x0b)
}

/// A blank byte is exactly an ASCII whitespace byte.
pub proof fn law_blank_byte_is_ascii_whitespace(byte: u8)
    ensures
        is_blank_byte(byte) <==> is_ascii_whitespace_byte(byte),
{
}

/// True when every byte of `bytes` is a blank character.
pub open spec fn all_blank(bytes: Seq<u8>) -> bool {
    forall|i: int| 0 <= i < bytes.len() ==> #[trigger] is_blank_byte(bytes[i])
}

/// Returns true if every byte of `text` is a blank character.
pub fn is_blank_text(text: &str) -> (result: bool)
    ensures
        result == all_blank(vstd::utf8::encode_utf8(text@)),
{
    let bytes = text.as_bytes();
    let mut i: usize = 0;
    while i < bytes.len()
        invariant
            bytes@ == vstd::utf8::encode_utf8(text@),
            0 <= i <= bytes@.len(),
            forall|k: int| 0 <= k < i ==> #[trigger] is_blank_byte(bytes@[k]),
        decreases bytes@.len() - i,
    {
        let ch = bytes[i];
        if !(ch == 32 || ch == 9 || ch == 13 || ch == 10 || ch == 12) {
            assert(!is_blank_byte(bytes@[i as int]));
            return false;
        }
        i = i + 1;
    }
    true
}

/// The text of a tokenized source code: the string of every token, in
/// order, under the code's identifier.
pub struct TokenText {
    pub id: Id,
    pub strings: Vec<String>,
}

impl TokenText {
    /// The number of tokens.
    pub open spec fn count(&self) -> int {
        self.strings@.len() as int
    }

    /// True when `site` belongs to this code: same identifier, and the
    /// start of a token or the end of the code.
    pub open spec fn spec_valid_site(&self, site: SiteRef) -> bool {
        site.id == self.id && site.index <= self.count()
    }

    /// True when both bounds of `span` belong to this code and the span is
    /// not reversed.
    pub open spec fn is_valid_span_spec(&self, span: SiteRefSpan) -> bool {
        self.spec_valid_site(span.start) && self.spec_valid_site(span.end) && span.start.index <= span.end.index
    }

    /// True when the token at `index` exists and consists of blank
    /// characters only.
    pub open spec fn spec_blank_at(&self, index: int) -> bool {
        0 <= index < self.count() && all_blank(vstd::utf8::encode_utf8(self.strings@[index]@))
    }

    /// A token is blank exactly when it exists and every byte of its UTF-8
    /// encoding is ASCII whitespace.
    pub proof fn law_blank_token_is_ascii_whitespace(&self, index: int)
        ensures
            self.spec_blank_at(index) <==> 0 <= index < self.count() && forall|i: int|
                0 <= i < vstd::utf8::encode_utf8(self.strings@[index]@).len()
                    ==> #[trigger] is_ascii_whitespace_byte(vstd::utf8::encode_utf8(self.strings@[index]@)[i]),
    {
        let bytes = vstd::utf8::encode_utf8(self.strings@[index]@);
        if forall|i: int| 0 <= i < bytes.len() ==> #[trigger] is_ascii_whitespace_byte(bytes[i]) {
            assert forall|i: int| 0 <= i < bytes.len() implies #[trigger] is_blank_byte(bytes[i]) by {
                assert(is_ascii_whitespace_byte(bytes[i]));
            }
            assert(all_blank(bytes));
        }
        if all_blank(bytes) {
            assert forall|i: int| 0 <= i < bytes.len() implies #[trigger] is_ascii_whitespace_byte(bytes[i]) by {
                assert(is_blank_byte(bytes[i]));
            }
        }
    }

    /// Returns true if `site` belongs to this code.
    pub fn is_valid_site(&self, site: &SiteRef) -> (result: bool)
        ensures
            result == self.spec_valid_site(*site),
    {
        site.id == self.id && site.index <= self.strings.len()
    }

    /// Returns true if both bounds of `span` belong to this code and the
    /// span is not reversed.
    pub fn is_valid_span(&self, span: &SiteRefSpan) -> (result: bool)
        ensures
            result == (self.spec_valid_site(span.start) && self.spec_valid_site(span.end)
                && span.start.index <= span.end.index),
    {
        self.is_valid_site(&span.start) && self.is_valid_site(&span.end) && span.start.index <= span.end.index
    }

    /// The site of the previous token; a site at the first token, or a site
    /// that does not belong to this code, stays where it is.
    pub fn prev(&self, site: &SiteRef) -> (result: SiteRef)
        ensures
            self.spec_valid_site(*site) && site.index > 0 ==> result.id == site.id && result.index == site.index - 1,
            !(self.spec_valid_site(*site) && site.index > 0) ==> result == *site,
    {
        if self.is_valid_site(site) && site.index > 0 {
            SiteRef { id: site.id, index: site.index - 1 }
        } else {
            *site
        }
    }

    /// The site of the next token, or the end of the code after the last
    /// token; the end of the code, or a site that does not belong to this
    /// code, stays where it is.
    pub fn next(&self, site: &SiteRef) -> (result: SiteRef)
        ensures
            self.spec_valid_site(*site) && site.index < self.count() ==> result.id == site.id && result.index == site.index + 1,
            !(self.spec_valid_site(*site) && site.index < self.count()) ==> result == *site,
    {
        if self.is_valid_site(site) && site.index < self.strings.len() {
            SiteRef { id: site.id, index: site.index + 1 }
        } else {
            *site
        }
    }

    /// Returns true if the token that `site` starts exists and consists of
    /// blank characters only; the end of the code is not blank.
    pub fn is_blank(&self, site: &SiteRef) -> (result: bool)
        ensures
            result == (self.spec_valid_site(*site) && self.spec_blank_at(site.index as int)),
    {
        if site.id == self.id && site.index < self.strings.len() {
            is_blank_text(self.strings[site.index].as_str())
        } else {
            false
        }
    }
}

} // verus!
