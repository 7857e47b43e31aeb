use vstd::prelude::*;

verus! {

/// A compilation unit that grants access to its lexical component.
pub trait Lexis {
    /// The type of the lexical component.
    type Lexis;

    /// Returns the lexical component.
    fn lexis(&self) -> &Self::Lexis;
}

} // verus!
