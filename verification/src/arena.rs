use vstd::prelude::*;

verus! {

/// A globally unique identifier of a compilation unit; the zero value is
/// the nil identifier.
#[derive(Clone, Copy, PartialEq, Eq, Structural, Hash, PartialOrd, Ord, Debug)]
pub struct Id {
    pub inner: u64,
}

impl Id {
    /// Returns the identifier that belongs to no compilation unit.
    pub fn nil() -> (result: Self)
        ensures
            result.inner == 0,
    {
        Id { inner: 0 }
    }

    /// Returns true if this is the nil identifier.
    pub fn is_nil(&self) -> (result: bool)
        ensures
            result == (self.inner == 0),
    {
        self.inner == 0
    }
}

/// A versioned index of an item within a compilation unit.
///
/// Items of immutable units carry version 0, items of mutable repositories
/// carry versions from 1; the nil entry is marked by the largest index,
/// which no item occupies.
#[derive(Clone, Copy, PartialEq, Eq, Structural, Hash, PartialOrd, Ord, Debug)]
pub struct Entry {
    pub index: usize,
    pub version: usize,
}

impl Entry {
    /// True when the entry intentionally refers to nothing.
    pub open spec fn spec_is_nil(self) -> bool {
        self.index == usize::MAX
    }

    /// Returns the entry that refers to nothing.
    pub fn nil() -> (result: Self)
        ensures
            result.spec_is_nil(),
            result.index == usize::MAX,
            result.version == 0,
    {
        Entry { index: usize::MAX, version: 0 }
    }

    /// Returns true if this entry refers to nothing.
    pub fn is_nil(&self) -> (result: bool)
        ensures
            result == self.spec_is_nil(),
    {
        self.index == usize::MAX
    }
}

/// A weak reference into a repository of items: the primary item, a
/// versioned repository slot, or nothing.
#[derive(Clone, Copy, PartialEq, Eq, Structural, Hash, Debug)]
pub enum Ref {
    Primary,
    Repository { index: usize, version: usize },
    Nil,
}

impl Ref {
    /// Returns true if this reference refers to nothing.
    pub fn is_nil(&self) -> (result: bool)
        ensures
            result == (*self is Nil),
    {
        match self {
            Ref::Nil => true,
            _ => false,
        }
    }
}

} // verus!
