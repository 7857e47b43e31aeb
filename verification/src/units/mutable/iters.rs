use vstd::prelude::*;

use crate::arena::{Entry, Id};
use crate::syntax::error::ErrorRef;

verus! {

/// An iterator over the syntax errors of a mutable compilation unit: the
/// entries of the unit's error repository, in repository order, under the
/// unit's identifier.
pub struct MutableErrorIter {
    id: Id,
    entries: Vec<Entry>,
    next: usize,
}

impl MutableErrorIter {
    /// The identifier of the unit.
    pub closed spec fn spec_id(&self) -> Id {
        self.id
    }

    /// The entries not yet yielded.
    pub closed spec fn remaining(&self) -> Seq<Entry> {
        self.entries@.subrange(self.next as int, self.entries@.len() as int)
    }

    /// The cursor stays within the entries.
    pub closed spec fn wf(&self) -> bool {
        self.next <= self.entries@.len()
    }

    /// Creates an iterator over `entries` of the unit `id`.
    pub fn new(id: Id, entries: Vec<Entry>) -> (result: Self)
        ensures
            result.wf(),
            result.spec_id() == id,
            result.remaining() == entries@,
    {
        let result = MutableErrorIter { id, entries, next: 0 };
        assert(result.remaining() =~= entries@);
        result
    }

    /// Yields a reference to the next syntax error, or `None` after the
    /// last one.
    pub fn next(&mut self) -> (result: Option<ErrorRef>)
        requires
            old(self).wf(),
        ensures
            final(self).wf(),
            final(self).spec_id() == old(self).spec_id(),
            old(self).remaining().len() == 0 ==> result is None && final(self).remaining() == old(self).remaining(),
            old(self).remaining().len() > 0 ==> result == Some(ErrorRef { id: old(self).spec_id(), entry: old(self).remaining()[0] })
                && final(self).remaining() == old(self).remaining().drop_first(),
    {
        if self.next >= self.entries.len() {
            return None;
        }
        let entry = self.entries[self.next];
        self.next = self.next + 1;
        assert(self.remaining() =~= old(self).remaining().drop_first());
        Some(ErrorRef { id: self.id, entry })
    }
}

} // verus!
