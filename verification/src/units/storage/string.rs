use vstd::prelude::*;

use crate::units::storage::spread::{ChildCount, ChildIndex};

verus! {

broadcast use vstd::array::group_array_axioms;

/// A byte offset into a string.
pub type ByteIndex = usize;

/// The branching factor of pages.
pub const PAGE_B: usize = 16;

/// The number of tokens a page holds at most.
pub const PAGE_CAP: usize = PAGE_B * 2 - 1;

/// The number of bytes reserved in place per token of a page.
pub const CHUNK_SIZE: usize = 4;

/// The number of bytes a page string keeps in place before moving to the
/// heap.
pub const STRING_INLINE: usize = PAGE_CAP * CHUNK_SIZE;

/// Bytes kept in place: the first `len` bytes of `vec`.
pub struct Inline {
    vec: [u8; 124],
    len: usize,
}

/// The bytes of a page string, in place while they are few, on the heap
/// otherwise.
pub enum Bytes {
    Inline(Inline),
    Heap(Vec<u8>),
}

/// `after` is `before` with the `count` bytes at `from` copied to `to`.
pub open spec fn shifted(before: Seq<u8>, after: Seq<u8>, from: int, to: int, count: int) -> bool {
    &&& after.len() == before.len()
    &&& forall|k: int| 0 <= k < count ==> #[trigger] after[to + k] == before[from + k]
    &&& forall|i: int| 0 <= i < before.len() && !(to <= i < to + count) ==> #[trigger] after[i] == before[i]
}

impl Bytes {
    /// The bytes.
    pub closed spec fn view(&self) -> Seq<u8> {
        match self {
            Bytes::Inline(inline) => inline.vec@.subrange(0, inline.len as int),
            Bytes::Heap(vec) => vec@,
        }
    }

    /// The in-place length never exceeds the in-place buffer.
    pub closed spec fn wf(&self) -> bool {
        match self {
            Bytes::Inline(inline) => inline.len <= STRING_INLINE,
            Bytes::Heap(vec) => vec@.len() <= usize::MAX,
        }
    }

    proof fn lemma_len_bound(&self)
        requires
            self.wf(),
        ensures
            self@.len() <= usize::MAX,
    {
    }

    /// Creates empty bytes, kept in place.
    pub fn new() -> (result: Self)
        ensures
            result.wf(),
            result is Inline,
            result@ == Seq::<u8>::empty(),
    {
        let result = Bytes::Inline(Inline { vec: [0; 124], len: 0 });
        assert(result@ =~= Seq::<u8>::empty());
        result
    }

    /// Returns the number of bytes.
    pub fn len(&self) -> (result: ByteIndex)
        requires
            self.wf(),
        ensures
            result == self@.len(),
    {
        match self {
            Bytes::Inline(inline) => inline.len,
            Bytes::Heap(vec) => vec.len(),
        }
    }

    /// Returns the byte at `index`.
    fn get(&self, index: usize) -> (result: u8)
        requires
            self.wf(),
            index < self@.len(),
        ensures
            result == self@[index as int],
    {
        match self {
            Bytes::Inline(inline) => inline.vec[index],
            Bytes::Heap(vec) => vec[index],
        }
    }

    /// Replaces the byte at `index`.
    fn set(&mut self, index: usize, byte: u8)
        requires
            old(self).wf(),
            index < old(self)@.len(),
        ensures
            final(self).wf(),
            final(self)@ == old(self)@.update(index as int, byte),
    {
        match self {
            Bytes::Inline(inline) => {
                inline.vec[index] = byte;
            },
            Bytes::Heap(vec) => {
                vec.set(index, byte);
            },
        }
        assert(self@ =~= old(self)@.update(index as int, byte));
    }

    /// Copies the `count` bytes at `from` to `to`, as `memmove` does.
    fn shift(&mut self, from: usize, to: usize, count: usize)
        requires
            old(self).wf(),
            from + count <= old(self)@.len(),
            to + count <= old(self)@.len(),
        ensures
            final(self).wf(),
            shifted(old(self)@, final(self)@, from as int, to as int, count as int),
    {
        let ghost before = self@;
        proof {
            self.lemma_len_bound();
        }
        if to <= from {
            let mut k: usize = 0;
            while k < count
                invariant
                    self.wf(),
                    before.len() <= usize::MAX,
                    to <= from,
                    from + count <= before.len(),
                    to + count <= before.len(),
                    0 <= k <= count,
                    self@.len() == before.len(),
                    forall|j: int| 0 <= j < k ==> #[trigger] self@[to + j] == before[from + j],
                    forall|i: int| 0 <= i < before.len() && !(to <= i < to + k) ==> #[trigger] self@[i] == before[i],
                decreases count - k,
            {
                let byte = self.get(from + k);
                self.set(to + k, byte);
                k = k + 1;
            }
        } else {
            let mut k: usize = count;
            while k > 0
                invariant
                    self.wf(),
                    before.len() <= usize::MAX,
                    from < to,
                    from + count <= before.len(),
                    to + count <= before.len(),
                    0 <= k <= count,
                    self@.len() == before.len(),
                    forall|j: int| k <= j < count ==> #[trigger] self@[to + j] == before[from + j],
                    forall|i: int| 0 <= i < before.len() && !(to + k <= i < to + count) ==> #[trigger] self@[i] == before[i],
                decreases k,
            {
                k = k - 1;
                let byte = self.get(from + k);
                self.set(to + k, byte);
            }
        }
    }

    /// Copies `count` bytes of `text` starting at `source` over the bytes
    /// starting at `destination`.
    fn copy_from(&mut self, text: &[u8], source: usize, destination: usize, count: usize)
        requires
            old(self).wf(),
            source + count <= text@.len(),
            destination + count <= old(self)@.len(),
        ensures
            final(self).wf(),
            final(self)@.len() == old(self)@.len(),
            forall|k: int| 0 <= k < count ==> #[trigger] final(self)@[destination + k] == text@[source + k],
            forall|i: int| 0 <= i < old(self)@.len() && !(destination <= i < destination + count)
                ==> #[trigger] final(self)@[i] == old(self)@[i],
    {
        let ghost before = self@;
        proof {
            self.lemma_len_bound();
        }
        let text_len = text.len();
        let mut k: usize = 0;
        while k < count
            invariant
                self.wf(),
                before.len() <= usize::MAX,
                text@.len() <= usize::MAX,
                source + count <= text@.len(),
                destination + count <= before.len(),
                0 <= k <= count,
                self@.len() == before.len(),
                forall|j: int| 0 <= j < k ==> #[trigger] self@[destination + j] == text@[source + j],
                forall|i: int| 0 <= i < before.len() && !(destination <= i < destination + k) ==> #[trigger] self@[i] == before[i],
            decreases count - k,
        {
            self.set(destination + k, text[source + k]);
            k = k + 1;
        }
    }

    /// Moves in-place bytes to the heap with `grow` more bytes at the end;
    /// the new bytes are zero.
    fn move_to_heap(&mut self, grow: ByteIndex)
        requires
            old(self).wf(),
            *old(self) is Inline,
            old(self)@.len() + grow <= usize::MAX,
        ensures
            final(self).wf(),
            *final(self) is Heap,
            final(self)@.len() == old(self)@.len() + grow,
            final(self)@.subrange(0, old(self)@.len() as int) == old(self)@,
    {
        let ghost before = self@;
        let mut heap: Vec<u8> = Vec::new();
        match self {
            Bytes::Inline(inline) => {
                let mut i: usize = 0;
                while i < inline.len
                    invariant
                        inline.len <= STRING_INLINE,
                        before == inline.vec@.subrange(0, inline.len as int),
                        0 <= i <= inline.len,
                        heap@ == before.subrange(0, i as int),
                    decreases inline.len - i,
                {
                    heap.push(inline.vec[i]);
                    assert(heap@ =~= before.subrange(0, i + 1));
                    i = i + 1;
                }
            },
            Bytes::Heap(_) => {},
        }
        let mut j: usize = 0;
        while j < grow
            invariant
                heap@.len() == before.len() + j,
                heap@.subrange(0, before.len() as int) == before,
                0 <= j <= grow,
            decreases grow - j,
        {
            heap.push(0);
            assert(heap@.subrange(0, before.len() as int) =~= before);
            j = j + 1;
        }
        *self = Bytes::Heap(heap);
    }

    /// Extends the bytes by `grow` zero bytes, keeping them in place while
    /// they fit and moving them to the heap otherwise.
    fn grow(&mut self, grow: ByteIndex)
        requires
            old(self).wf(),
            old(self)@.len() + grow <= usize::MAX,
        ensures
            final(self).wf(),
            final(self)@.len() == old(self)@.len() + grow,
            final(self)@.subrange(0, old(self)@.len() as int) == old(self)@,
    {
        let ghost before = self@;
        let length = self.len();
        match self {
            Bytes::Inline(inline) => {
                if inline.len + grow <= STRING_INLINE {
                    let mut j: usize = 0;
                    while j < grow
                        invariant
                            inline.len == before.len() + j,
                            inline.len <= STRING_INLINE,
                            before.len() + grow <= STRING_INLINE,
                            inline.vec@.subrange(0, before.len() as int) == before,
                            0 <= j <= grow,
                        decreases grow - j,
                    {
                        inline.vec[inline.len] = 0;
                        assert(inline.vec@.subrange(0, before.len() as int) =~= before);
                        inline.len = inline.len + 1;
                        j = j + 1;
                    }
                    assert(self@.subrange(0, before.len() as int) =~= before);
                    return;
                }
            },
            Bytes::Heap(vec) => {
                let mut j: usize = 0;
                while j < grow
                    invariant
                        vec@.len() == before.len() + j,
                        vec@.subrange(0, before.len() as int) == before,
                        0 <= j <= grow,
                    decreases grow - j,
                {
                    vec.push(0);
                    assert(vec@.subrange(0, before.len() as int) =~= before);
                    j = j + 1;
                }
                return;
            },
        }
        self.move_to_heap(grow);
    }

    /// Keeps heap bytes on the heap while they are more than half of the
    /// in-place buffer, and moves them in place otherwise.
    fn try_shrink(&mut self)
        requires
            old(self).wf(),
        ensures
            final(self).wf(),
            final(self)@ == old(self)@,
            *old(self) is Heap && old(self)@.len() <= STRING_INLINE / 2 ==> *final(self) is Inline,
            !(*old(self) is Heap && old(self)@.len() <= STRING_INLINE / 2) ==> *final(self) == *old(self),
    {
        let ghost before = self@;
        let inline = match self {
            Bytes::Heap(vec) => {
                let len = vec.len();
                if len > STRING_INLINE / 2 {
                    return;
                }
                let mut inline = Inline { vec: [0; 124], len };
                let mut i: usize = 0;
                while i < len
                    invariant
                        len == vec@.len(),
                        len <= STRING_INLINE / 2,
                        inline.len == len,
                        0 <= i <= len,
                        forall|k: int| 0 <= k < i ==> #[trigger] inline.vec@[k] == vec@[k],
                    decreases len - i,
                {
                    inline.vec[i] = vec[i];
                    i = i + 1;
                }
                inline
            },
            Bytes::Inline(_) => {
                return;
            },
        };
        *self = Bytes::Inline(inline);
        assert(self@ =~= before);
    }

    /// Drops the bytes after the first `length` bytes; heap bytes then move
    /// in place when they became few.
    fn truncate(&mut self, length: usize)
        requires
            old(self).wf(),
            length <= old(self)@.len(),
        ensures
            final(self).wf(),
            final(self)@ == old(self)@.subrange(0, length as int),
    {
        let ghost before = self@;
        match self {
            Bytes::Inline(inline) => {
                inline.len = length;
            },
            Bytes::Heap(vec) => {
                vec.truncate(length);
            },
        }
        assert(self@ =~= before.subrange(0, length as int));
        if let Bytes::Heap(_) = self {
            self.try_shrink();
        }
    }

    /// Replaces the bytes in `from..to` with `text`; returns how many bytes
    /// the string grew (negative when it shrank).
    pub fn write(&mut self, from: ByteIndex, to: ByteIndex, text: &[u8]) -> (result: isize)
        requires
            old(self).wf(),
            from <= to <= old(self)@.len(),
            old(self)@.len() + text@.len() <= isize::MAX,
        ensures
            final(self).wf(),
            final(self)@ == old(self)@.subrange(0, from as int) + text@ + old(self)@.subrange(to as int, old(self)@.len() as int),
            result == text@.len() - (to - from),
    {
        let ghost before = self@;
        let ghost expected = before.subrange(0, from as int) + text@ + before.subrange(to as int, before.len() as int);
        let text_diff = text.len();
        let string_diff = to - from;
        let len = self.len();
        if text_diff < string_diff {
            let shrink = string_diff - text_diff;
            if to < len {
                self.shift(to, to - shrink, len - to);
            }
            let ghost shifted_view = self@;
            self.truncate(len - shrink);
            let ghost truncated = self@;
            self.copy_from(text, 0, from, text_diff);
            proof {
                assert forall|i: int| 0 <= i < expected.len() implies #[trigger] self@[i] == expected[i] by {
                    if i < from {
                        assert(truncated[i] == shifted_view[i]);
                    } else if i < from + text_diff {
                        assert(self@[from + (i - from)] == text@[i - from]);
                    } else {
                        assert(truncated[i] == shifted_view[i]);
                        assert(shifted_view[(to - shrink) + (i - (to - shrink))] == before[to + (i - (to - shrink))]);
                    }
                }
                assert(self@ =~= expected);
            }
            -(shrink as isize)
        } else if text_diff > string_diff {
            let grow = text_diff - string_diff;
            self.grow(grow);
            let ghost grown = self@;
            if to < len {
                self.shift(to, to + grow, len - to);
            }
            let ghost shifted_view = self@;
            self.copy_from(text, 0, from, text_diff);
            proof {
                assert forall|i: int| 0 <= i < expected.len() implies #[trigger] self@[i] == expected[i] by {
                    if i < from {
                        assert(grown[i] == before[i]);
                    } else if i < from + text_diff {
                        assert(self@[from + (i - from)] == text@[i - from]);
                    } else {
                        assert(shifted_view[(to + grow) + (i - (to + grow))] == grown[to + (i - (to + grow))]);
                        assert(grown[to + (i - (to + grow))] == before[to + (i - (to + grow))]);
                    }
                }
                assert(self@ =~= expected);
            }
            grow as isize
        } else {
            self.copy_from(text, 0, from, text_diff);
            proof {
                assert forall|i: int| 0 <= i < expected.len() implies #[trigger] self@[i] == expected[i] by {
                    if from <= i < from + text_diff {
                        assert(self@[from + (i - from)] == text@[i - from]);
                    }
                }
                assert(self@ =~= expected);
            }
            0
        }
    }

    /// Returns the bytes in `from..to`.
    pub fn slice(&self, from: ByteIndex, to: ByteIndex) -> (result: &[u8])
        requires
            self.wf(),
            from <= to <= self@.len(),
        ensures
            result@ == self@.subrange(from as int, to as int),
    {
        match self {
            Bytes::Inline(inline) => {
                let all = inline.vec.as_slice();
                let result = &all[from..to];
                assert(result@ =~= self@.subrange(from as int, to as int));
                result
            },
            Bytes::Heap(vec) => {
                let all = vec.as_slice();
                &all[from..to]
            },
        }
    }

    /// Appends the bytes of `text`, keeping them in place while they fit.
    pub fn append(&mut self, text: &[u8])
        requires
            old(self).wf(),
            old(self)@.len() + text@.len() <= usize::MAX,
        ensures
            final(self).wf(),
            final(self)@ == old(self)@ + text@,
    {
        let ghost before = self@;
        let destination = self.len();
        let count = text.len();
        self.grow(count);
        let ghost grown = self@;
        self.copy_from(text, 0, destination, count);
        proof {
            assert forall|i: int| 0 <= i < before.len() + text@.len() implies #[trigger] self@[i] == (before + text@)[i] by {
                if i < destination {
                    assert(grown[i] == before[i]);
                } else {
                    assert(self@[destination + (i - destination)] == text@[i - destination]);
                }
            }
            assert(self@ =~= before + text@);
        }
    }
}

/// Copies the `count` entries of `indices` at `from` to `to`, as `memmove`
/// does.
fn shift_indices(indices: &mut [ByteIndex; 31], from: usize, to: usize, count: usize)
    requires
        from + count <= PAGE_CAP,
        to + count <= PAGE_CAP,
    ensures
        forall|k: int| 0 <= k < count ==> #[trigger] final(indices)@[to + k] == old(indices)@[from + k],
        forall|i: int| 0 <= i < PAGE_CAP && !(to <= i < to + count) ==> #[trigger] final(indices)@[i] == old(indices)@[i],
{
    let ghost before = indices@;
    if to <= from {
        let mut k: usize = 0;
        while k < count
            invariant
                to <= from,
                from + count <= PAGE_CAP,
                to + count <= PAGE_CAP,
                0 <= k <= count,
                forall|j: int| 0 <= j < k ==> #[trigger] indices@[to + j] == before[from + j],
                forall|i: int| 0 <= i < PAGE_CAP && !(to <= i < to + k) ==> #[trigger] indices@[i] == before[i],
            decreases count - k,
        {
            indices[to + k] = indices[from + k];
            k = k + 1;
        }
    } else {
        let mut k: usize = count;
        while k > 0
            invariant
                from < to,
                from + count <= PAGE_CAP,
                to + count <= PAGE_CAP,
                0 <= k <= count,
                forall|j: int| k <= j < count ==> #[trigger] indices@[to + j] == before[from + j],
                forall|i: int| 0 <= i < PAGE_CAP && !(to + k <= i < to + count) ==> #[trigger] indices@[i] == before[i],
            decreases k,
        {
            k = k - 1;
            indices[to + k] = indices[from + k];
        }
    }
}

/// The byte offset where the token at `index` ends, for a page of
/// `occupied` tokens: the start of the next token, or the end of the
/// bytes for the last one.
pub open spec fn token_end(indices: Seq<ByteIndex>, bytes_len: int, occupied: int, index: int) -> int {
    if index + 1 < occupied {
        indices[index + 1] as int
    } else {
        bytes_len
    }
}

/// The bytes of the token at `index` of a page of `occupied` tokens with
/// offsets `indices` into `bytes`.
pub open spec fn page_token(indices: Seq<ByteIndex>, bytes: Seq<u8>, occupied: int, index: int) -> Seq<u8> {
    bytes.subrange(indices[index] as int, token_end(indices, bytes.len() as int, occupied, index))
}

/// The byte offsets of a page of `occupied` tokens are well formed, except
/// perhaps those in `gap_start..gap_end`: they do not decrease and stay
/// within the bytes.
pub open spec fn indices_wf_except(indices: Seq<ByteIndex>, bytes_len: int, occupied: int, gap_start: int, gap_end: int) -> bool {
    &&& 0 <= occupied <= PAGE_CAP
    &&& indices.len() == PAGE_CAP
    &&& forall|i: int, j: int|
        0 <= i < j < occupied && !(gap_start <= i < gap_end) && !(gap_start <= j < gap_end)
            ==> #[trigger] indices[i] <= #[trigger] indices[j]
    &&& forall|i: int| 0 <= i < occupied && !(gap_start <= i < gap_end) ==> #[trigger] indices[i] <= bytes_len
}

/// The byte offsets of a page of `occupied` tokens are well formed.
pub open spec fn indices_wf(indices: Seq<ByteIndex>, bytes_len: int, occupied: int) -> bool {
    indices_wf_except(indices, bytes_len, occupied, 0, 0)
}

/// Where the rewritten text of a page's tokens comes from: the tokens
/// `from..from + count` of a page of `occupied` tokens (offsets
/// `old_indices` into `old_bytes`) replaced with the text of `text` from
/// `text_indices[0]` to `text_indices[count]` (or to the end of `text`),
/// giving offsets `new_indices` into `new_bytes`.
pub open spec fn rewritten(
    old_indices: Seq<ByteIndex>,
    old_bytes: Seq<u8>,
    new_indices: Seq<ByteIndex>,
    new_bytes: Seq<u8>,
    occupied: int,
    from: int,
    text: Seq<u8>,
    text_indices: Seq<ByteIndex>,
    count: int,
) -> bool {
    let to = from + count;
    let text_start = text_indices[0] as int;
    let text_end = if count < text_indices.len() { text_indices[count] as int } else { text.len() as int };
    let string_start = old_indices[from] as int;
    let string_end = if to < occupied { old_indices[to] as int } else { old_bytes.len() as int };
    let diff = (text_end - text_start) - (string_end - string_start);
    &&& new_indices.len() == PAGE_CAP
    &&& new_bytes == old_bytes.subrange(0, string_start) + text.subrange(text_start, text_end)
        + old_bytes.subrange(string_end, old_bytes.len() as int)
    &&& forall|i: int| 0 <= i < from ==> #[trigger] new_indices[i] == old_indices[i]
    &&& forall|k: int| 0 <= k < count ==> #[trigger] new_indices[from + k] == text_indices[k] - text_start + string_start
    &&& forall|i: int| to <= i < occupied ==> #[trigger] new_indices[i] == old_indices[i] + diff
    &&& forall|i: int| occupied <= i < PAGE_CAP ==> #[trigger] new_indices[i] == old_indices[i]
}

/// How removing the tokens `from..from + count` of a page of `occupied`
/// tokens changes its offsets and bytes.
pub open spec fn deflated(
    old_indices: Seq<ByteIndex>,
    old_bytes: Seq<u8>,
    new_indices: Seq<ByteIndex>,
    new_bytes: Seq<u8>,
    occupied: int,
    from: int,
    count: int,
) -> bool {
    let to = from + count;
    let start = old_indices[from] as int;
    let end = if to < occupied { old_indices[to] as int } else { old_bytes.len() as int };
    &&& new_indices.len() == PAGE_CAP
    &&& new_bytes == old_bytes.subrange(0, start) + old_bytes.subrange(end, old_bytes.len() as int)
    &&& forall|i: int| 0 <= i < from ==> #[trigger] new_indices[i] == old_indices[i]
    &&& forall|k: int| 0 <= k < occupied - to ==> #[trigger] new_indices[from + k] == old_indices[to + k] - (end - start)
    &&& forall|i: int| occupied - count <= i < PAGE_CAP ==> #[trigger] new_indices[i] == old_indices[i]
}

/// The offsets a rewrite leaves are well formed: the untouched leading
/// offsets stay below the rewritten ones, which stay below the moved
/// trailing ones.
proof fn lemma_rewrite_wf(
    old_indices: Seq<ByteIndex>,
    new_indices: Seq<ByteIndex>,
    old_len: int,
    new_len: int,
    occupied: int,
    from: int,
    count: int,
    text_indices: Seq<ByteIndex>,
    text_start: int,
    text_end: int,
    string_start: int,
    string_end: int,
)
    requires
        indices_wf_except(old_indices, old_len, occupied, from + 1, from + count),
        0 <= from,
        count > 0,
        from + count <= occupied,
        new_indices.len() == PAGE_CAP,
        string_start == old_indices[from],
        from + count < occupied ==> string_end == old_indices[from + count],
        from + count >= occupied ==> string_end == old_len,
        string_start <= string_end <= old_len,
        text_start <= text_end,
        text_indices.len() >= count,
        text_start == text_indices[0],
        forall|i: int, j: int| 0 <= i < j < text_indices.len() ==> #[trigger] text_indices[i] <= #[trigger] text_indices[j],
        forall|k: int| 0 <= k < count ==> #[trigger] text_indices[k] <= text_end,
        new_len == old_len + (text_end - text_start) - (string_end - string_start),
        forall|i: int| 0 <= i < from ==> #[trigger] new_indices[i] == old_indices[i],
        forall|k: int| 0 <= k < count ==> #[trigger] new_indices[from + k] == text_indices[k] - text_start + string_start,
        forall|i: int| from + count <= i < occupied ==> #[trigger] new_indices[i] == old_indices[i] + (text_end - text_start) - (string_end - string_start),
    ensures
        indices_wf(new_indices, new_len, occupied),
{
    let diff = (text_end - text_start) - (string_end - string_start);
    let to = from + count;
    assert forall|i: int| 0 <= i < occupied implies #[trigger] new_indices[i] <= new_len by {
        if i < from {
            assert(old_indices[i] <= old_indices[from]);
        } else if i < to {
            assert(new_indices[from + (i - from)] == text_indices[i - from] - text_start + string_start);
        } else {
            assert(old_indices[i] <= old_len);
        }
    }
    assert forall|i: int, j: int| 0 <= i < j < occupied implies #[trigger] new_indices[i] <= #[trigger] new_indices[j] by {
        let ni = new_indices[i];
        let nj = new_indices[j];
        if j < from {
            assert(old_indices[i] <= old_indices[j]);
        } else if j < to {
            assert(nj == new_indices[from + (j - from)]);
            assert(nj == text_indices[j - from] - text_start + string_start);
            assert(text_indices[0] <= text_indices[j - from]);
            if i < from {
                assert(old_indices[i] <= old_indices[from]);
            } else {
                assert(ni == new_indices[from + (i - from)]);
                assert(text_indices[i - from] <= text_indices[j - from]);
            }
        } else {
            assert(old_indices[to] <= old_indices[j]);
            assert(string_end <= old_indices[j]);
            if i < from {
                assert(old_indices[i] <= old_indices[from]);
            } else if i < to {
                assert(ni == new_indices[from + (i - from)]);
                assert(text_indices[i - from] <= text_end);
            } else {
                assert(old_indices[i] <= old_indices[j]);
            }
        }
    }
}

/// The text of the page's tokens, stored as one string and the byte offset
/// where each token starts.
pub struct PageString {
    indices: [ByteIndex; 31],
    bytes: Bytes,
}

impl PageString {
    /// The bytes of the page's text.
    pub closed spec fn spec_bytes(&self) -> Seq<u8> {
        self.bytes@
    }

    /// The byte offsets where the tokens start.
    pub closed spec fn spec_indices(&self) -> Seq<ByteIndex> {
        self.indices@
    }

    /// The storage of the bytes is consistent.
    pub closed spec fn wf(&self) -> bool {
        self.bytes.wf()
    }

    /// The bytes of the token at `index` in a page of `occupied` tokens.
    pub open spec fn spec_token(&self, occupied: int, index: int) -> Seq<u8> {
        page_token(self.spec_indices(), self.spec_bytes(), occupied, index)
    }

    /// Creates an empty page string.
    pub fn new() -> (result: Self)
        ensures
            result.wf(),
            result.spec_bytes() == Seq::<u8>::empty(),
            forall|i: int| 0 <= i < PAGE_CAP ==> #[trigger] result.spec_indices()[i] == 0,
    {
        PageString { indices: [0; 31], bytes: Bytes::new() }
    }

    /// Returns the bytes of the token at `index` of a page of `occupied`
    /// tokens.
    pub fn byte_slice(&self, occupied: ChildCount, index: ChildIndex) -> (result: &[u8])
        requires
            self.wf(),
            index < occupied,
            indices_wf(self.spec_indices(), self.spec_bytes().len() as int, occupied as int),
        ensures
            result@ == self.spec_token(occupied as int, index as int),
    {
        let next = index + 1;
        let start_byte = self.indices[index];
        let end_byte = if next < occupied {
            self.indices[next]
        } else {
            self.bytes.len()
        };
        self.bytes.slice(start_byte, end_byte)
    }

    /// Returns the bytes from the start of the token at `index` to the end
    /// of the page's text.
    pub fn byte_slice_from(&self, occupied: ChildCount, index: ChildIndex) -> (result: &[u8])
        requires
            self.wf(),
            index < occupied,
            indices_wf(self.spec_indices(), self.spec_bytes().len() as int, occupied as int),
        ensures
            result@ == self.spec_bytes().subrange(self.spec_indices()[index as int] as int, self.spec_bytes().len() as int),
    {
        let start_byte = self.indices[index];
        let length = self.bytes.len();
        self.bytes.slice(start_byte, length)
    }

    /// Returns the bytes of the page's text.
    pub fn bytes(&self) -> (result: &[u8])
        requires
            self.wf(),
        ensures
            result@ == self.spec_bytes(),
    {
        let length = self.bytes.len();
        let result = self.bytes.slice(0, length);
        assert(result@ =~= self.spec_bytes());
        result
    }

    /// Appends `string` to the page's text; the offsets stay unchanged.
    pub fn append(&mut self, string: &str)
        requires
            old(self).wf(),
            old(self).spec_bytes().len() + vstd::utf8::encode_utf8(string@).len() <= usize::MAX,
        ensures
            final(self).wf(),
            final(self).spec_indices() == old(self).spec_indices(),
            final(self).spec_bytes() == old(self).spec_bytes() + vstd::utf8::encode_utf8(string@),
    {
        let text = string.as_bytes();
        self.bytes.append(text);
    }

    /// Returns the byte offset at slot `index`.
    pub fn get_byte_index(&self, index: ChildIndex) -> (result: ByteIndex)
        requires
            index < PAGE_CAP,
        ensures
            result == self.spec_indices()[index as int],
    {
        self.indices[index]
    }

    /// Replaces the byte offset at slot `index`.
    pub fn set_byte_index(&mut self, index: ChildIndex, byte_index: ByteIndex)
        requires
            index < PAGE_CAP,
        ensures
            final(self).wf() == old(self).wf(),
            final(self).spec_bytes() == old(self).spec_bytes(),
            final(self).spec_indices() == old(self).spec_indices().update(index as int, byte_index),
    {
        self.indices[index] = byte_index;
    }

    /// Opens a gap of `count` slots at `from` in a page of `occupied`
    /// tokens: the offsets from `from` on move `count` slots up. When the
    /// gap is at the end, only its first slot is set, to the end of the
    /// text. The text is unchanged.
    pub fn inflate(&mut self, occupied: ChildCount, from: ChildIndex, count: ChildCount)
        requires
            old(self).wf(),
            from <= occupied,
            occupied + count <= PAGE_CAP,
            count > 0,
        ensures
            final(self).wf(),
            final(self).spec_bytes() == old(self).spec_bytes(),
            from == occupied ==> final(self).spec_indices() == old(self).spec_indices().update(
                from as int,
                old(self).spec_bytes().len() as usize,
            ),
            from < occupied ==> {
                &&& forall|k: int| 0 <= k < occupied - from ==> #[trigger] final(self).spec_indices()[from + count + k]
                    == old(self).spec_indices()[from + k]
                &&& forall|i: int| 0 <= i < PAGE_CAP && !(from + count <= i < occupied + count)
                    ==> #[trigger] final(self).spec_indices()[i] == old(self).spec_indices()[i]
            },
    {
        if from == occupied {
            let length = self.bytes.len();
            self.indices[from] = length;
            return;
        }
        shift_indices(&mut self.indices, from, from + count, occupied - from);
    }

    /// Replaces the tokens `from..from + count` of a page of `occupied`
    /// tokens with `count` tokens of `text`: the k-th new token starts at
    /// `text_indices[k]`, and the last one ends at `text_indices[count]`
    /// (or at the end of `text`). The offsets of the following tokens move
    /// by the change of length.
    pub fn rewrite(
        &mut self,
        occupied: ChildCount,
        from: ChildIndex,
        text: &[u8],
        text_indices: &[ByteIndex],
        count: ChildCount,
    )
        requires
            old(self).wf(),
            from + count <= occupied <= PAGE_CAP,
            count > 0,
            indices_wf_except(old(self).spec_indices(), old(self).spec_bytes().len() as int, occupied as int, from + 1, from + count),
            text@.len() > 0,
            text_indices@.len() >= count,
            forall|i: int, j: int| 0 <= i < j < text_indices@.len() ==> #[trigger] text_indices@[i] <= #[trigger] text_indices@[j],
            forall|i: int| 0 <= i < text_indices@.len() ==> #[trigger] text_indices@[i] <= text@.len(),
            old(self).spec_bytes().len() + text@.len() <= isize::MAX,
        ensures
            final(self).wf(),
            rewritten(
                old(self).spec_indices(),
                old(self).spec_bytes(),
                final(self).spec_indices(),
                final(self).spec_bytes(),
                occupied as int,
                from as int,
                text@,
                text_indices@,
                count as int,
            ),
            indices_wf(final(self).spec_indices(), final(self).spec_bytes().len() as int, occupied as int),
    {
        let ghost old_indices = self.indices@;
        let ghost old_bytes = self.bytes@;
        let ghost old_len = old_bytes.len() as int;
        let text_start_byte = text_indices[0];
        let text_end_byte = if count < text_indices.len() {
            text_indices[count]
        } else {
            text.len()
        };
        let sub = &text[text_start_byte..text_end_byte];
        let to = from + count;
        let string_start_byte = self.indices[from];
        let string_end_byte = if to < occupied {
            self.indices[to]
        } else {
            self.bytes.len()
        };
        proof {
            if to < occupied {
                assert(old_indices[from as int] <= old_indices[to as int]);
            }
            assert(old_indices[from as int] <= old_len);
        }
        let diff = self.bytes.write(string_start_byte, string_end_byte, sub);
        let ghost new_len = self.bytes@.len() as int;
        let ghost written = self.bytes@;
        let mut index = from;
        loop
            invariant_except_break
                index < from + count,
            invariant
                from <= index <= from + count,
                old_indices.len() == PAGE_CAP,
                from + count <= occupied <= PAGE_CAP,
                text_indices@.len() >= count,
                forall|i: int, j: int| 0 <= i < j < text_indices@.len() ==> #[trigger] text_indices@[i] <= #[trigger] text_indices@[j],
                text_start_byte == text_indices@[0],
                text_end_byte <= text@.len(),
                forall|k: int| 0 <= k < count ==> #[trigger] text_indices@[k] <= text_end_byte,
                string_start_byte + text@.len() <= isize::MAX,
                forall|i: int| 0 <= i < PAGE_CAP && !(from <= i < index) ==> #[trigger] self.indices@[i] == old_indices[i],
                forall|k: int| 0 <= k < index - from ==> #[trigger] self.indices@[from + k]
                    == text_indices@[k] - text_start_byte + string_start_byte,
                self.bytes@.len() == new_len,
                self.bytes@ == written,
                self.bytes.wf(),
            ensures
                index == from + count,
                forall|i: int| 0 <= i < PAGE_CAP && !(from <= i < index) ==> #[trigger] self.indices@[i] == old_indices[i],
                forall|k: int| 0 <= k < count ==> #[trigger] self.indices@[from + k]
                    == text_indices@[k] - text_start_byte + string_start_byte,
            decreases from + count - index,
        {
            let text_byte = text_indices[index - from];
            assert(text_indices@[0] <= text_indices@[index - from]);
            self.indices[index] = text_byte + string_start_byte - text_start_byte;
            index = index + 1;
            if index >= from + count {
                break;
            }
        }
        proof {
            assert forall|k: int| 0 <= k < count implies #[trigger] text_indices@[k] <= text_end_byte by {
                if count < text_indices@.len() {
                    assert(text_indices@[k] <= text_indices@[count as int]);
                }
            }
        }
        proof {
            assert(text_start_byte <= text_end_byte) by {
                if count < text_indices@.len() {
                    assert(text_indices@[0] <= text_indices@[count as int]);
                }
            }
        }
        if diff > 0 {
            let shift = diff as usize;
            while index < occupied
                invariant
                    old_indices.len() == PAGE_CAP,
                    from + count <= index <= occupied <= PAGE_CAP,
                    shift == diff,
                    forall|i: int| 0 <= i < PAGE_CAP && !(from <= i < index) ==> #[trigger] self.indices@[i] == old_indices[i],
                    forall|k: int| 0 <= k < count ==> #[trigger] self.indices@[from + k]
                        == text_indices@[k] - text_start_byte + string_start_byte,
                    forall|i: int| from + count <= i < index ==> #[trigger] self.indices@[i] == old_indices[i] + diff,
                    forall|i: int| index <= i < occupied ==> #[trigger] old_indices[i] + diff <= new_len,
                    new_len <= isize::MAX,
                    self.bytes@.len() == new_len,
                    self.bytes@ == written,
                    self.bytes.wf(),
                decreases occupied - index,
            {
                self.indices[index] = self.indices[index] + shift;
                index = index + 1;
            }
        } else if diff < 0 {
            let shift = (-diff) as usize;
            while index < occupied
                invariant
                    old_indices.len() == PAGE_CAP,
                    from + count <= index <= occupied <= PAGE_CAP,
                    shift == -diff,
                    forall|i: int| 0 <= i < PAGE_CAP && !(from <= i < index) ==> #[trigger] self.indices@[i] == old_indices[i],
                    forall|k: int| 0 <= k < count ==> #[trigger] self.indices@[from + k]
                        == text_indices@[k] - text_start_byte + string_start_byte,
                    forall|i: int| from + count <= i < index ==> #[trigger] self.indices@[i] == old_indices[i] + diff,
                    forall|i: int| index <= i < occupied ==> #[trigger] old_indices[i] >= shift,
                    self.bytes@.len() == new_len,
                    self.bytes@ == written,
                    self.bytes.wf(),
                decreases occupied - index,
            {
                self.indices[index] = self.indices[index] - shift;
                index = index + 1;
            }
        }
        proof {
            lemma_rewrite_wf(
                old_indices,
                self.indices@,
                old_len,
                new_len,
                occupied as int,
                from as int,
                count as int,
                text_indices@,
                text_start_byte as int,
                text_end_byte as int,
                string_start_byte as int,
                string_end_byte as int,
            );
        }
    }

    /// Copies the tokens `source..source + count` of this page of
    /// `from_occupied` tokens over the tokens
    /// `destination..destination + count` of the page `to` of
    /// `to_occupied` tokens.
    pub fn copy_to(
        &self,
        from_occupied: ChildCount,
        to: &mut Self,
        to_occupied: ChildCount,
        source: ChildIndex,
        destination: ChildIndex,
        count: ChildCount,
    )
        requires
            self.wf(),
            old(to).wf(),
            source + count <= from_occupied <= PAGE_CAP,
            destination + count <= to_occupied <= PAGE_CAP,
            count > 0,
            indices_wf(self.spec_indices(), self.spec_bytes().len() as int, from_occupied as int),
            indices_wf_except(old(to).spec_indices(), old(to).spec_bytes().len() as int, to_occupied as int, destination + 1, destination + count),
            self.spec_bytes().len() > 0,
            old(to).spec_bytes().len() + self.spec_bytes().len() <= isize::MAX,
        ensures
            final(to).wf(),
            rewritten(
                old(to).spec_indices(),
                old(to).spec_bytes(),
                final(to).spec_indices(),
                final(to).spec_bytes(),
                to_occupied as int,
                destination as int,
                self.spec_bytes(),
                self.spec_indices().subrange(
                    source as int,
                    if source + count < from_occupied { source + count + 1 } else { source + count },
                ),
                count as int,
            ),
            indices_wf(final(to).spec_indices(), final(to).spec_bytes().len() as int, to_occupied as int),
    {
        let end = if source + count < from_occupied {
            source + count + 1
        } else {
            source + count
        };
        let all_indices = self.indices.as_slice();
        let text_indices = &all_indices[source..end];
        let text = self.bytes();
        proof {
            assert(text_indices@ =~= self.spec_indices().subrange(source as int, end as int));
            assert forall|i: int, j: int| 0 <= i < j < text_indices@.len() implies #[trigger] text_indices@[i] <= #[trigger] text_indices@[j] by {
                assert(self.spec_indices()[source + i] <= self.spec_indices()[source + j]);
            }
            assert forall|i: int| 0 <= i < text_indices@.len() implies #[trigger] text_indices@[i] <= text@.len() by {
                assert(self.spec_indices()[source + i] <= self.spec_bytes().len());
            }
        }
        to.rewrite(to_occupied, destination, text, text_indices, count);
    }

    /// Removes the tokens `from..from + count` of a page of `occupied`
    /// tokens: their text leaves the string, and the offsets of the
    /// following tokens move down by `count` slots and by the length of the
    /// removed text.
    pub fn deflate(&mut self, occupied: ChildCount, from: ChildIndex, count: ChildCount)
        requires
            old(self).wf(),
            occupied <= PAGE_CAP,
            from + count <= occupied,
            count > 0,
            indices_wf(old(self).spec_indices(), old(self).spec_bytes().len() as int, occupied as int),
        ensures
            final(self).wf(),
            deflated(
                old(self).spec_indices(),
                old(self).spec_bytes(),
                final(self).spec_indices(),
                final(self).spec_bytes(),
                occupied as int,
                from as int,
                count as int,
            ),
            indices_wf(final(self).spec_indices(), final(self).spec_bytes().len() as int, occupied - count),
    {
        let ghost old_indices = self.indices@;
        let ghost old_bytes = self.bytes@;
        let to = from + count;
        let start_byte = self.indices[from];
        let length = self.bytes.len();
        let diff;
        if to < occupied {
            let end_byte = self.indices[to];
            assert(old_indices[from as int] <= old_indices[to as int]);
            diff = end_byte - start_byte;
            self.bytes.shift(end_byte, start_byte, length - end_byte);
            let ghost shifted_view = self.bytes@;
            self.bytes.truncate(length - diff);
            proof {
                let expected = old_bytes.subrange(0, start_byte as int) + old_bytes.subrange(end_byte as int, old_bytes.len() as int);
                assert forall|x: int| 0 <= x < expected.len() implies #[trigger] self.bytes@[x] == expected[x] by {
                    if x >= start_byte {
                        assert(shifted_view[start_byte + (x - start_byte)] == old_bytes[end_byte + (x - start_byte)]);
                    }
                }
                assert(self.bytes@ =~= expected);
            }
        } else {
            diff = length - start_byte;
            self.bytes.truncate(start_byte);
            assert(self.bytes@ =~= old_bytes.subrange(0, start_byte as int) + old_bytes.subrange(length as int, length as int));
        }
        let ghost new_bytes = self.bytes@;
        if to < occupied {
            shift_indices(&mut self.indices, to, from, occupied - to);
            let new_occupied = occupied - count;
            let mut index = from;
            loop
                invariant_except_break
                    index < new_occupied,
                invariant
                    from <= index <= new_occupied,
                    new_occupied == occupied - count,
                    to < occupied,
                    to == from + count,
                    occupied <= PAGE_CAP,
                    old_indices.len() == PAGE_CAP,
                    self.bytes@ == new_bytes,
                    self.bytes.wf(),
                    diff == old_indices[to as int] - old_indices[from as int],
                    indices_wf(old_indices, old_bytes.len() as int, occupied as int),
                    forall|i: int| 0 <= i < from ==> #[trigger] self.indices@[i] == old_indices[i],
                    forall|k: int| 0 <= k < index - from ==> #[trigger] self.indices@[from + k] == old_indices[to + k] - diff,
                    forall|k: int| index - from <= k < occupied - to ==> #[trigger] self.indices@[from + k] == old_indices[to + k],
                    forall|i: int| occupied - count <= i < PAGE_CAP ==> #[trigger] self.indices@[i] == old_indices[i],
                ensures
                    forall|i: int| 0 <= i < from ==> #[trigger] self.indices@[i] == old_indices[i],
                    forall|k: int| 0 <= k < occupied - to ==> #[trigger] self.indices@[from + k] == old_indices[to + k] - diff,
                    forall|i: int| occupied - count <= i < PAGE_CAP ==> #[trigger] self.indices@[i] == old_indices[i],
                    self.bytes@ == new_bytes,
                    self.bytes.wf(),
                decreases new_occupied - index,
            {
                assert(self.indices@[from + (index - from)] == old_indices[to + (index - from)]);
                assert(old_indices[to as int] <= old_indices[to + (index - from)]);
                self.indices[index] = self.indices[index] - diff;
                index = index + 1;
                if index >= new_occupied {
                    break;
                }
            }
        }
        proof {
            let new_occupied = occupied - count;
            let new_indices = self.indices@;
            let new_len = self.bytes@.len() as int;
            if to < occupied {
                assert forall|i: int| 0 <= i < new_occupied implies #[trigger] new_indices[i] <= new_len by {
                    if i < from {
                        assert(old_indices[i] <= old_indices[from as int]);
                    } else {
                        assert(new_indices[from + (i - from)] == old_indices[to + (i - from)] - diff);
                        assert(old_indices[to + (i - from)] <= old_bytes.len());
                    }
                }
                assert forall|i: int, j: int| 0 <= i < j < new_occupied implies #[trigger] new_indices[i] <= #[trigger] new_indices[j] by {
                    if j < from {
                        assert(old_indices[i] <= old_indices[j]);
                    } else {
                        assert(new_indices[from + (j - from)] == old_indices[to + (j - from)] - diff);
                        assert(old_indices[to as int] <= old_indices[to + (j - from)]);
                        if i < from {
                            assert(old_indices[i] <= old_indices[from as int]);
                        } else {
                            assert(new_indices[from + (i - from)] == old_indices[to + (i - from)] - diff);
                            assert(old_indices[to + (i - from)] <= old_indices[to + (j - from)]);
                        }
                    }
                }
            } else {
                assert forall|i: int| 0 <= i < new_occupied implies #[trigger] new_indices[i] <= new_len by {
                    assert(old_indices[i] <= old_indices[from as int]);
                }
                assert forall|i: int, j: int| 0 <= i < j < new_occupied implies #[trigger] new_indices[i] <= #[trigger] new_indices[j] by {
                    assert(old_indices[i] <= old_indices[j]);
                }
            }
        }
    }
}

impl Default for Bytes {
    /// An empty text, kept in place.
    fn default() -> (result: Self)
        ensures
            result.wf(),
            result@ == Seq::<u8>::empty(),
    {
        Bytes::new()
    }
}

impl Default for PageString {
    /// A page without text, all byte indices zero.
    fn default() -> (result: Self)
        ensures
            result.wf(),
            result.spec_bytes() == Seq::<u8>::empty(),
            forall|i: int| 0 <= i < PAGE_CAP ==> #[trigger] result.spec_indices()[i] == 0,
    {
        PageString::new()
    }
}

} // verus!

verus! {

/// What a read gives back of a write: after the tokens `from..from + count`
/// of a page are rewritten from `text`, each of them reads as the matching
/// token of `text`, and every other token of the page reads as before.
pub proof fn law_rewrite_reads_back(
    old_indices: Seq<ByteIndex>,
    old_bytes: Seq<u8>,
    new_indices: Seq<ByteIndex>,
    new_bytes: Seq<u8>,
    occupied: int,
    from: int,
    text: Seq<u8>,
    text_indices: Seq<ByteIndex>,
    count: int,
)
    requires
        0 <= from,
        count > 0,
        from + count <= occupied <= PAGE_CAP,
        indices_wf_except(old_indices, old_bytes.len() as int, occupied, from + 1, from + count),
        text_indices.len() >= count,
        forall|i: int, j: int| 0 <= i < j < text_indices.len() ==> #[trigger] text_indices[i] <= #[trigger] text_indices[j],
        forall|i: int| 0 <= i < text_indices.len() ==> #[trigger] text_indices[i] <= text.len(),
        rewritten(old_indices, old_bytes, new_indices, new_bytes, occupied, from, text, text_indices, count),
    ensures
        forall|k: int| 0 <= k < count ==> #[trigger] page_token(new_indices, new_bytes, occupied, from + k)
            == text.subrange(
                text_indices[k] as int,
                if k + 1 < count {
                    text_indices[k + 1] as int
                } else if count < text_indices.len() {
                    text_indices[count] as int
                } else {
                    text.len() as int
                },
            ),
        forall|i: int| (0 <= i < from || from + count <= i < occupied)
            ==> #[trigger] page_token(new_indices, new_bytes, occupied, i) == page_token(old_indices, old_bytes, occupied, i),
{
    let to = from + count;
    let old_len = old_bytes.len() as int;
    let text_start = text_indices[0] as int;
    let text_end = if count < text_indices.len() { text_indices[count] as int } else { text.len() as int };
    let string_start = old_indices[from] as int;
    let string_end = if to < occupied { old_indices[to] as int } else { old_len };
    let diff = (text_end - text_start) - (string_end - string_start);
    assert(string_start <= string_end <= old_len) by {
        if to < occupied {
            assert(old_indices[from] <= old_indices[to]);
        }
    }
    assert(text_start <= text_end) by {
        if count < text_indices.len() {
            assert(text_indices[0] <= text_indices[count]);
        }
    }
    let new_len = new_bytes.len() as int;
    assert(new_len == old_len + diff);
    assert forall|x: int| 0 <= x < string_start implies #[trigger] new_bytes[x] == old_bytes[x] by {}
    assert forall|x: int| text_start <= x < text_end implies #[trigger] new_bytes[x - text_start + string_start] == text[x] by {}
    assert forall|x: int| string_end <= x < old_len implies #[trigger] new_bytes[x + diff] == old_bytes[x] by {}
    assert forall|k: int| 0 <= k < count implies #[trigger] page_token(new_indices, new_bytes, occupied, from + k)
        == text.subrange(
            text_indices[k] as int,
            if k + 1 < count {
                text_indices[k + 1] as int
            } else if count < text_indices.len() {
                text_indices[count] as int
            } else {
                text.len() as int
            },
        ) by {
        let start = text_indices[k] as int;
        let end = if k + 1 < count { text_indices[k + 1] as int } else { text_end };
        assert(text_indices[0] <= text_indices[k]);
        if k + 1 < count {
            assert(text_indices[k] <= text_indices[k + 1]);
            assert(new_indices[from + (k + 1)] == text_indices[k + 1] - text_start + string_start);
            if count < text_indices.len() {
                assert(text_indices[k + 1] <= text_indices[count]);
            }
        } else {
            if count < text_indices.len() {
                assert(text_indices[k] <= text_indices[count]);
            }
            if to < occupied {
                assert(new_indices[to] == old_indices[to] + diff);
            }
        }
        let token = page_token(new_indices, new_bytes, occupied, from + k);
        assert(token =~= text.subrange(start, end)) by {
            assert forall|y: int| 0 <= y < end - start implies token[y] == text.subrange(start, end)[y] by {
                assert(new_bytes[(start + y) - text_start + string_start] == text[start + y]);
            }
        }
    }
    assert forall|i: int| (0 <= i < from || to <= i < occupied) implies
        #[trigger] page_token(new_indices, new_bytes, occupied, i) == page_token(old_indices, old_bytes, occupied, i) by {
        let old_token = page_token(old_indices, old_bytes, occupied, i);
        let new_token = page_token(new_indices, new_bytes, occupied, i);
        if i < from {
            assert(old_indices[i] <= old_indices[from]);
            let end = token_end(old_indices, old_len, occupied, i);
            if i + 1 < from {
                assert(old_indices[i + 1] <= old_indices[from]);
            } else {
                assert(new_indices[from + 0] == text_indices[0] - text_start + string_start);
            }
            assert(end <= string_start);
            assert(old_indices[i] <= end) by {
                if i + 1 < from {
                    assert(old_indices[i] <= old_indices[i + 1]);
                }
            }
            assert(new_token =~= old_token) by {
                assert forall|y: int| 0 <= y < old_token.len() implies new_token[y] == old_token[y] by {
                    assert(new_bytes[old_indices[i] + y] == old_bytes[old_indices[i] + y]);
                }
            }
        } else {
            if to < occupied {
                assert(old_indices[to] <= old_indices[i]);
            }
            assert(string_end <= old_indices[i]);
            let end = token_end(old_indices, old_len, occupied, i);
            if i + 1 < occupied {
                assert(old_indices[i] <= old_indices[i + 1]);
                assert(old_indices[i + 1] <= old_len);
                assert(new_indices[i + 1] == old_indices[i + 1] + diff);
            }
            assert(old_indices[i] <= end <= old_len);
            assert(new_token =~= old_token) by {
                assert forall|y: int| 0 <= y < old_token.len() implies new_token[y] == old_token[y] by {
                    assert(new_bytes[(old_indices[i] + y) + diff] == old_bytes[old_indices[i] + y]);
                }
            }
        }
    }
}

} // verus!

verus! {

/// Removing tokens keeps every other token: after the tokens
/// `from..from + count` of a page are removed, the tokens before them read
/// as before, and each following token reads as the token `count` slots
/// further in the page before the removal.
pub proof fn law_deflate_keeps_other_tokens(
    old_indices: Seq<ByteIndex>,
    old_bytes: Seq<u8>,
    new_indices: Seq<ByteIndex>,
    new_bytes: Seq<u8>,
    occupied: int,
    from: int,
    count: int,
)
    requires
        0 <= from,
        count > 0,
        from + count <= occupied <= PAGE_CAP,
        indices_wf(old_indices, old_bytes.len() as int, occupied),
        deflated(old_indices, old_bytes, new_indices, new_bytes, occupied, from, count),
    ensures
        forall|i: int| 0 <= i < from ==> #[trigger] page_token(new_indices, new_bytes, occupied - count, i)
            == page_token(old_indices, old_bytes, occupied, i),
        forall|i: int| from <= i < occupied - count ==> #[trigger] page_token(new_indices, new_bytes, occupied - count, i)
            == page_token(old_indices, old_bytes, occupied, i + count),
{
    let to = from + count;
    let old_len = old_bytes.len() as int;
    let start = old_indices[from] as int;
    let end = if to < occupied { old_indices[to] as int } else { old_len };
    let diff = end - start;
    assert(start <= end <= old_len) by {
        if to < occupied {
            assert(old_indices[from] <= old_indices[to]);
        }
    }
    assert forall|x: int| 0 <= x < start implies #[trigger] new_bytes[x] == old_bytes[x] by {}
    assert forall|x: int| end <= x < old_len implies #[trigger] new_bytes[x - diff] == old_bytes[x] by {}
    assert forall|i: int| 0 <= i < from implies #[trigger] page_token(new_indices, new_bytes, occupied - count, i)
        == page_token(old_indices, old_bytes, occupied, i) by {
        let old_token = page_token(old_indices, old_bytes, occupied, i);
        let new_token = page_token(new_indices, new_bytes, occupied - count, i);
        assert(old_indices[i] <= old_indices[from]);
        if i + 1 < from {
            assert(old_indices[i + 1] <= old_indices[from]);
            assert(old_indices[i] <= old_indices[i + 1]);
        } else if to < occupied {
            assert(new_indices[from + 0] == old_indices[to + 0] - diff);
        }
        assert(new_token =~= old_token) by {
            assert forall|y: int| 0 <= y < old_token.len() implies new_token[y] == old_token[y] by {
                assert(new_bytes[old_indices[i] + y] == old_bytes[old_indices[i] + y]);
            }
        }
    }
    assert forall|i: int| from <= i < occupied - count implies #[trigger] page_token(new_indices, new_bytes, occupied - count, i)
        == page_token(old_indices, old_bytes, occupied, i + count) by {
        let old_token = page_token(old_indices, old_bytes, occupied, i + count);
        let new_token = page_token(new_indices, new_bytes, occupied - count, i);
        assert(new_indices[from + (i - from)] == old_indices[to + (i - from)] - diff);
        assert(old_indices[to] <= old_indices[i + count]);
        assert(old_indices[i + count] <= old_len);
        if i + 1 < occupied - count {
            assert(new_indices[from + (i + 1 - from)] == old_indices[to + (i + 1 - from)] - diff);
            assert(old_indices[i + count] <= old_indices[i + count + 1]);
            assert(old_indices[i + count + 1] <= old_len);
        }
        assert(new_token =~= old_token) by {
            assert forall|y: int| 0 <= y < old_token.len() implies new_token[y] == old_token[y] by {
                assert(new_bytes[(old_indices[i + count] + y) - diff] == old_bytes[old_indices[i + count] + y]);
            }
        }
    }
}

} // verus!
