use vstd::prelude::*;
use crate::util::filled_vec;
use utf8_iter::Utf8CharsEx;

verus! {

/// `text` with `s` put in at `index`.
pub open spec fn inserted(text: Seq<u8>, index: int, s: Seq<u8>) -> Seq<u8> {
    text.subrange(0, index) + s + text.subrange(index, text.len() as int)
}

/// `text` without the `n` bytes that end at `index`.
pub open spec fn deleted_before(text: Seq<u8>, index: int, n: int) -> Seq<u8> {
    text.subrange(0, index - n) + text.subrange(index, text.len() as int)
}

/// Deleting the bytes just inserted gives the text back.
pub proof fn lemma_delete_undoes_insert(text: Seq<u8>, index: int, s: Seq<u8>)
    requires
        0 <= index <= text.len(),
    ensures
        deleted_before(inserted(text, index, s), index + s.len(), s.len() as int) == text,
{
    let t2 = inserted(text, index, s);
    assert(t2.subrange(0, index) =~= text.subrange(0, index));
    assert(t2.subrange(index + s.len(), t2.len() as int) =~= text.subrange(index, text.len() as int));
    assert(deleted_before(t2, index + s.len(), s.len() as int) =~= text);
}

/// The `(byte offset, character)` pairs that `utf8_iter` decodes from `bytes`, U+FFFD standing
/// for each ill-formed piece.
pub uninterp spec fn utf8_char_indices(bytes: Seq<u8>) -> Seq<(usize, char)>;

/// `Utf8CharsEx::char_indices` of `utf8_iter`, collected. Its source yields, for each
/// character it decodes, the byte offset where the character starts, so the offsets rise and
/// stay inside the bytes; on well-formed UTF-8 the characters are the text's own, as with
/// `str::char_indices`. What ill-formed input gives is left to the name.
#[verifier::external_body]
fn char_indices_of(bytes: &[u8]) -> (r: Vec<(usize, char)>)
    ensures
        r@ == utf8_char_indices(bytes@),
        forall|k: int| 0 <= k < r@.len() ==> (#[trigger] r@[k]).0 < bytes@.len(),
        forall|a: int, b: int| 0 <= a < b < r@.len() ==> (#[trigger] r@[a]).0 < (#[trigger] r@[b]).0,
        vstd::utf8::valid_utf8(bytes@) ==> r@.map_values(|e: (usize, char)| e.1) == vstd::utf8::decode_utf8(bytes@),
{
    bytes.char_indices().collect()
}

/// A view of bytes held in two pieces, as a gap buffer hands out the text on either side of
/// its gap.
pub struct GapBytes<'a> {
    left: &'a [u8],
    right: &'a [u8],
}

impl<'a> GapBytes<'a> {
    /// The bytes in order: the left piece, then the right one.
    pub closed spec fn view(&self) -> Seq<u8> {
        self.left@ + self.right@
    }

    pub closed spec fn left_view(&self) -> Seq<u8> {
        self.left@
    }

    pub closed spec fn right_view(&self) -> Seq<u8> {
        self.right@
    }

    pub fn new(left: &'a [u8], right: &'a [u8]) -> (r: GapBytes<'a>)
        ensures
            r.left_view() == left@,
            r.right_view() == right@,
    {
        GapBytes { left, right }
    }

    pub fn empty() -> (r: GapBytes<'a>)
        ensures
            r.left_view() == Seq::<u8>::empty(),
            r.right_view() == Seq::<u8>::empty(),
    {
        GapBytes { left: &[], right: &[] }
    }

    pub fn len(&self) -> (r: usize)
        requires
            self.left_view().len() + self.right_view().len() <= usize::MAX,
        ensures
            r == self.view().len(),
    {
        self.left.len() + self.right.len()
    }

    pub fn left(&self) -> (r: &'a [u8])
        ensures
            r@ == self.left_view(),
    {
        self.left
    }

    pub fn right(&self) -> (r: &'a [u8])
        ensures
            r@ == self.right_view(),
    {
        self.right
    }

    /// The two pieces decoded as UTF-8, each on its own, with U+FFFD for what does not
    /// decode.
    pub fn as_str(&self) -> (r: (String, String))
        ensures
            r.0@ == crate::text_util::lossy_text(self.left_view()),
            r.1@ == crate::text_util::lossy_text(self.right_view()),
    {
        (crate::text_util::utf8_lossy(self.left), crate::text_util::utf8_lossy(self.right))
    }

    /// The bytes in `[start, end)`. A range that begins in the left piece and ends in the
    /// right one keeps the whole left piece.
    pub fn text(&self, start: usize, end: usize) -> (r: GapBytes<'a>)
        requires
            start <= end <= self.view().len(),
        ensures
            (start < self.left_view().len() && end > self.left_view().len()) ==> r.view()
                == self.left_view() + self.right_view().subrange(
                0,
                end - self.left_view().len(),
            ),
            !(start < self.left_view().len() && end > self.left_view().len()) ==> r.view()
                == self.view().subrange(start as int, end as int),
    {
        let l = self.left.len();
        if start < l {
            if end <= l {
                let r = GapBytes { left: &self.left[start..end], right: &[] };
                proof {
                    assert(r.view() =~= self.view().subrange(start as int, end as int));
                }
                r
            } else {
                GapBytes { left: self.left, right: &self.right[0..end - l] }
            }
        } else if self.right.len() > 0 {
            let r = GapBytes { left: &[], right: &self.right[start - l..end - l] };
            proof {
                assert(r.view() =~= self.view().subrange(start as int, end as int));
            }
            r
        } else {
            let r = GapBytes { left: &[], right: &[] };
            proof {
                assert(r.view() =~= self.view().subrange(start as int, end as int));
            }
            r
        }
    }

    /// The characters of the two pieces, each piece decoded on its own, with the byte offset
    /// of each in the whole view.
    pub fn char_indices(&self) -> (r: Vec<(usize, char)>)
        requires
            self.left_view().len() + self.right_view().len() <= usize::MAX,
        ensures
            r@ == utf8_char_indices(self.left_view()) + utf8_char_indices(self.right_view()).map_values(
                |e: (usize, char)| ((e.0 + self.left_view().len()) as usize, e.1),
            ),
    {
        let mut out = char_indices_of(self.left);
        let right = char_indices_of(self.right);
        let l = self.left.len();
        let ghost left0 = out@;
        let mut k: usize = 0;
        while k < right.len()
            invariant
                k <= right@.len(),
                l == self.left@.len(),
                l + self.right@.len() <= usize::MAX,
                right@ == utf8_char_indices(self.right@),
                forall|q: int| 0 <= q < right@.len() ==> (#[trigger] right@[q]).0 < self.right@.len(),
                out@ == left0 + right@.take(k as int).map_values(|e: (usize, char)| ((e.0 + l) as usize, e.1)),
            decreases right@.len() - k,
        {
            let (i, c) = right[k];
            assert(right@[k as int].0 < self.right@.len());
            out.push((i + l, c));
            proof {
                assert(right@.take(k + 1).map_values(|e: (usize, char)| ((e.0 + l) as usize, e.1)) =~= right@.take(
                    k as int,
                ).map_values(|e: (usize, char)| ((e.0 + l) as usize, e.1)).push(((i + l) as usize, c)));
            }
            k = k + 1;
        }
        proof {
            assert(right@.take(right@.len() as int) =~= right@);
        }
        out
    }

    /// The bytes in order, in one vector.
    pub fn iter(&self) -> (r: Vec<u8>)
        ensures
            r@ == self.view(),
    {
        let mut out: Vec<u8> = Vec::new();
        let mut i: usize = 0;
        while i < self.left.len()
            invariant
                i <= self.left@.len(),
                out@ == self.left@.subrange(0, i as int),
            decreases self.left@.len() - i,
        {
            out.push(self.left[i]);
            i = i + 1;
        }
        let mut j: usize = 0;
        while j < self.right.len()
            invariant
                j <= self.right@.len(),
                out@ == self.left@ + self.right@.subrange(0, j as int),
            decreases self.right@.len() - j,
        {
            out.push(self.right[j]);
            j = j + 1;
        }
        proof {
            assert(out@ =~= self.view());
        }
        out
    }
}

/// A byte buffer with a movable gap, so that edits near the gap move few bytes.
pub struct GapBuffer {
    buffer: Vec<u8>,
    gap_start: usize,
    gap_end: usize,
}

impl GapBuffer {
    /// The text: the bytes before the gap, then those after it.
    pub closed spec fn view(&self) -> Seq<u8> {
        self.buffer@.subrange(0, self.gap_start as int) + self.buffer@.subrange(
            self.gap_end as int,
            self.buffer@.len() as int,
        )
    }

    /// Where the gap sits in the text.
    pub closed spec fn gap_position(&self) -> nat {
        self.gap_start as nat
    }

    /// The bytes the gap can take before the buffer grows.
    pub closed spec fn spare(&self) -> nat {
        (self.gap_end - self.gap_start) as nat
    }

    pub closed spec fn capacity(&self) -> nat {
        self.buffer@.len()
    }

    pub closed spec fn wf(&self) -> bool {
        &&& self.gap_start <= self.gap_end <= self.buffer@.len()
        &&& self.buffer@.len() <= usize::MAX / 2
    }

    pub proof fn lemma_view_len(&self)
        requires
            self.wf(),
        ensures
            self.view().len() + self.spare() == self.capacity(),
            self.gap_position() <= self.view().len(),
    {
    }

    pub fn new(size: usize) -> (r: GapBuffer)
        requires
            size <= usize::MAX / 2,
        ensures
            r.wf(),
            r.view() == Seq::<u8>::empty(),
            r.capacity() == size,
            r.gap_position() == 0,
    {
        let r = GapBuffer { buffer: filled_vec(0u8, size), gap_start: 0, gap_end: size };
        proof {
            assert(r.view() =~= Seq::<u8>::empty());
        }
        r
    }

    pub fn gap_size(&self) -> (r: usize)
        requires
            self.wf(),
        ensures
            r == self.spare(),
    {
        self.gap_end - self.gap_start
    }

    pub fn text_len(&self) -> (r: usize)
        requires
            self.wf(),
        ensures
            r == self.view().len(),
    {
        self.buffer.len() - (self.gap_end - self.gap_start)
    }

    /// The text in `[start, end)`, handed out as the pieces on either side of the gap.
    pub fn get_text(&self, start: usize, end: usize) -> (r: GapBytes<'_>)
        requires
            self.wf(),
            start <= end <= self.view().len(),
        ensures
            r.view() == self.view().subrange(start as int, end as int),
    {
        let gap = self.gap_end - self.gap_start;
        if start < self.gap_start {
            if end <= self.gap_start {
                let r = GapBytes { left: &self.buffer[start..end], right: &[] };
                proof {
                    assert(r.view() =~= self.view().subrange(start as int, end as int));
                }
                r
            } else {
                let r = GapBytes {
                    left: &self.buffer[start..self.gap_start],
                    right: &self.buffer[self.gap_end..end + gap],
                };
                proof {
                    assert(r.view() =~= self.view().subrange(start as int, end as int));
                }
                r
            }
        } else {
            let r = GapBytes { left: &[], right: &self.buffer[start + gap..end + gap] };
            proof {
                assert(r.view() =~= self.view().subrange(start as int, end as int));
            }
            r
        }
    }

    /// The whole storage, gap included.
    pub fn get_buffer(&self) -> (r: &[u8])
        requires
            self.wf(),
        ensures
            r@.len() == self.capacity(),
            r@.take(self.gap_position() as int) + r@.skip((self.gap_position() + self.spare()) as int) == self.view(),
    {
        self.buffer.as_slice()
    }

    /// Moves the gap so that it starts at `index` of the text; an index past the end of the
    /// text changes nothing.
    pub fn move_gap_to(&mut self, index: usize)
        requires
            old(self).wf(),
        ensures
            final(self).wf(),
            final(self).view() == old(self).view(),
            final(self).spare() == old(self).spare(),
            final(self).capacity() == old(self).capacity(),
            index <= old(self).view().len() ==> final(self).gap_position() == index,
            index > old(self).view().len() ==> final(self).gap_position() == old(self).gap_position(),
    {
        if index > self.text_len() {
            return;
        }
        let ghost old_buf = self.buffer@;
        let ghost gs = self.gap_start as int;
        let ghost ge = self.gap_end as int;
        let ghost old_view = self.view();
        if index < self.gap_start {
            let shift = self.gap_start - index;
            let mut i: usize = 0;
            while i < shift
                invariant
                    self.gap_start == gs,
                    self.gap_end == ge,
                    shift == gs - index,
                    0 <= index < gs <= ge <= old_buf.len(),
                    i <= shift,
                    self.buffer@.len() == old_buf.len(),
                    forall|x: int|
                        0 <= x < old_buf.len() ==> #[trigger] self.buffer@[x] == if ge - i <= x
                            < ge {
                            old_buf[x - (ge - gs)]
                        } else {
                            old_buf[x]
                        },
                decreases shift - i,
            {
                let v = self.buffer[self.gap_start - 1 - i];
                let d = self.gap_end - 1 - i;
                self.buffer.set(d, v);
                i = i + 1;
            }
            self.gap_start = index;
            self.gap_end = self.gap_end - shift;
            proof {
                assert(self.view() =~= old_view);
            }
        } else if index > self.gap_start {
            let shift = index - self.gap_start;
            let mut i: usize = 0;
            while i < shift
                invariant
                    self.gap_start == gs,
                    self.gap_end == ge,
                    shift == index - gs,
                    gs < index,
                    gs <= ge,
                    ge + shift <= old_buf.len(),
                    old_buf.len() <= usize::MAX / 2,
                    i <= shift,
                    self.buffer@.len() == old_buf.len(),
                    forall|x: int|
                        0 <= x < old_buf.len() ==> #[trigger] self.buffer@[x] == if gs <= x < gs
                            + i {
                            old_buf[x + (ge - gs)]
                        } else {
                            old_buf[x]
                        },
                decreases shift - i,
            {
                let v = self.buffer[self.gap_end + i];
                let d = self.gap_start + i;
                self.buffer.set(d, v);
                i = i + 1;
            }
            self.gap_start = self.gap_start + shift;
            self.gap_end = self.gap_end + shift;
            proof {
                assert(self.view() =~= old_view);
            }
        }
    }

    /// Moves the gap to the end of the text.
    pub fn move_gap_to_last(&mut self)
        requires
            old(self).wf(),
        ensures
            final(self).wf(),
            final(self).view() == old(self).view(),
            final(self).spare() == old(self).spare(),
            final(self).capacity() == old(self).capacity(),
            final(self).gap_position() == old(self).view().len(),
    {
        let len = self.text_len();
        self.move_gap_to(len);
    }

    /// Makes room for at least `n` bytes in the gap, growing the storage to the larger of
    /// twice its size and its size plus `n`.
    pub fn expand_gap(&mut self, n: usize)
        requires
            old(self).wf(),
            old(self).capacity() + n <= usize::MAX / 4,
        ensures
            final(self).wf(),
            final(self).view() == old(self).view(),
            final(self).gap_position() == old(self).gap_position(),
            final(self).spare() >= n,
            old(self).spare() >= n ==> final(self).capacity() == old(self).capacity(),
            final(self).capacity() <= 2 * old(self).capacity() + n,
    {
        if self.gap_end - self.gap_start >= n {
            return;
        }
        let len = self.buffer.len();
        let mut new_cap = len * 2;
        if new_cap < len + n {
            new_cap = len + n;
        }
        let ghost old_view = self.view();
        let mut new_buffer: Vec<u8> = filled_vec(0u8, new_cap);
        let mut i: usize = 0;
        while i < self.gap_start
            invariant
                self.wf(),
                len == self.buffer@.len(),
                new_cap >= len + n,
                i <= self.gap_start,
                new_buffer@.len() == new_cap,
                forall|k: int| 0 <= k < i ==> new_buffer@[k] == self.buffer@[k],
            decreases self.gap_start - i,
        {
            new_buffer.set(i, self.buffer[i]);
            i = i + 1;
        }
        let tail = len - self.gap_end;
        let new_gap_end = new_cap - tail;
        let mut j: usize = 0;
        while j < tail
            invariant
                self.wf(),
                len == self.buffer@.len(),
                tail == len - self.gap_end,
                new_gap_end == new_cap - tail,
                new_cap >= len + n,
                n > self.gap_end - self.gap_start,
                j <= tail,
                new_buffer@.len() == new_cap,
                forall|k: int| 0 <= k < self.gap_start ==> new_buffer@[k] == self.buffer@[k],
                forall|k: int|
                    new_gap_end <= k < new_gap_end + j ==> #[trigger] new_buffer@[k]
                        == self.buffer@[k - new_gap_end + self.gap_end],
            decreases tail - j,
        {
            new_buffer.set(new_gap_end + j, self.buffer[self.gap_end + j]);
            j = j + 1;
        }
        self.buffer = new_buffer;
        self.gap_end = new_gap_end;
        proof {
            assert(self.view() =~= old_view);
        }
    }

    /// Puts `text` into the text at `index`, or at the gap when `index` is past the end of
    /// the text; the gap ends up just after the new bytes.
    pub fn insert(&mut self, index: usize, text: &[u8])
        requires
            old(self).wf(),
            old(self).capacity() + text@.len() <= usize::MAX / 4,
        ensures
            final(self).wf(),
            final(self).capacity() <= 2 * old(self).capacity() + text@.len(),
            text@.len() == 0 ==> final(self).view() == old(self).view() && final(self).gap_position() == old(self).gap_position(),
            text@.len() > 0 && index <= old(self).view().len() ==> final(self).view() == inserted(
                old(self).view(),
                index as int,
                text@,
            ) && final(self).gap_position() == index + text@.len(),
            text@.len() > 0 && index > old(self).view().len() ==> final(self).view() == inserted(
                old(self).view(),
                old(self).gap_position() as int,
                text@,
            ) && final(self).gap_position() == old(self).gap_position() + text@.len(),
    {
        if text.len() == 0 {
            return;
        }
        self.move_gap_to(index);
        let text_len = text.len();
        if self.gap_end - self.gap_start < text_len {
            self.expand_gap(text_len);
        }
        let ghost mid_view = self.view();
        let ghost gs = self.gap_start as int;
        let ghost mid_buf = self.buffer@;
        let ghost ge = self.gap_end as int;
        let mut i: usize = 0;
        while i < text_len
            invariant
                self.wf(),
                self.gap_start == gs,
                self.gap_end == ge,
                self.gap_end - self.gap_start >= text_len,
                text_len == text@.len(),
                self.buffer@.len() == mid_buf.len(),
                i <= text_len,
                forall|k: int| 0 <= k < mid_buf.len() ==> #[trigger] self.buffer@[k] == if gs <= k
                    < gs + i {
                    text@[k - gs]
                } else {
                    mid_buf[k]
                },
            decreases text_len - i,
        {
            let d = self.gap_start + i;
            self.buffer.set(d, text[i]);
            i = i + 1;
        }
        self.gap_start = self.gap_start + text_len;
        proof {
            let nv = self.view();
            let tl = text_len as int;
            let want = inserted(mid_view, gs, text@);
            assert(nv.len() == want.len());
            assert forall|k: int| 0 <= k < nv.len() implies nv[k] == want[k] by {
                if k < gs {
                    assert(nv[k] == self.buffer@[k]);
                } else if k < gs + tl {
                    assert(nv[k] == self.buffer@[k]);
                    assert(want[k] == text@[k - gs]);
                } else {
                    assert(nv[k] == self.buffer@[ge + (k - gs - tl)]);
                    assert(want[k] == mid_view[k - tl]);
                }
            }
            assert(nv =~= want);
        }
    }

    /// Deletes the byte before `index`.
    pub fn backspace(&mut self, index: usize)
        requires
            old(self).wf(),
        ensures
            final(self).wf(),
            final(self).capacity() == old(self).capacity(),
            final(self).view() == deletion_result(
                old(self).view(),
                old(self).gap_position() as int,
                index as int,
                1,
            ),
    {
        self.delete(index, 1);
    }

    /// Deletes the `len` bytes before `index` (an `index` below `len` counts as `len`).
    /// When that position is past the end of the text, the bytes before the gap go instead.
    /// Index 0 deletes nothing.
    pub fn delete(&mut self, index: usize, len: usize)
        requires
            old(self).wf(),
        ensures
            final(self).wf(),
            final(self).capacity() == old(self).capacity(),
            final(self).view() == deletion_result(
                old(self).view(),
                old(self).gap_position() as int,
                index as int,
                len as int,
            ),
    {
        if index == 0 {
            return;
        }
        let mut index = index;
        if index < len {
            index = len;
        }
        self.move_gap_to(index);
        proof {
            self.lemma_view_len();
        }
        let ghost v = self.view();
        let ghost b = self.buffer@;
        let ghost gs = self.gap_start as int;
        self.gap_start = self.gap_start.saturating_sub(len);
        proof {
            let m = if len < gs { len as int } else { gs };
            assert(self.view() =~= deleted_before(v, gs, m));
        }
    }
}

/// The text that `GapBuffer::delete(index, len)` leaves, for a buffer holding `text` with its
/// gap at `gap`.
pub open spec fn deletion_result(text: Seq<u8>, gap: int, index: int, len: int) -> Seq<u8> {
    let at = if index < len { len } else { index };
    if index == 0 {
        text
    } else if at <= text.len() {
        deleted_before(text, at, len)
    } else {
        deleted_before(text, gap, if len < gap { len } else { gap })
    }
}

} // verus!
