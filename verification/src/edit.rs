use vstd::prelude::*;
use crate::command::{chars_of, string_of};
use crate::gap_buffer::{deleted_before, deletion_result, inserted, GapBuffer};
use crate::text::{char_cols, cols, lemma_wrap_rows_prefix, lemma_wrap_shape, wrap_rows, wrap_step, wrap_upto};
use crate::text_util::{lossy_text, push_char, utf8_lossy};
use crate::util::filled_vec;
use vstd::string::StringSliceAdditionalSpecFns;
use vstd::utf8::encode_utf8;

verus! {

/// Pages are grouped by this many when their starts are recorded.
pub const EDIT_PAGE_GROUP: usize = 1;

/// Where a displayed row of the editor sits: its length in bytes, its page and row number,
/// the line it belongs to and its byte offset in that line.
#[derive(Debug)]
pub struct EditLineMeta {
    txt_len: usize,
    page_num: usize,
    line_num: usize,
    line_index: usize,
    line_offset: usize,
}

impl Default for EditLineMeta {
    fn default() -> (r: EditLineMeta)
        ensures
            r.fields() == (0nat, 0nat, 0nat, 0nat, 0nat),
    {
        EditLineMeta { txt_len: 0, page_num: 0, line_num: 0, line_index: 0, line_offset: 0 }
    }
}

impl EditLineMeta {
    pub closed spec fn fields(&self) -> (nat, nat, nat, nat, nat) {
        (self.txt_len as nat, self.page_num as nat, self.line_num as nat, self.line_index as nat, self.line_offset as nat)
    }

    pub fn new(txt_len: usize, page_num: usize, line_num: usize, line_index: usize, line_offset: usize) -> (r: EditLineMeta)
        ensures
            r.fields() == (txt_len as nat, page_num as nat, line_num as nat, line_index as nat, line_offset as nat),
    {
        EditLineMeta { txt_len, page_num, line_num, line_index, line_offset }
    }

    pub fn get_line_num(&self) -> (r: usize)
        ensures
            r == self.fields().2,
    {
        self.line_num
    }

    pub fn get_page_num(&self) -> (r: usize)
        ensures
            r == self.fields().1,
    {
        self.page_num
    }

    pub fn get_line_offset(&self) -> (r: usize)
        ensures
            r == self.fields().4,
    {
        self.line_offset
    }

    /// The byte offset just past the row.
    pub fn get_line_end(&self) -> (r: usize)
        requires
            self.fields().4 + self.fields().0 <= usize::MAX,
        ensures
            r == self.fields().4 + self.fields().0,
    {
        self.line_offset + self.txt_len
    }

    pub fn get_line_index(&self) -> (r: usize)
        ensures
            r == self.fields().3,
    {
        self.line_index
    }

    pub fn get_txt_len(&self) -> (r: usize)
        ensures
            r == self.fields().0,
    {
        self.txt_len
    }
}

/// Where a page starts: a line and a byte offset in it.
#[derive(Debug, Clone, Copy)]
pub struct PageOffset {
    pub line_index: usize,
    pub line_start: usize,
}

/// The bytes UTF-8 takes for a character.
pub open spec fn utf8_size(c: char) -> nat {
    if (c as u32) < 0x80 {
        1
    } else if (c as u32) < 0x800 {
        2
    } else if (c as u32) < 0x10000 {
        3
    } else {
        4
    }
}

/// The bytes UTF-8 takes for a character.
pub fn utf8_len(c: char) -> (r: usize)
    ensures
        r == utf8_size(c),
        1 <= r <= 4,
{
    let v = c as u32;
    if v < 0x80 {
        1
    } else if v < 0x800 {
        2
    } else if v < 0x10000 {
        3
    } else {
        4
    }
}

/// The rows a line of `text_len` columns takes at `with` columns: at least one, and the
/// length divided by the width, rounded up (no width: as many as can be counted).
pub open spec fn lines_for(text_len: nat, with: nat) -> nat {
    if text_len == 0 {
        1
    } else if with == 0 {
        usize::MAX as nat
    } else {
        ((text_len + with - 1) / (with as int)) as nat
    }
}

/// Where display row `y` (from 1) falls, scanning lines from `i` with `count` rows before
/// them: the line and the row within it; past the last row, the last line's first row.
pub open spec fn locate(lens: Seq<nat>, with: nat, y: nat, i: int, count: nat) -> (int, int)
    decreases lens.len() - i,
{
    if i < 0 || i >= lens.len() {
        (if lens.len() > 0 { lens.len() - 1 } else { 0 }, 0)
    } else {
        let c = lines_for(lens[i], with);
        if y <= count + c {
            (i, c - (count + c - y) - 1)
        } else {
            locate(lens, with, y, i + 1, count + c)
        }
    }
}

/// The located line exists when there are lines, and the row is one of its rows.
proof fn lemma_locate_bounds(lens: Seq<nat>, with: nat, y: nat, i: int, count: nat)
    requires
        lens.len() >= 1,
        0 <= i,
        with >= 1,
        count < y,
    ensures
        0 <= locate(lens, with, y, i, count).0 < lens.len(),
        0 <= locate(lens, with, y, i, count).1,
        locate(lens, with, y, i, count).1 * with <= lens[locate(lens, with, y, i, count).0] + with,
    decreases lens.len() - i,
{
    if i < lens.len() {
        let c = lines_for(lens[i], with);
        if y <= count + c {
            let row = c - (count + c - y) - 1;
            let len = lens[i];
            assert(row * with <= len + with) by (nonlinear_arith)
                requires
                    with >= 1,
                    row < c,
                    c == (if len == 0 { 1 } else { (len + with - 1) / (with as int) }),
                    0 <= len;
        } else {
            lemma_locate_bounds(lens, with, y, i + 1, count + c);
        }
    }
}

/// A character takes one to four bytes of UTF-8.
proof fn lemma_encode_char(c: char)
    ensures
        1 <= encode_utf8(seq![c]).len() <= 4,
{
    assert(seq![c].drop_first() =~= Seq::<char>::empty());
    assert(encode_utf8(seq![c]) == vstd::utf8::encode_scalar(c as u32) + encode_utf8(Seq::<char>::empty()));
}

/// The bytes UTF-8 takes for some characters.
pub open spec fn utf8_count(cs: Seq<char>) -> nat
    decreases cs.len(),
{
    if cs.len() == 0 {
        0
    } else {
        utf8_count(cs.drop_last()) + utf8_size(cs.last())
    }
}

/// Counting UTF-8 bytes adds up over concatenation.
pub proof fn lemma_utf8_count_concat(a: Seq<char>, b: Seq<char>)
    ensures
        utf8_count(a + b) == utf8_count(a) + utf8_count(b),
    decreases b.len(),
{
    if b.len() > 0 {
        lemma_utf8_count_concat(a, b.drop_last());
        assert((a + b).drop_last() =~= a + b.drop_last());
    } else {
        assert(a + b =~= a);
    }
}

/// A displayed row of the editor: its characters, its line, and its byte offset and byte
/// length in that line.
pub struct EditRow {
    pub text: Seq<char>,
    pub line_index: nat,
    pub offset: nat,
    pub len: nat,
}

/// The rows of line `li` shown from byte `start` on, whose characters are `chars`: one empty
/// row for no characters, else the rows they wrap into at `with` columns.
pub open spec fn line_rows(chars: Seq<char>, li: nat, start: nat, with: nat) -> Seq<EditRow> {
    if chars.len() == 0 {
        seq![EditRow { text: Seq::empty(), line_index: li, offset: 0, len: 0 }]
    } else {
        wrap_rows(chars, with).map_values(
            |r: (nat, nat)|
                EditRow {
                    text: chars.subrange(r.0 as int, (r.0 + r.1) as int),
                    line_index: li,
                    offset: start + utf8_count(chars.take(r.0 as int)),
                    len: utf8_count(chars.subrange(r.0 as int, (r.0 + r.1) as int)),
                },
        )
    }
}

/// The characters line `i` shows from byte `from` on (none past its end).
pub open spec fn edit_chars(lines: Seq<Seq<u8>>, i: int, from: int) -> Seq<char> {
    if from <= lines[i].len() {
        lossy_text(lines[i].subrange(from, lines[i].len() as int))
    } else {
        Seq::empty()
    }
}

/// The rows from line `i` on: that line from byte `from` (its rows' offsets counted from
/// `start`), then every later line whole.
pub open spec fn edit_rows_from(lines: Seq<Seq<u8>>, i: int, from: int, start: nat, with: nat) -> Seq<EditRow>
    decreases lines.len() - i,
{
    if i < 0 || i >= lines.len() {
        Seq::empty()
    } else {
        line_rows(edit_chars(lines, i, from), i as nat, start, with) + edit_rows_from(lines, i + 1, 0, 0, with)
    }
}

/// A row as a read shows it: its text and the fields of its place (byte length, page,
/// number, line, byte offset), row `num` being on page `(num - 1) / height + 1`.
pub open spec fn row_view(row: EditRow, num: nat, height: nat) -> (Seq<char>, (nat, nat, nat, nat, nat)) {
    (row.text, (row.len, ((num - 1) / (height as int) + 1) as nat, num, row.line_index, row.offset))
}

/// What a read shows of the first `k` of `rows`, numbered on from `s0`: the rows numbered at
/// least `skip`.
pub open spec fn edit_emitted(rows: Seq<EditRow>, s0: nat, skip: int, height: nat, k: int) -> Seq<(Seq<char>, (nat, nat, nat, nat, nat))> {
    let lo = if skip - s0 - 1 > 0 { skip - s0 - 1 } else { 0 };
    if k <= lo {
        Seq::empty()
    } else {
        Seq::new((k - lo) as nat, |a: int| row_view(rows[lo + a], (s0 + lo + a + 1) as nat, height))
    }
}

/// The byte offset the first line of a read counts its rows from.
pub open spec fn meta_start(line_start: usize) -> nat {
    if line_start <= usize::MAX / 64 { line_start as nat } else { (usize::MAX / 64) as nat }
}

/// What a read of `line_count` rows shows of `rows` numbered on from `s0`: the rows numbered
/// at least `skip`, the first `line_count` of them.
pub open spec fn edit_read(rows: Seq<EditRow>, s0: nat, skip: int, height: nat, line_count: int) -> Seq<(Seq<char>, (nat, nat, nat, nat, nat))> {
    let lo = if skip - s0 - 1 > 0 { skip - s0 - 1 } else { 0 };
    let hi = if lo + line_count < rows.len() { lo + line_count } else { rows.len() as int };
    edit_emitted(rows, s0, skip, height, hi)
}

/// A read that stopped after row `k` with `line_count` rows shown showed what `edit_read`
/// says.
proof fn lemma_read_stop(rows: Seq<EditRow>, s0: nat, skip: int, height: nat, line_count: int, k: int)
    requires
        0 <= k <= rows.len(),
        line_count >= 1,
        edit_emitted(rows, s0, skip, height, k).len() == line_count,
    ensures
        edit_emitted(rows, s0, skip, height, k) == edit_read(rows, s0, skip, height, line_count),
{
}

/// A read that ran out of rows (showing fewer than `line_count`) showed what `edit_read`
/// says.
proof fn lemma_read_end(rows: Seq<EditRow>, s0: nat, skip: int, height: nat, line_count: int, k: int)
    requires
        k == rows.len(),
        line_count >= 1,
        edit_emitted(rows, s0, skip, height, k).len() < line_count,
    ensures
        edit_emitted(rows, s0, skip, height, k) == edit_read(rows, s0, skip, height, line_count),
{
}

/// The page group a read from row `line_num` starts in: that of the page holding the row.
pub open spec fn edit_group(height: nat, line_num: int) -> int {
    ((line_num + height - 1) / (height as int) - 1) / (EDIT_PAGE_GROUP as int)
}

/// What the editor shows for `line_count` rows from row `line_num`: the read starts at the
/// recorded start of the row's page group (the last recorded one when that group is not
/// recorded yet), numbering rows on from that group's first row.
#[verifier::opaque]
pub open spec fn edit_view_read(lines: Seq<Seq<u8>>, with: nat, height: nat, offsets: Seq<PageOffset>, line_num: int, line_count: int) -> Seq<(Seq<char>, (nat, nat, nat, nat, nat))> {
    let group = edit_group(height, line_num);
    let start = if group >= offsets.len() { offsets.last() } else { offsets[group] };
    let first_row = group * EDIT_PAGE_GROUP * height;
    edit_read(
        edit_rows_from(lines, start.line_index as int, start.line_start as int, meta_start(start.line_start), with),
        first_row as nat,
        line_num - first_row,
        height,
        line_count,
    )
}

/// The texts and places of rows read.
pub open spec fn out_views(out: Seq<(String, EditLineMeta)>) -> Seq<(Seq<char>, (nat, nat, nat, nat, nat))> {
    out.map_values(|e: (String, EditLineMeta)| (e.0@, e.1.fields()))
}

/// A line editor: each line in its own gap buffer, shown wrapped at `with` columns in
/// pages of `height` rows.
pub struct EditTextBuffer {
    lines: Vec<GapBuffer>,
    cursor_x: usize,
    cursor_y: usize,
    page_offset_list: Vec<PageOffset>,
    height: usize,
    with: usize,
}

impl EditTextBuffer {
    /// The bytes of each line.
    pub closed spec fn view(&self) -> Seq<Seq<u8>> {
        self.lines@.map_values(|g: GapBuffer| g.view())
    }

    pub closed spec fn with_view(&self) -> nat {
        self.with as nat
    }

    pub closed spec fn height_view(&self) -> nat {
        self.height as nat
    }

    /// Where the recorded pages start: a line and a byte offset in it.
    pub closed spec fn page_offsets(&self) -> Seq<PageOffset> {
        self.page_offset_list@
    }

    /// The line lengths.
    pub open spec fn lens(&self) -> Seq<nat> {
        self.view().map_values(|l: Seq<u8>| l.len())
    }

    pub closed spec fn wf(&self) -> bool {
        &&& 0 < self.height <= usize::MAX / 4
        &&& 0 < self.with <= usize::MAX / 64
        &&& self.page_offset_list@.len() >= 1
        &&& forall|i: int| 0 <= i < self.lines@.len() ==> (#[trigger] self.lines@[i]).wf()
    }

    /// Room to grow: every line's buffer is well inside the address space.
    pub closed spec fn small(&self) -> bool {
        forall|i: int| 0 <= i < self.lines@.len() ==> (#[trigger] self.lines@[i]).capacity() <= usize::MAX / 64
    }

    /// An editor over `lines`.
    pub fn from_lines(lines: Vec<String>, height: usize, with: usize) -> (r: EditTextBuffer)
        requires
            0 < height <= usize::MAX / 4,
            0 < with <= usize::MAX / 64,
            forall|i: int| 0 <= i < lines@.len() ==> encode_utf8((#[trigger] lines@[i])@).len() <= usize::MAX / 256,
        ensures
            r.wf(),
            r.small(),
            r.with_view() == with,
            r.height_view() == height,
            r.view().len() == lines@.len(),
            forall|i: int| 0 <= i < lines@.len() ==> #[trigger] r.view()[i] == encode_utf8(lines@[i]@),
    {
        let mut gap_buffers: Vec<GapBuffer> = Vec::new();
        let mut i: usize = 0;
        while i < lines.len()
            invariant
                i <= lines@.len(),
                forall|k: int| 0 <= k < lines@.len() ==> encode_utf8((#[trigger] lines@[k])@).len() <= usize::MAX / 256,
                gap_buffers@.len() == i,
                forall|k: int| 0 <= k < i ==> (#[trigger] gap_buffers@[k]).wf(),
                forall|k: int| 0 <= k < i ==> (#[trigger] gap_buffers@[k]).capacity() <= usize::MAX / 64,
                forall|k: int| 0 <= k < i ==> (#[trigger] gap_buffers@[k]).view() == encode_utf8(lines@[k]@),
            decreases lines@.len() - i,
        {
            let content = lines[i].as_str().as_bytes();
            let mut gap_buffer = GapBuffer::new(content.len() + 5);
            gap_buffer.insert(0, content);
            proof {
                assert(inserted(Seq::<u8>::empty(), 0, content@) =~= content@);
            }
            gap_buffers.push(gap_buffer);
            i = i + 1;
        }
        let mut page_offset_list: Vec<PageOffset> = Vec::new();
        page_offset_list.push(PageOffset { line_index: 0, line_start: 0 });
        let r = EditTextBuffer { lines: gap_buffers, cursor_x: 0, cursor_y: 0, page_offset_list, height, with };
        proof {
            assert forall|k: int| 0 <= k < lines@.len() implies #[trigger] r.view()[k] == encode_utf8(lines@[k]@) by {
                assert(r.view()[k] == r.lines@[k].view());
            }
        }
        r
    }

    /// The byte length of line `index` (0 past the last line).
    pub fn get_text_len(&self, index: usize) -> (r: usize)
        requires
            self.wf(),
        ensures
            r == (if index < self.view().len() { self.view()[index as int].len() } else { 0 }),
    {
        if index >= self.lines.len() {
            return 0;
        }
        self.lines[index].text_len()
    }

    /// The page holding row `num`: `num / height` rounded up.
    pub fn get_page_num(&self, num: usize) -> (r: usize)
        requires
            self.wf(),
            num + self.height_view() <= usize::MAX,
        ensures
            r == (num + self.height_view() - 1) / (self.height_view() as int),
    {
        (num + self.height - 1) / self.height
    }

    /// The rows a line of `text_len` columns takes at `with` columns.
    pub fn calculate_lines(text_len: usize, with: usize) -> (r: usize)
        ensures
            r == lines_for(text_len as nat, with as nat),
    {
        if text_len == 0 {
            return 1;
        }
        if with == 0 {
            return usize::MAX;
        }
        let whole = text_len / with;
        if text_len % with == 0 {
            proof {
                assert((text_len + with - 1) / (with as int) == whole) by (nonlinear_arith)
                    requires
                        with > 0,
                        text_len % with == 0,
                        whole == text_len / with;
            }
            whole
        } else {
            proof {
                assert(whole < usize::MAX) by (nonlinear_arith)
                    requires
                        with > 0,
                        text_len % with != 0,
                        whole == text_len / with;
                assert((text_len + with - 1) / (with as int) == whole + 1) by (nonlinear_arith)
                    requires
                        with > 0,
                        text_len % with != 0,
                        whole == text_len / with;
            }
            whole + 1
        }
    }

    /// The line and the byte offset in it of cursor row `cursor_y` (from 0), column
    /// `cursor_x`: rows are counted through the wrapped lines.
    pub fn calculate_x_y(&self, cursor_y: usize, cursor_x: usize) -> (r: (usize, usize))
        requires
            self.wf(),
            cursor_y < usize::MAX / 2,
            cursor_x <= usize::MAX / 4,
            forall|i: int| 0 <= i < self.view().len() ==> (#[trigger] self.view()[i]).len() <= usize::MAX / 8,
        ensures
            ({
                let (li, row) = locate(self.lens(), self.with_view(), (cursor_y + 1) as nat, 0, 0);
                r.0 == li && r.1 == row * self.with_view() + cursor_x
            }),
    {
        let ghost lens = self.lens();
        let mut line_count: usize = 0;
        let mut line_index: usize = 0;
        let mut shirt: usize = 0;
        let y = cursor_y + 1;
        let n = self.lines.len();
        let mut i: usize = 0;
        let mut found = false;
        while i < n && !found
            invariant
                self.wf(),
                n == self.lines@.len(),
                lens == self.lens(),
                lens.len() == n,
                forall|k: int| 0 <= k < n ==> (#[trigger] self.view()[k]).len() <= usize::MAX / 8,
                i <= n,
                y == cursor_y + 1,
                y <= usize::MAX / 2,
                !found ==> line_count < y,
                !found ==> locate(lens, self.with as nat, y as nat, 0, 0) == locate(lens, self.with as nat, y as nat, i as int, line_count as nat),
                found ==> locate(lens, self.with as nat, y as nat, 0, 0) == (line_index as int, shirt as int),
                found ==> shirt * self.with <= usize::MAX / 8 + self.with,
                !found && i > 0 ==> line_index == i - 1,
                !found && i == 0 ==> line_index == 0,
                !found ==> shirt == 0,
            decreases n - i + (if found { 0int } else { 1int }),
        {
            let len = self.lines[i].text_len();
            proof {
                assert(lens[i as int] == self.view()[i as int].len());
            }
            let cur_line_count = Self::calculate_lines(len, self.with);
            proof {
                let w = self.with as int;
                assert(cur_line_count <= len + 1) by (nonlinear_arith)
                    requires
                        w >= 1,
                        cur_line_count == (if len == 0 { 1 } else { (len + w - 1) / w }),
                        0 <= len;
            }
            line_count = line_count + cur_line_count;
            line_index = i;
            if y <= line_count {
                shirt = cur_line_count - (line_count - y) - 1;
                proof {
                    let w = self.with as int;
                    assert(shirt * w <= len + w) by (nonlinear_arith)
                        requires
                            w >= 1,
                            shirt < cur_line_count,
                            cur_line_count == (if len == 0 { 1 } else { (len + w - 1) / w }),
                            0 <= len;
                }
                found = true;
            }
            i = i + 1;
        }
        proof {
            if !found {
                assert(shirt * self.with == 0);
            }
        }
        let line_offset = shirt * self.with + cursor_x;
        (line_index, line_offset)
    }

    /// The text of line `index`.
    fn line_chars(&self, index: usize, from: usize) -> (r: Vec<char>)
        requires
            self.wf(),
            index < self.view().len(),
        ensures
            from <= self.view()[index as int].len() ==> r@ == lossy_text(self.view()[index as int].subrange(from as int, self.view()[index as int].len() as int)),
            from > self.view()[index as int].len() ==> r@.len() == 0,
            r@.len() <= self.view()[index as int].len(),
    {
        let line = &self.lines[index];
        proof {
            assert(self.view()[index as int] == self.lines@[index as int].view());
        }
        let len = line.text_len();
        if from > len {
            return Vec::new();
        }
        let bytes = line.get_text(from, len).iter();
        let s = utf8_lossy(bytes.as_slice());
        chars_of(s.as_str())
    }


    /// Inserts `c` at cursor row `cursor_y`, column `cursor_x`, first padding the line with
    /// spaces up to the column when it is shorter.
    pub fn insert(&mut self, cursor_y: usize, cursor_x: usize, c: char)
        requires
            old(self).wf(),
            old(self).small(),
            old(self).view().len() >= 1,
            cursor_y < usize::MAX / 2,
            cursor_x <= usize::MAX / 64,
        ensures
            final(self).wf(),
            final(self).with_view() == old(self).with_view(),
            final(self).height_view() == old(self).height_view(),
            ({
                let (li, row) = locate(old(self).lens(), old(self).with_view(), (cursor_y + 1) as nat, 0, 0);
                let off = row * old(self).with_view() + cursor_x;
                let line = old(self).view()[li];
                let base = if off > line.len() { line + Seq::new((off - line.len()) as nat, |k: int| 32u8) } else { line };
                final(self).view() == old(self).view().update(li, inserted(base, off, encode_utf8(seq![c])))
            }),
    {
        proof {
            assert forall|i: int| 0 <= i < self.view().len() implies (#[trigger] self.view()[i]).len() <= usize::MAX / 64 by {
                assert(self.view()[i] == self.lines@[i].view());
                self.lines@[i].lemma_view_len();
            }
        }
        let (line_index, line_offset) = self.calculate_x_y(cursor_y, cursor_x);
        let ghost before = self.view();
        let mut s = String::new();
        push_char(&mut s, c);
        let bytes = s.as_str().as_bytes();
        proof {
            assert(s@ =~= seq![c]);
        }
        proof {
            lemma_locate_bounds(self.lens(), self.with as nat, (cursor_y + 1) as nat, 0, 0);
            lemma_encode_char(c);
            assert(self.lines@[line_index as int].wf());
            assert(before[line_index as int] == self.lines@[line_index as int].view());
            self.lines@[line_index as int].lemma_view_len();
        }
        let mut line = self.lines.remove(line_index);
        proof {
            line.lemma_view_len();
        }
        let len = line.text_len();
        let ghost old_line = line.view();
        if line_offset > len {
            let gap_len = line_offset - len;
            let spaces = filled_vec(32u8, gap_len);
            line.insert(len, spaces.as_slice());
            proof {
                assert(spaces@ =~= Seq::new(gap_len as nat, |k: int| 32u8));
                assert(inserted(old_line, len as int, spaces@) =~= old_line + spaces@);
            }
        }
        let ghost base = line.view();
        proof {
            assert(base == (if line_offset > old_line.len() { old_line + Seq::new((line_offset - old_line.len()) as nat, |k: int| 32u8) } else { old_line }));
            line.lemma_view_len();
        }
        line.insert(line_offset, bytes);
        proof {
            assert(line.view() == inserted(base, line_offset as int, encode_utf8(seq![c])));
        }
        self.lines.insert(line_index, line);
        proof {
            let li = line_index as int;
            assert forall|i: int| 0 <= i < self.lines@.len() implies (#[trigger] self.lines@[i]).wf() by {
                if i != li {
                    if i < li {
                        assert(self.lines@[i] == old(self).lines@[i]);
                    } else {
                        assert(self.lines@[i] == old(self).lines@[i]);
                    }
                }
            }
            assert(self.view() =~= before.update(li, self.lines@[li].view()));
        }
    }


    /// Breaks the line at cursor row `cursor_y`, column `cursor_x`: the rest of the line
    /// moves to a new line after it (an empty one when the cursor is past the line's end).
    pub fn insert_newline(&mut self, cursor_y: usize, cursor_x: usize)
        requires
            old(self).wf(),
            old(self).small(),
            old(self).view().len() >= 1,
            cursor_y < usize::MAX / 2,
            cursor_x <= usize::MAX / 64,
        ensures
            final(self).wf(),
            final(self).with_view() == old(self).with_view(),
            final(self).height_view() == old(self).height_view(),
            ({
                let (li, row) = locate(old(self).lens(), old(self).with_view(), (cursor_y + 1) as nat, 0, 0);
                let off = row * old(self).with_view() + cursor_x;
                let line = old(self).view()[li];
                let head = if off > line.len() { line } else { line.subrange(0, off) };
                let tail = if off > line.len() { Seq::<u8>::empty() } else { line.subrange(off, line.len() as int) };
                final(self).view() == old(self).view().update(li, head).insert(li + 1, tail)
            }),
    {
        proof {
            assert forall|i: int| 0 <= i < self.view().len() implies (#[trigger] self.view()[i]).len() <= usize::MAX / 64 by {
                assert(self.view()[i] == self.lines@[i].view());
                self.lines@[i].lemma_view_len();
            }
        }
        let (line_index, line_offset) = self.calculate_x_y(cursor_y, cursor_x);
        let ghost before = self.view();
        proof {
            lemma_locate_bounds(self.lens(), self.with as nat, (cursor_y + 1) as nat, 0, 0);
            assert(before[line_index as int] == self.lines@[line_index as int].view());
            self.lines@[line_index as int].lemma_view_len();
        }
        let n_lines = self.lines.len();
        let mut line = self.lines.remove(line_index);
        let line_len = line.text_len();
        let ghost old_line = line.view();
        let new_line = if line_offset > line_len {
            GapBuffer::new(10)
        } else {
            let b = line.get_text(line_offset, line_len).iter();
            let mut g = GapBuffer::new(b.len() + 5);
            g.insert(0, b.as_slice());
            proof {
                assert(inserted(Seq::<u8>::empty(), 0, b@) =~= b@);
            }
            g
        };
        proof {
            assert(new_line.view() == (if line_offset > line_len { Seq::<u8>::empty() } else { old_line.subrange(line_offset as int, line_len as int) }));
            assert(line_index < n_lines);
        }
        if line_len > line_offset {
            let delete_len = line_len - line_offset;
            line.delete(line_len, delete_len);
            proof {
                assert(line.view() =~= old_line.subrange(0, line_offset as int));
            }
        } else {
            proof {
                if line_offset == line_len {
                    assert(old_line.subrange(0, line_offset as int) =~= old_line);
                }
            }
        }
        self.lines.insert(line_index, line);
        self.lines.insert(line_index + 1, new_line);
        proof {
            let li = line_index as int;
            assert forall|i: int| 0 <= i < self.lines@.len() implies (#[trigger] self.lines@[i]).wf() by {
                if i < li {
                    assert(self.lines@[i] == old(self).lines@[i]);
                } else if i > li + 1 {
                    assert(self.lines@[i] == old(self).lines@[i - 1]);
                }
            }
            assert(self.view() =~= before.update(li, self.lines@[li].view()).insert(li + 1, self.lines@[li + 1].view()));
        }
    }

    /// Deletes before cursor row `cursor_y`, column `cursor_x`: an empty line at its start
    /// is removed; at a line's start the line joins the one before (an empty line before is
    /// removed instead); otherwise the byte before the column goes.
    pub fn backspace(&mut self, cursor_y: usize, cursor_x: usize)
        requires
            old(self).wf(),
            old(self).small(),
            old(self).view().len() >= 1,
            cursor_y < usize::MAX / 2,
            cursor_x <= usize::MAX / 64,
        ensures
            final(self).wf(),
            final(self).with_view() == old(self).with_view(),
            final(self).height_view() == old(self).height_view(),
            ({
                let (li, row) = locate(old(self).lens(), old(self).with_view(), (cursor_y + 1) as nat, 0, 0);
                let off = row * old(self).with_view() + cursor_x;
                let v = old(self).view();
                let line = v[li];
                if line.len() == 0 && off == 0 {
                    final(self).view() == v.remove(li)
                } else if off == 0 {
                    if li == 0 {
                        final(self).view() == v
                    } else if v[li - 1].len() == 0 {
                        final(self).view() == v.remove(li - 1)
                    } else {
                        final(self).view() == v.update(li - 1, v[li - 1] + line).remove(li)
                    }
                } else if off <= line.len() {
                    final(self).view() == v.update(li, deleted_before(line, off, 1))
                } else {
                    exists|g: int| 0 <= g <= line.len() && final(self).view() == v.update(li, #[trigger] deletion_result(line, g, off, 1))
                }
            }),
    {
        proof {
            assert forall|i: int| 0 <= i < self.view().len() implies (#[trigger] self.view()[i]).len() <= usize::MAX / 64 by {
                assert(self.view()[i] == self.lines@[i].view());
                self.lines@[i].lemma_view_len();
            }
        }
        let (line_index, line_offset) = self.calculate_x_y(cursor_y, cursor_x);
        let ghost before = self.view();
        proof {
            lemma_locate_bounds(self.lens(), self.with as nat, (cursor_y + 1) as nat, 0, 0);
            assert(before[line_index as int] == self.lines@[line_index as int].view());
        }
        let li = line_index;
        if self.lines[li].text_len() == 0 && line_offset == 0 {
            self.lines.remove(li);
            proof {
                assert(self.view() =~= before.remove(li as int));
                assert forall|i: int| 0 <= i < self.lines@.len() implies (#[trigger] self.lines@[i]).wf() by {
                    if i < li {
                        assert(self.lines@[i] == old(self).lines@[i]);
                    } else {
                        assert(self.lines@[i] == old(self).lines@[i + 1]);
                    }
                }
            }
            return;
        }
        if line_offset == 0 {
            if li == 0 {
                return;
            }
            proof {
                assert(before[li - 1] == self.lines@[li - 1].view());
            }
            if self.lines[li - 1].text_len() == 0 {
                self.lines.remove(li - 1);
                proof {
                    assert(self.view() =~= before.remove(li - 1));
                    assert forall|i: int| 0 <= i < self.lines@.len() implies (#[trigger] self.lines@[i]).wf() by {
                        if i < li - 1 {
                            assert(self.lines@[i] == old(self).lines@[i]);
                        } else {
                            assert(self.lines@[i] == old(self).lines@[i + 1]);
                        }
                    }
                }
                return;
            }
            let cur = self.lines.remove(li);
            let mut pre = self.lines.remove(li - 1);
            proof {
                cur.lemma_view_len();
                pre.lemma_view_len();
            }
            let cur_len = cur.text_len();
            let cur_bytes = cur.get_text(0, cur_len).iter();
            let pre_len = pre.text_len();
            let ghost pre_old = pre.view();
            pre.insert(pre_len, cur_bytes.as_slice());
            proof {
                assert(cur.view().subrange(0, cur_len as int) =~= cur.view());
                assert(inserted(pre_old, pre_len as int, cur_bytes@) =~= pre_old + cur_bytes@);
            }
            self.lines.insert(li - 1, pre);
            proof {
                let l = li as int;
                assert(self.view() =~= before.update(l - 1, before[l - 1] + before[l]).remove(l));
                assert forall|i: int| 0 <= i < self.lines@.len() implies (#[trigger] self.lines@[i]).wf() by {
                    if i < l - 1 {
                        assert(self.lines@[i] == old(self).lines@[i]);
                    } else if i > l - 1 {
                        assert(self.lines@[i] == old(self).lines@[i + 1]);
                    }
                }
            }
            return;
        }
        let mut line = self.lines.remove(li);
        let ghost old_line = line.view();
        let ghost g = line.gap_position() as int;
        proof {
            line.lemma_view_len();
        }
        line.backspace(line_offset);
        self.lines.insert(li, line);
        proof {
            let l = li as int;
            assert(self.view() =~= before.update(l, self.lines@[l].view()));
            assert forall|i: int| 0 <= i < self.lines@.len() implies (#[trigger] self.lines@[i]).wf() by {
                if i != l {
                    assert(self.lines@[i] == old(self).lines@[i]);
                }
            }
            if line_offset > old_line.len() {
                assert(0 <= g <= old_line.len());
                assert(self.view() == before.update(l, deletion_result(old_line, g, line_offset as int, 1)));
            }
        }
    }


    /// Reads rows from the page start `page_offset`: the rest of its line, then the
    /// following lines, until `line_count` rows from row `skip_line` on are kept.
    fn get_text_fn(&mut self, page_offset: PageOffset, line_count: usize, start_line_num: usize, start_page_num: usize, skip_line: usize) -> (r: Vec<(String, EditLineMeta)>)
        requires
            old(self).wf(),
            old(self).small(),
            start_line_num + skip_line + line_count + 8 <= usize::MAX / 4,
            start_page_num + skip_line + line_count + 8 <= usize::MAX / 4,
            start_page_num == (start_line_num as int) / (old(self).height_view() as int),
        ensures
            final(self).wf(),
            final(self).small(),
            final(self).view() == old(self).view(),
            final(self).with_view() == old(self).with_view(),
            final(self).height_view() == old(self).height_view(),
            r@.len() <= line_count + 1,
            line_count >= 1 ==> out_views(r@) == edit_read(
                edit_rows_from(old(self).view(), page_offset.line_index as int, page_offset.line_start as int,
                    meta_start(page_offset.line_start), old(self).with_view()),
                start_line_num as nat,
                skip_line as int,
                old(self).height_view(),
                line_count as int,
            ),
    {
        let ghost rows = edit_rows_from(self.view(), page_offset.line_index as int, page_offset.line_start as int,
            meta_start(page_offset.line_start), self.with as nat);
        let mut out: Vec<(String, EditLineMeta)> = Vec::new();
        if page_offset.line_index >= self.lines.len() {
            proof {
                assert(out_views(out@) =~= edit_read(rows, start_line_num as nat, skip_line as int, self.height as nat, line_count as int));
            }
            return out;
        }
        let mut line_num = start_line_num;
        let mut page_num = start_page_num;
        let mut cur_line_count: usize = 0;
        let ghost s0 = start_line_num as nat;
        let ghost p0 = start_page_num as nat;
        let first = self.line_chars(page_offset.line_index, page_offset.line_start);
        proof {
            assert(self.view()[page_offset.line_index as int] == self.lines@[page_offset.line_index as int].view());
            self.lines@[page_offset.line_index as int].lemma_view_len();
            assert(first@ =~= edit_chars(self.view(), page_offset.line_index as int, page_offset.line_start as int));
        }
        let start = if page_offset.line_start <= usize::MAX / 64 {
            page_offset.line_start
        } else {
            usize::MAX / 64
        };
        let ghost lr0 = line_rows(first@, page_offset.line_index as nat, start as nat, self.with as nat);
        proof {
            assert(rows == lr0 + edit_rows_from(self.view(), page_offset.line_index + 1, 0, 0, self.with as nat));
            assert(rows.subrange(0, lr0.len() as int) =~= lr0);
            assert(out_views(out@) =~= edit_emitted(rows, s0, skip_line as int, self.height as nat, 0));
        }
        set_line_txt(
            &first,
            page_offset.line_index,
            start,
            self.with,
            self.height,
            &mut self.page_offset_list,
            &mut line_num,
            line_count,
            &mut page_num,
            &mut cur_line_count,
            skip_line,
            &mut out,
            Ghost(s0),
            Ghost(p0),
            Ghost(rows),
        );
        if cur_line_count >= line_count {
            proof {
                if line_count >= 1 {
                    lemma_read_stop(rows, s0, skip_line as int, self.height as nat, line_count as int, line_num - s0);
                }
            }
            return out;
        }
        proof {
            assert(rows.skip(line_num - s0) =~= edit_rows_from(self.view(), page_offset.line_index + 1, 0, 0, self.with as nat));
        }
        let mut i = page_offset.line_index + 1;
        while i < self.lines.len()
            invariant
                self.wf(),
                self.small(),
                self.lines@ == old(self).lines@,
                self.with == old(self).with,
                self.height == old(self).height,
                counters_ok(line_num as nat, page_num as nat, cur_line_count as nat, s0, p0, skip_line as nat, line_count as nat),
                cur_line_count < line_count,
                out@.len() == cur_line_count,
                page_num == (line_num as int) / (self.height as int),
                s0 == start_line_num,
                s0 <= line_num,
                rows == edit_rows_from(old(self).view(), page_offset.line_index as int, page_offset.line_start as int,
                    meta_start(page_offset.line_start), old(self).with_view()),
                line_num - s0 <= rows.len(),
                rows.skip(line_num - s0) == edit_rows_from(self.view(), i as int, 0, 0, self.with as nat),
                out_views(out@) == edit_emitted(rows, s0, skip_line as int, self.height as nat, line_num - s0),
                page_offset.line_index < i,
            decreases self.lines@.len() - i,
        {
            let chars = self.line_chars(i, 0);
            proof {
                assert(self.view()[i as int] == self.lines@[i as int].view());
                self.lines@[i as int].lemma_view_len();
                assert(chars@ =~= edit_chars(self.view(), i as int, 0));
                let lr = line_rows(chars@, i as nat, 0, self.with as nat);
                let k = line_num - s0;
                assert(edit_rows_from(self.view(), i as int, 0, 0, self.with as nat) == lr + edit_rows_from(self.view(), i + 1, 0, 0, self.with as nat));
                assert(rows.skip(k).subrange(0, lr.len() as int) =~= lr);
                assert(rows.subrange(k, k + lr.len()) =~= rows.skip(k).subrange(0, lr.len() as int));
            }
            set_line_txt(
                &chars,
                i,
                0,
                self.with,
                self.height,
                &mut self.page_offset_list,
                &mut line_num,
                line_count,
                &mut page_num,
                &mut cur_line_count,
                skip_line,
                &mut out,
                Ghost(s0),
                Ghost(p0),
                Ghost(rows),
            );
            if cur_line_count >= line_count {
                proof {
                    assert(out_views(out@) == edit_emitted(rows, s0, skip_line as int, self.height as nat, line_num - s0));
                    assert(out_views(out@).len() == out@.len());
                    assert(line_num - s0 <= rows.len());
                    lemma_read_stop(rows, s0, skip_line as int, self.height as nat, line_count as int, line_num - s0);
                    assert(out_views(out@) == edit_read(rows, s0, skip_line as int, self.height as nat, line_count as int));
                }
                return out;
            }
            proof {
                let lr = line_rows(chars@, i as nat, 0, self.with as nat);
                assert(rows.skip(line_num - s0) =~= rows.skip(line_num - s0 - lr.len()).skip(lr.len() as int));
                assert((lr + edit_rows_from(self.view(), i + 1, 0, 0, self.with as nat)).skip(lr.len() as int)
                    =~= edit_rows_from(self.view(), i + 1, 0, 0, self.with as nat));
            }
            i = i + 1;
        }
        proof {
            assert(self.view().len() == self.lines@.len());
            assert(edit_rows_from(self.view(), i as int, 0, 0, self.with as nat) =~= Seq::<EditRow>::empty());
            assert(rows.skip(line_num - s0) =~= rows.subrange(line_num - s0, rows.len() as int));
            assert(line_num - s0 == rows.len());
            assert(out_views(out@).len() == out@.len());
            lemma_read_end(rows, s0, skip_line as int, self.height as nat, line_count as int, line_num - s0);
        }
        out
    }

    /// Rows from row `line_num` (from 1) on, `line_count` of them, starting from the
    /// recorded start of its page.
    fn get_text(&mut self, line_num: usize, line_count: usize) -> (r: Vec<(String, EditLineMeta)>)
        requires
            old(self).wf(),
            old(self).small(),
            1 <= line_num <= usize::MAX / 16,
            line_count <= usize::MAX / 16,
        ensures
            final(self).wf(),
            final(self).small(),
            final(self).view() == old(self).view(),
            final(self).with_view() == old(self).with_view(),
            final(self).height_view() == old(self).height_view(),
            r@.len() <= line_count + 1,
            line_count >= 1 ==> out_views(r@) == edit_view_read(old(self).view(), old(self).with_view(), old(self).height_view(),
                old(self).page_offsets(), line_num as int, line_count as int),
    {
        let page_num = self.get_page_num(line_num);
        proof {
            let h = self.height as int;
            assert((line_num + h - 1) / h >= 1) by (nonlinear_arith)
                requires
                    h >= 1,
                    line_num >= 1;
        }
        let index = (page_num - 1) / EDIT_PAGE_GROUP;
        let page_offset = if index >= self.page_offset_list.len() {
            self.page_offset_list[self.page_offset_list.len() - 1]
        } else {
            self.page_offset_list[index]
        };
        let start_page_num = index * EDIT_PAGE_GROUP;
        proof {
            let h = self.height as int;
            let pn = page_num as int;
            let ln = line_num as int;
            assert((pn - 1) * h < ln) by (nonlinear_arith)
                requires
                    pn == (ln + h - 1) / h,
                    h >= 1,
                    ln >= 1;
            assert(start_page_num * h <= (pn - 1) * h) by (nonlinear_arith)
                requires
                    start_page_num <= pn - 1,
                    h >= 1;
            assert(start_page_num <= start_page_num * h) by (nonlinear_arith)
                requires
                    h >= 1,
                    start_page_num >= 0;
        }
        let skip_line = line_num - start_page_num * self.height;
        proof {
            let h = self.height as int;
            assert((start_page_num * h) / h == start_page_num) by (nonlinear_arith)
                requires
                    h >= 1,
                    start_page_num >= 0;
            reveal(edit_view_read);
        }
        self.get_text_fn(page_offset, line_count, start_page_num * self.height, start_page_num, skip_line)
    }

    /// The rows from row `line_num` on, `line_count` of them, with their places.
    pub fn get_line_content(&mut self, line_num: usize, line_count: usize) -> (r: (Vec<String>, Vec<EditLineMeta>))
        requires
            old(self).wf(),
            old(self).small(),
            1 <= line_num <= usize::MAX / 16,
            line_count <= usize::MAX / 16,
        ensures
            final(self).wf(),
            final(self).small(),
            final(self).view() == old(self).view(),
            r.0@.len() == r.1@.len(),
            r.0@.len() <= line_count + 1,
            line_count >= 1 ==> ({
                let v = edit_view_read(old(self).view(), old(self).with_view(), old(self).height_view(), old(self).page_offsets(),
                    line_num as int, line_count as int);
                &&& r.0@.len() == v.len()
                &&& forall|a: int| 0 <= a < v.len() ==> (#[trigger] r.0@[a])@ == v[a].0 && r.1@[a].fields() == v[a].1
            }),
    {
        let rows = self.get_text(line_num, line_count);
        let mut split_lines: Vec<String> = Vec::new();
        let mut line_meta_list: Vec<EditLineMeta> = Vec::new();
        let ghost all = out_views(rows@);
        proof {
            assert(all.len() == rows@.len());
            if line_count >= 1 {
                assert(all == edit_view_read(old(self).view(), old(self).with_view(), old(self).height_view(), old(self).page_offsets(),
                    line_num as int, line_count as int));
            }
        }
        let mut rows = rows;
        let n = rows.len();
        while rows.len() > 0
            invariant
                split_lines@.len() == line_meta_list@.len(),
                split_lines@.len() + rows@.len() == n,
                all.len() == n,
                out_views(rows@) == all.skip(split_lines@.len() as int),
                forall|a: int| 0 <= a < split_lines@.len() ==> (#[trigger] split_lines@[a])@ == all[a].0 && line_meta_list@[a].fields()
                    == all[a].1,
            decreases rows@.len(),
        {
            let ghost k = split_lines@.len() as int;
            let ghost before = rows@;
            proof {
                assert(out_views(rows@)[0] == all[k]);
            }
            let (txt, meta) = rows.remove(0);
            split_lines.push(txt);
            line_meta_list.push(meta);
            proof {
                assert(rows@ == before.remove(0));
                assert forall|j: int| 0 <= j < out_views(rows@).len() implies out_views(rows@)[j] == all.skip(k + 1)[j] by {
                    assert(rows@[j] == before[j + 1]);
                    assert(out_views(before)[j + 1] == all.skip(k)[j + 1]);
                }
                assert(out_views(rows@) =~= all.skip(k + 1));
            }
        }
        proof {
            assert(split_lines@.len() == all.len());
        }
        (split_lines, line_meta_list)
    }

    /// The `line_count` rows after the row `meta` describes (from the next line when that
    /// row ends its line); the last of them and its place.
    pub fn get_next_line(&mut self, meta: &EditLineMeta, line_count: usize) -> (r: (Option<String>, EditLineMeta))
        requires
            old(self).wf(),
            old(self).small(),
            meta.fields().3 < old(self).view().len(),
            meta.fields().4 + meta.fields().0 <= usize::MAX,
            meta.fields().2 <= usize::MAX / 16,
            line_count <= usize::MAX / 16,
        ensures
            final(self).wf(),
            final(self).small(),
            final(self).view() == old(self).view(),
            r.0 is Some,
            line_count >= 1 ==> ({
                let li = meta.fields().3;
                let end = meta.fields().4 + meta.fields().0;
                let at_end = end == old(self).view()[li as int].len();
                let from_line: int = if at_end { li as int + 1 } else { li as int };
                let from: int = if at_end { 0 } else { end as int };
                let v = edit_read(
                    edit_rows_from(old(self).view(), from_line, from, meta_start(from as usize), old(self).with_view()),
                    meta.fields().2,
                    0,
                    old(self).height_view(),
                    line_count as int,
                );
                &&& v.len() == 0 ==> (r.0 matches Some(t) && t@ == Seq::<char>::empty() && r.1.fields() == (0nat, 0nat, 0nat, 0nat, 0nat))
                &&& v.len() > 0 ==> (r.0 matches Some(t) && t@ == v.last().0 && r.1.fields() == v.last().1)
            }),
    {
        let mut line_index = meta.get_line_index();
        let mut line_end = meta.get_line_end();
        proof {
            assert(self.view()[line_index as int] == self.lines@[line_index as int].view());
        }
        let n_lines = self.lines.len();
        if line_end == self.lines[line_index].text_len() {
            line_end = 0;
            line_index = line_index + 1;
        }
        let p = PageOffset { line_index, line_start: line_end };
        let start_page_num = meta.get_line_num() / self.height;
        let rows = self.get_text_fn(p, line_count, meta.get_line_num(), start_page_num, 0);
        let mut rows = rows;
        if rows.len() == 0 {
            proof {
                assert(out_views(rows@).len() == 0);
            }
            return (Some(String::new()), EditLineMeta::default());
        }
        let ghost all = rows@;
        proof {
            assert(out_views(all).last() == (all.last().0@, all.last().1.fields()));
        }
        let last = rows.pop();
        match last {
            Some((s, m)) => (Some(s), m),
            None => (Some(String::new()), EditLineMeta::default()),
        }
    }
}

/// The counters of a page read: the current row and page numbers, the rows kept, and the
/// bounds that keep them from overflowing.
pub open spec fn counters_ok(line_num: nat, page_num: nat, cur: nat, s0: nat, p0: nat, skip: nat, line_count: nat) -> bool {
    &&& line_num <= s0 + skip + cur
    &&& page_num <= p0 + (line_num - s0)
    &&& s0 <= line_num
    &&& cur <= line_count + 1
    &&& s0 + skip + line_count + 8 <= usize::MAX / 4
    &&& p0 + skip + line_count + 8 <= usize::MAX / 4
}

/// The rows kept and the page starts recorded grow by what one line adds.
pub open spec fn read_grew(old_out: Seq<(String, EditLineMeta)>, out: Seq<(String, EditLineMeta)>, old_cur: nat, cur: nat, old_list: Seq<PageOffset>, list: Seq<PageOffset>) -> bool {
    &&& out.len() - old_out.len() == cur - old_cur
    &&& old_cur <= cur
    &&& out.subrange(0, old_out.len() as int) == old_out
    &&& list.len() >= old_list.len()
    &&& list.subrange(0, old_list.len() as int) == old_list
}

/// At the end of a row: a page ends every `height` rows, and the start of a page not yet
/// known is recorded.
fn note_page_end(list: &mut Vec<PageOffset>, height: usize, line_num: usize, page_num: &mut usize, next: PageOffset)
    requires
        height > 0,
        old(list)@.len() >= 1,
        *old(page_num) < usize::MAX,
    ensures
        final(list)@.len() >= old(list)@.len(),
        final(list)@.len() <= old(list)@.len() + 1,
        final(list)@.subrange(0, old(list)@.len() as int) == old(list)@,
        *final(page_num) == (if line_num % height == 0 { *old(page_num) + 1 } else { *old(page_num) as int }),
{
    if line_num % height == 0 {
        *page_num = *page_num + 1;
        let m = *page_num / EDIT_PAGE_GROUP;
        let n = *page_num % EDIT_PAGE_GROUP;
        if n == 0 && m > list.len() - 1 {
            let ghost before = list@;
            list.push(next);
            proof {
                assert(list@.subrange(0, before.len() as int) =~= before);
            }
        }
    } else {
        proof {
            assert(list@.subrange(0, list@.len() as int) =~= list@);
        }
    }
}

/// The page of the row after row `l - 1`: one more at a multiple of `h`.
proof fn lemma_page_step(l: int, h: int)
    requires
        l >= 1,
        h >= 1,
    ensures
        (if l % h == 0 { (l - 1) / h + 1 } else { (l - 1) / h }) == l / h,
{
    vstd::arithmetic::div_mod::lemma_fundamental_div_mod(l, h);
    vstd::arithmetic::div_mod::lemma_fundamental_div_mod(l - 1, h);
    vstd::arithmetic::div_mod::lemma_mod_bound(l, h);
    vstd::arithmetic::div_mod::lemma_mod_bound(l - 1, h);
    if l % h == 0 {
        assert((l - 1) / h + 1 == l / h) by (nonlinear_arith)
            requires
                l == h * (l / h) + l % h,
                l - 1 == h * ((l - 1) / h) + (l - 1) % h,
                l % h == 0,
                0 <= (l - 1) % h < h,
                h >= 1;
    } else {
        assert((l - 1) / h == l / h) by (nonlinear_arith)
            requires
                l == h * (l / h) + l % h,
                l - 1 == h * ((l - 1) / h) + (l - 1) % h,
                0 < l % h < h,
                0 <= (l - 1) % h < h,
                h >= 1;
    }
}

/// Every character takes at least one byte.
pub proof fn lemma_utf8_count_len(cs: Seq<char>)
    ensures
        utf8_count(cs) >= cs.len(),
    decreases cs.len(),
{
    if cs.len() > 0 {
        lemma_utf8_count_len(cs.drop_last());
    }
}

/// Emitting row `k` (from 0) of a read adds it when it is numbered at least `skip`.
proof fn lemma_emit_step(rows: Seq<EditRow>, s0: nat, skip: int, height: nat, k: int)
    requires
        0 <= k < rows.len(),
    ensures
        s0 + k + 1 >= skip ==> edit_emitted(rows, s0, skip, height, k + 1) == edit_emitted(rows, s0, skip, height, k).push(
            row_view(rows[k], (s0 + k + 1) as nat, height),
        ),
        s0 + k + 1 < skip ==> edit_emitted(rows, s0, skip, height, k + 1) == edit_emitted(rows, s0, skip, height, k),
{
    let lo = if skip - s0 - 1 > 0 { skip - s0 - 1 } else { 0 };
    if s0 + k + 1 >= skip {
        assert(edit_emitted(rows, s0, skip, height, k + 1) =~= edit_emitted(rows, s0, skip, height, k).push(
            row_view(rows[k], (s0 + k + 1) as nat, height),
        ));
    } else {
        assert(edit_emitted(rows, s0, skip, height, k + 1) =~= edit_emitted(rows, s0, skip, height, k));
    }
}

/// Wraps one line (its characters from byte `line_start` on) at `with` columns, keeping
/// the rows numbered from `skip_line` on with their places, and recording page starts; it
/// stops once `line_count` rows are kept. The line's rows are `rows` from the row after
/// those already read.
fn set_line_txt(
    line_txt: &Vec<char>,
    line_index: usize,
    line_start: usize,
    with: usize,
    height: usize,
    page_offset_list: &mut Vec<PageOffset>,
    line_num: &mut usize,
    line_count: usize,
    page_num: &mut usize,
    cur_line_count: &mut usize,
    skip_line: usize,
    out: &mut Vec<(String, EditLineMeta)>,
    Ghost(s0): Ghost<nat>,
    Ghost(p0): Ghost<nat>,
    Ghost(rows): Ghost<Seq<EditRow>>,
)
    requires
        0 < height,
        0 < with <= usize::MAX / 64,
        line_txt@.len() <= usize::MAX / 64,
        line_start <= usize::MAX / 64,
        line_index < usize::MAX,
        old(page_offset_list)@.len() >= 1,
        counters_ok(*old(line_num) as nat, *old(page_num) as nat, *old(cur_line_count) as nat, s0, p0, skip_line as nat, line_count as nat),
        *old(cur_line_count) < line_count || *old(cur_line_count) == 0,
        *old(page_num) == (*old(line_num) as int) / (height as int),
        rows.len() >= *old(line_num) - s0 + line_rows(line_txt@, line_index as nat, line_start as nat, with as nat).len(),
        rows.subrange(*old(line_num) - s0, *old(line_num) - s0 + line_rows(line_txt@, line_index as nat, line_start as nat, with as nat).len())
            == line_rows(line_txt@, line_index as nat, line_start as nat, with as nat),
        line_count >= 1 ==> out_views(old(out)@) == edit_emitted(rows, s0, skip_line as int, height as nat, *old(line_num) - s0),
        line_count >= 1 ==> old(out)@.len() == *old(cur_line_count),
    ensures
        counters_ok(*final(line_num) as nat, *final(page_num) as nat, *final(cur_line_count) as nat, s0, p0, skip_line as nat, line_count as nat),
        read_grew(old(out)@, final(out)@, *old(cur_line_count) as nat, *final(cur_line_count) as nat, old(page_offset_list)@, final(page_offset_list)@),
        final(page_offset_list)@.len() >= 1,
        *final(page_num) == (*final(line_num) as int) / (height as int),
        *old(line_num) <= *final(line_num) <= *old(line_num) + line_rows(line_txt@, line_index as nat, line_start as nat, with as nat).len(),
        *final(cur_line_count) < line_count ==> *final(line_num) == *old(line_num) + line_rows(line_txt@, line_index as nat, line_start as nat, with as nat).len(),
        line_count >= 1 ==> out_views(final(out)@) == edit_emitted(rows, s0, skip_line as int, height as nat, *final(line_num) - s0),
        line_count >= 1 ==> final(out)@.len() == *final(cur_line_count),
        line_count >= 1 ==> *final(cur_line_count) <= line_count,
{
    let ghost out0 = out@;
    let ghost list0 = page_offset_list@;
    let ghost cur0 = *cur_line_count as nat;
    let ghost n0 = *line_num as int;
    let ghost chars = line_txt@;
    let ghost lr = line_rows(chars, line_index as nat, line_start as nat, with as nat);
    let ghost wid = with as nat;
    if line_txt.len() == 0 {
        proof {
            assert(rows[n0 - s0] == lr[0]);
        }
        *line_num = *line_num + 1;
        if *line_num >= skip_line {
            *cur_line_count = *cur_line_count + 1;
            out.push((String::new(), EditLineMeta::new(0, *page_num + 1, *line_num, line_index, 0)));
            proof {
                assert(out@.subrange(0, out0.len() as int) =~= out0);
            }
        } else {
            proof {
                assert(out@.subrange(0, out0.len() as int) =~= out0);
            }
        }
        proof {
            lemma_emit_step(rows, s0, skip_line as int, height as nat, n0 - s0);
            if line_count >= 1 && *line_num >= skip_line {
                reveal_strlit("");
                assert(out_views(out@) =~= out_views(out0).push(out_views(out@).last()));
            }
            if line_count >= 1 && *line_num < skip_line {
                assert(out_views(out@) == out_views(out0));
            }
        }
        let ghost page0 = *page_num as int;
        note_page_end(page_offset_list, height, *line_num, page_num, PageOffset { line_index, line_start: 0 });
        proof {
            lemma_page_step(*line_num as int, height as int);
        }
        return;
    }
    let mut current_width: usize = 0;
    let mut line_offset: usize = 0;
    let mut current_bytes: usize = 0;
    let mut char_offset: usize = 0;
    let mut current_chars: usize = 0;
    let mut k: usize = 0;
    proof {
        assert(out@.subrange(0, out0.len() as int) =~= out0);
        assert(page_offset_list@.subrange(0, list0.len() as int) =~= list0);
        assert(chars.take(0) =~= Seq::<char>::empty());
        assert(chars.subrange(0, 0) =~= Seq::<char>::empty());
    }
    while k < line_txt.len()
        invariant
            0 < height,
            0 < with <= usize::MAX / 64,
            line_txt@.len() <= usize::MAX / 64,
            line_start <= usize::MAX / 64,
            k <= line_txt@.len(),
            char_offset + current_chars == k,
            line_offset + current_bytes <= 4 * k,
            current_width <= with || current_width <= 3,
            page_offset_list@.len() >= 1,
            counters_ok(*line_num as nat, *page_num as nat, *cur_line_count as nat, s0, p0, skip_line as nat, line_count as nat),
            *cur_line_count < line_count || (*cur_line_count == cur0 && cur0 == 0),
            read_grew(out0, out@, cur0, *cur_line_count as nat, list0, page_offset_list@),
            out0 == old(out)@,
            list0 == old(page_offset_list)@,
            cur0 == *old(cur_line_count),
            n0 == *old(line_num),
            chars == line_txt@,
            chars.len() > 0,
            wid == with,
            lr == line_rows(chars, line_index as nat, line_start as nat, wid),
            rows.len() >= n0 - s0 + lr.len(),
            rows.subrange(n0 - s0, n0 - s0 + lr.len()) == lr,
            s0 <= n0,
            *page_num == (*line_num as int) / (height as int),
            ({
                let st = wrap_upto(chars, wid, k as int);
                &&& st.width == current_width
                &&& st.offset == char_offset
                &&& st.len == current_chars
                &&& current_bytes == utf8_count(chars.subrange(char_offset as int, k as int))
                &&& line_offset == utf8_count(chars.take(char_offset as int))
                &&& *line_num == n0 + st.rows.len()
            }),
            line_count >= 1 ==> out_views(out@) == edit_emitted(rows, s0, skip_line as int, height as nat, *line_num - s0),
            line_count >= 1 ==> out@.len() == *cur_line_count,
        decreases line_txt@.len() - k,
    {
        let ch = line_txt[k];
        let ch_width = cols(ch);
        let ghost st = wrap_upto(chars, wid, k as int);
        proof {
            lemma_wrap_shape(chars, wid, k as int);
            assert(wrap_upto(chars, wid, k + 1) == wrap_step(st, chars[k as int], wid));
        }
        if current_width + ch_width > with {
            let end = line_offset + current_bytes;
            proof {
                let j = st.rows.len() as int;
                assert(wrap_upto(chars, wid, k + 1).rows == st.rows.push((st.offset, st.len)));
                lemma_wrap_rows_prefix(chars, wid, k + 1);
                assert(wrap_upto(chars, wid, k + 1).rows[j] == (st.offset, st.len));
                assert(wrap_rows(chars, wid)[j] == (st.offset, st.len));
                assert(lr[j] == EditRow {
                    text: chars.subrange(st.offset as int, (st.offset + st.len) as int),
                    line_index: line_index as nat,
                    offset: line_start as nat + utf8_count(chars.take(st.offset as int)),
                    len: utf8_count(chars.subrange(st.offset as int, (st.offset + st.len) as int)),
                });
                assert(rows[n0 - s0 + j] == rows.subrange(n0 - s0, n0 - s0 + lr.len())[j]);
                lemma_emit_step(rows, s0, skip_line as int, height as nat, n0 - s0 + j);
            }
            *line_num = *line_num + 1;
            let ghost before_out = out@;
            if *line_num >= skip_line {
                *cur_line_count = *cur_line_count + 1;
                let txt = crate::text::slice_chars(line_txt.as_slice(), char_offset, char_offset + current_chars);
                out.push((string_of(txt.as_slice()), EditLineMeta::new(current_bytes, *page_num + 1, *line_num, line_index, line_start + line_offset)));
                proof {
                    assert(out@.subrange(0, out0.len() as int) =~= out0) by {
                        assert(out@.subrange(0, out0.len() as int) =~= before_out.subrange(0, out0.len() as int));
                    }
                    if line_count >= 1 {
                        assert(out_views(out@) =~= out_views(before_out).push(out_views(out@).last()));
                    }
                }
            }
            let ghost before_list = page_offset_list@;
            note_page_end(page_offset_list, height, *line_num, page_num, PageOffset { line_index, line_start: line_start + end });
            proof {
                lemma_page_step(*line_num as int, height as int);
                assert(page_offset_list@.subrange(0, list0.len() as int) =~= list0) by {
                    assert(page_offset_list@.subrange(0, list0.len() as int) =~= page_offset_list@.subrange(0, before_list.len() as int).subrange(0, list0.len() as int));
                }
            }
            if *cur_line_count >= line_count {
                proof {
                    assert(out@.len() - out0.len() == *cur_line_count - cur0);
                    assert(out@.subrange(0, out0.len() as int) == out0);
                    assert(page_offset_list@.subrange(0, list0.len() as int) == list0);
                    lemma_wrap_rows_prefix(chars, wid, k + 1);
                }
                return;
            }
            proof {
                lemma_utf8_count_concat(chars.take(char_offset as int), chars.subrange(char_offset as int, k as int));
                assert(chars.take(char_offset as int) + chars.subrange(char_offset as int, k as int) =~= chars.take(k as int));
            }
            line_offset = line_offset + current_bytes;
            char_offset = char_offset + current_chars;
            current_width = 0;
            current_bytes = 0;
            current_chars = 0;
            proof {
                assert(chars.subrange(char_offset as int, k as int) =~= Seq::<char>::empty());
            }
        }
        proof {
            let o = char_offset as int;
            assert(chars.subrange(o, k + 1).drop_last() =~= chars.subrange(o, k as int));
            assert(chars.subrange(o, k + 1).last() == chars[k as int]);
            assert(utf8_count(chars.subrange(o, k + 1)) == utf8_count(chars.subrange(o, k as int)) + utf8_size(ch));
        }
        current_width = current_width + ch_width;
        current_bytes = current_bytes + utf8_len(ch);
        current_chars = current_chars + 1;
        k = k + 1;
        proof {
            let st2 = wrap_upto(chars, wid, k as int);
            assert(st2.width == current_width);
            assert(st2.offset == char_offset);
            assert(st2.len == current_chars);
            assert(*line_num == n0 + st2.rows.len());
        }
    }
    proof {
        lemma_wrap_shape(chars, wid, k as int);
        lemma_utf8_count_len(chars.subrange(char_offset as int, k as int));
    }
    if current_bytes > 0 {
        proof {
            let st = wrap_upto(chars, wid, k as int);
            let j = st.rows.len() as int;
            assert(wrap_rows(chars, wid)[j] == (st.offset, st.len));
            assert(lr[j] == EditRow {
                text: chars.subrange(st.offset as int, (st.offset + st.len) as int),
                line_index: line_index as nat,
                offset: line_start as nat + utf8_count(chars.take(st.offset as int)),
                len: utf8_count(chars.subrange(st.offset as int, (st.offset + st.len) as int)),
            });
            assert(rows[n0 - s0 + j] == rows.subrange(n0 - s0, n0 - s0 + lr.len())[j]);
            lemma_emit_step(rows, s0, skip_line as int, height as nat, n0 - s0 + j);
        }
        *line_num = *line_num + 1;
        let ghost before_out = out@;
        if *line_num >= skip_line {
            *cur_line_count = *cur_line_count + 1;
            let txt = crate::text::slice_chars(line_txt.as_slice(), char_offset, line_txt.len());
            out.push((string_of(txt.as_slice()), EditLineMeta::new(current_bytes, *page_num + 1, *line_num, line_index, line_start + line_offset)));
            proof {
                assert(out@.subrange(0, out0.len() as int) =~= out0) by {
                    assert(out@.subrange(0, out0.len() as int) =~= before_out.subrange(0, out0.len() as int));
                }
                if line_count >= 1 {
                    assert(out_views(out@) =~= out_views(before_out).push(out_views(out@).last()));
                }
            }
        }
        let ghost before_list = page_offset_list@;
        note_page_end(page_offset_list, height, *line_num, page_num, PageOffset { line_index: line_index + 1, line_start: 0 });
        proof {
            lemma_page_step(*line_num as int, height as int);
            assert(page_offset_list@.subrange(0, list0.len() as int) =~= list0) by {
                assert(page_offset_list@.subrange(0, list0.len() as int) =~= page_offset_list@.subrange(0, before_list.len() as int).subrange(0, list0.len() as int));
            }
        }
    }
}

} // verus!
