use vstd::prelude::*;
use crate::command::chars_of;
use crate::common::ring_vec::RingVec;
use crate::edit::{lemma_utf8_count_concat, lemma_utf8_count_len, utf8_count, utf8_len, utf8_size};
use crate::handle::text::{HandleBase, HandleCmdInpEdit};

verus! {

/// Where a displayed row sits: the file offset of the block holding it, its byte offset in
/// that block, its length in bytes, the logical line it belongs to, its length in
/// characters, and the number and file offset of its block.
#[derive(Debug, Clone, Copy)]
pub struct LineState {
    line_file_start: usize,
    line_offset: usize,
    txt_len: usize,
    line_index: usize,
    char_len: usize,
    block_num: usize,
    block_offset: usize,
}

impl LineState {
    /// The block offset, byte offset, byte length and line.
    pub closed spec fn fields(&self) -> (nat, nat, nat, nat) {
        (self.line_file_start as nat, self.line_offset as nat, self.txt_len as nat, self.line_index as nat)
    }

    /// The character length, block number and block offset.
    pub closed spec fn block_fields(&self) -> (nat, nat, nat) {
        (self.char_len as nat, self.block_num as nat, self.block_offset as nat)
    }

    pub fn new(
        line_file_start: usize,
        line_offset: usize,
        txt_len: usize,
        line_index: usize,
        char_len: usize,
        block_num: usize,
        block_offset: usize,
    ) -> (r: LineState)
        ensures
            r.fields() == (line_file_start as nat, line_offset as nat, txt_len as nat, line_index as nat),
            r.block_fields() == (char_len as nat, block_num as nat, block_offset as nat),
    {
        LineState { line_file_start, line_offset, txt_len, line_index, char_len, block_num, block_offset }
    }

    pub fn get_line_file_start(&self) -> (r: usize)
        ensures
            r == self.fields().0,
    {
        self.line_file_start
    }

    pub fn get_line_offset(&self) -> (r: usize)
        ensures
            r == self.fields().1,
    {
        self.line_offset
    }

    pub fn get_txt_len(&self) -> (r: usize)
        ensures
            r == self.fields().2,
    {
        self.txt_len
    }

    pub fn get_line_index(&self) -> (r: usize)
        ensures
            r == self.fields().3,
    {
        self.line_index
    }

    pub fn get_char_len(&self) -> (r: usize)
        ensures
            r == self.block_fields().0,
    {
        self.char_len
    }

    pub fn get_block_num(&self) -> (r: usize)
        ensures
            r == self.block_fields().1,
    {
        self.block_num
    }

    pub fn get_block_offset(&self) -> (r: usize)
        ensures
            r == self.block_fields().2,
    {
        self.block_offset
    }
}

/// A displayed row's text, held in pieces.
pub struct CacheStr {
    parts: Vec<String>,
}

/// The characters of some pieces of text, one after another.
pub open spec fn parts_chars(parts: Seq<String>) -> Seq<char> {
    parts.map_values(|s: String| s@).flatten()
}

impl CacheStr {
    /// The row's characters.
    pub closed spec fn view(&self) -> Seq<char> {
        parts_chars(self.parts@)
    }

    pub fn new(parts: Vec<String>) -> (r: CacheStr)
        ensures
            r.view() == parts_chars(parts@),
    {
        CacheStr { parts }
    }

    /// The pieces of the row.
    pub fn as_parts(&self) -> (r: &[String])
        ensures
            parts_chars(r@) == self.view(),
    {
        self.parts.as_slice()
    }
}

/// A cursor in a row: its character column, its byte offset, and the byte size of the
/// character before it (0 at the row's start).
#[derive(Debug, Clone, Copy)]
pub struct CursorByteState {
    pub cursor_x: usize,
    pub bytes_cursor: usize,
    pub bytes_cursor_size: usize,
}

/// The file offset where a row starts.
pub open spec fn abs_start(s: LineState) -> int {
    (s.fields().0 + s.fields().1) as int
}

/// The file offset where a row starts: its block's offset plus its offset in the block.
pub fn line_abs_start(line_state: &LineState) -> (r: usize)
    requires
        abs_start(*line_state) <= usize::MAX,
    ensures
        r == abs_start(*line_state),
{
    line_state.get_line_file_start() + line_state.get_line_offset()
}

/// The first row from `i` on that starts at file offset `target`.
pub open spec fn first_starting_at(rows: Seq<LineState>, target: int, i: int) -> Option<int>
    decreases rows.len() - i,
{
    if i < 0 || i >= rows.len() {
        None
    } else if abs_start(rows[i]) == target {
        Some(i)
    } else {
        first_starting_at(rows, target, i + 1)
    }
}

/// The first row from `i` on whose bytes (its end included) hold file offset `target`.
pub open spec fn first_holding(rows: Seq<LineState>, target: int, i: int) -> Option<int>
    decreases rows.len() - i,
{
    if i < 0 || i >= rows.len() {
        None
    } else if abs_start(rows[i]) <= target <= abs_start(rows[i]) + rows[i].fields().2 {
        Some(i)
    } else {
        first_holding(rows, target, i + 1)
    }
}

/// The row of the page that shows file offset `target`: a later row starting exactly there
/// (the next row wins on a row boundary), else the first row holding it, else the first row
/// when the offset comes before the page and the last row when after; none for no rows.
pub open spec fn visual_line_for(rows: Seq<LineState>, target: int) -> Option<int> {
    if rows.len() == 0 {
        None
    } else {
        match first_starting_at(rows, target, 1) {
            Some(r) => Some(r),
            None => match first_holding(rows, target, 0) {
                Some(r) => Some(r),
                None => if target < abs_start(rows[0]) {
                    Some(0)
                } else {
                    Some(rows.len() - 1)
                },
            },
        }
    }
}

/// The rows found lie on the page.
proof fn lemma_first_rows_bounds(rows: Seq<LineState>, target: int, i: int)
    requires
        0 <= i,
    ensures
        first_starting_at(rows, target, i) matches Some(r) ==> i <= r < rows.len(),
        first_holding(rows, target, i) matches Some(r) ==> i <= r < rows.len(),
    decreases rows.len() - i,
{
    if i < rows.len() {
        lemma_first_rows_bounds(rows, target, i + 1);
    }
}

/// The row found for an offset lies on the page.
pub proof fn lemma_visual_line_bounds(rows: Seq<LineState>, target: int)
    ensures
        visual_line_for(rows, target) matches Some(r) ==> 0 <= r < rows.len(),
        rows.len() > 0 ==> visual_line_for(rows, target) is Some,
{
    lemma_first_rows_bounds(rows, target, 1);
    lemma_first_rows_bounds(rows, target, 0);
}

/// The row of the page that shows file offset `target`.
pub fn find_visual_line_for_abs_offset(meta: &RingVec<LineState>, target_abs_offset: usize) -> (r: Option<usize>)
    requires
        meta.wf(),
        forall|i: int| 0 <= i < meta.view().len() ==> abs_start(#[trigger] meta.view()[i]) + meta.view()[i].fields().2 <= usize::MAX,
    ensures
        r == (match visual_line_for(meta.view(), target_abs_offset as int) {
            Some(x) => Some(x as usize),
            None => None,
        }),
{
    let ghost rows = meta.view();
    if meta.is_empty() {
        return None;
    }
    let n = meta.len();
    let mut row: usize = 1;
    while row < n
        invariant
            meta.wf(),
            rows == meta.view(),
            n == rows.len(),
            1 <= row <= n,
            forall|i: int| 0 <= i < rows.len() ==> abs_start(#[trigger] rows[i]) + rows[i].fields().2 <= usize::MAX,
            first_starting_at(rows, target_abs_offset as int, 1) == first_starting_at(rows, target_abs_offset as int, row as int),
        decreases n - row,
    {
        let line_state = meta.get(row).unwrap();
        proof {
            assert(abs_start(rows[row as int]) + rows[row as int].fields().2 <= usize::MAX);
        }
        if target_abs_offset == line_abs_start(line_state) {
            return Some(row);
        }
        row = row + 1;
    }
    let mut row: usize = 0;
    while row < n
        invariant
            meta.wf(),
            rows == meta.view(),
            n == rows.len(),
            n >= 1,
            row <= n,
            forall|i: int| 0 <= i < rows.len() ==> abs_start(#[trigger] rows[i]) + rows[i].fields().2 <= usize::MAX,
            first_starting_at(rows, target_abs_offset as int, 1) is None,
            first_holding(rows, target_abs_offset as int, 0) == first_holding(rows, target_abs_offset as int, row as int),
        decreases n - row,
    {
        let line_state = meta.get(row).unwrap();
        proof {
            assert(abs_start(rows[row as int]) + rows[row as int].fields().2 <= usize::MAX);
        }
        let start = line_abs_start(line_state);
        let end = start + line_state.get_txt_len();
        if target_abs_offset >= start && target_abs_offset <= end {
            return Some(row);
        }
        row = row + 1;
    }
    let first = meta.get(0).unwrap();
    proof {
        assert(abs_start(rows[0]) + rows[0].fields().2 <= usize::MAX);
    }
    if target_abs_offset < line_abs_start(first) {
        return Some(0);
    }
    Some(n - 1)
}

/// A sequence of pieces, flattened, is the pieces before `p`, piece `p`, and those after.
proof fn lemma_flatten_split(s: Seq<Seq<char>>, p: int)
    requires
        0 <= p < s.len(),
    ensures
        s.flatten() == s.take(p).flatten() + s[p] + s.skip(p + 1).flatten(),
        s.take(p + 1).flatten() == s.take(p).flatten() + s[p],
{
    assert(s =~= s.take(p) + (seq![s[p]] + s.skip(p + 1)));
    vstd::seq_lib::lemma_flatten_concat(s.take(p), seq![s[p]] + s.skip(p + 1));
    vstd::seq_lib::lemma_flatten_concat(seq![s[p]], s.skip(p + 1));
    seq![s[p]].lemma_flatten_singleton();
    assert(s.take(p + 1) =~= s.take(p).push(s[p]));
    s.take(p).lemma_flatten_push(s[p]);
}

/// The cursor at column `x` of a row with characters `cs` (at the row's end when `x` is past
/// it): its column, its byte offset, and the byte size of the character before it.
pub open spec fn cursor_at_column(cs: Seq<char>, x: int) -> (int, int, int) {
    let k = if x < cs.len() { x } else { cs.len() as int };
    (k, utf8_count(cs.take(k)) as int, if k > 0 { utf8_size(cs[k - 1]) as int } else { 0 })
}

/// The cursor at character column `cursor_x` of `line`, with its byte offset.
pub fn line_cursor_from_char_position(line: &CacheStr, cursor_x: usize) -> (r: CursorByteState)
    requires
        utf8_count(line.view()) <= usize::MAX,
    ensures
        (r.cursor_x as int, r.bytes_cursor as int, r.bytes_cursor_size as int) == cursor_at_column(line.view(), cursor_x as int),
{
    let parts = line.as_parts();
    let ghost pv = parts@.map_values(|s: String| s@);
    let ghost all = line.view();
    let mut bytes_seen: usize = 0;
    let mut chars_seen: usize = 0;
    let mut prev_char_size: usize = 0;
    let mut p: usize = 0;
    proof {
        assert(pv.take(0).flatten() =~= Seq::<char>::empty()) by {
            assert(pv.take(0) =~= Seq::<Seq<char>>::empty());
        }
        assert(all.take(0) =~= Seq::<char>::empty());
    }
    while p < parts.len()
        invariant
            pv == parts@.map_values(|s: String| s@),
            all == pv.flatten(),
            all == line.view(),
            utf8_count(all) <= usize::MAX,
            p <= parts@.len(),
            chars_seen == pv.take(p as int).flatten().len(),
            chars_seen <= cursor_x,
            chars_seen <= all.len(),
            pv.take(p as int).flatten() == all.take(chars_seen as int),
            bytes_seen == utf8_count(all.take(chars_seen as int)),
            prev_char_size == (if chars_seen > 0 { utf8_size(all[chars_seen - 1]) } else { 0 }),
        decreases parts@.len() - p,
    {
        let cs = chars_of(parts[p].as_str());
        proof {
            lemma_flatten_split(pv, p as int);
            assert(cs@ == pv[p as int]);
        }
        let ghost base = chars_seen as int;
        let mut j: usize = 0;
        while j < cs.len()
            invariant
                pv == parts@.map_values(|s: String| s@),
                all == pv.flatten(),
                all == line.view(),
                utf8_count(all) <= usize::MAX,
                p < parts@.len(),
                cs@ == pv[p as int],
                all == pv.take(p as int).flatten() + pv[p as int] + pv.skip(p + 1).flatten(),
                base == pv.take(p as int).flatten().len(),
                j <= cs@.len(),
                chars_seen == base + j,
                chars_seen <= cursor_x,
                bytes_seen == utf8_count(all.take(chars_seen as int)),
                prev_char_size == (if chars_seen > 0 { utf8_size(all[chars_seen - 1]) } else { 0 }),
            decreases cs@.len() - j,
        {
            if chars_seen == cursor_x {
                proof {
                    assert(all.len() == base + cs@.len() + pv.skip(p + 1).flatten().len());
                }
                return CursorByteState { cursor_x: chars_seen, bytes_cursor: bytes_seen, bytes_cursor_size: prev_char_size };
            }
            let ch = cs[j];
            proof {
                assert(all[chars_seen as int] == ch);
                assert(all.take(chars_seen + 1).drop_last() =~= all.take(chars_seen as int));
                assert(all.take(chars_seen + 1).last() == ch);
                assert(all.take(chars_seen + 1) =~= all.take(chars_seen as int).push(ch));
                lemma_utf8_count_concat(all.take(chars_seen + 1), all.skip(chars_seen + 1));
                assert(all.take(chars_seen + 1) + all.skip(chars_seen + 1) =~= all);
            }
            let ch_len = utf8_len(ch);
            bytes_seen = bytes_seen + ch_len;
            prev_char_size = ch_len;
            chars_seen = chars_seen + 1;
            j = j + 1;
        }
        proof {
            assert(pv.take(p + 1).flatten() =~= all.take(chars_seen as int));
        }
        p = p + 1;
    }
    proof {
        assert(pv.take(parts@.len() as int) =~= pv);
    }
    CursorByteState { cursor_x: chars_seen, bytes_cursor: bytes_seen, bytes_cursor_size: prev_char_size }
}

/// From character `k` on, the first character of `cs` that ends past byte `b` (the count of
/// characters when none does).
pub open spec fn first_ending_past(cs: Seq<char>, b: int, k: int) -> int
    decreases cs.len() - k,
{
    if k < 0 || k >= cs.len() {
        cs.len() as int
    } else if utf8_count(cs.take(k + 1)) > b {
        k
    } else {
        first_ending_past(cs, b, k + 1)
    }
}

/// The cursor at byte `b` of a row with characters `cs`: at the start of the character
/// holding that byte (the row's end when the byte is past it), with its column, its byte
/// offset, and the byte size of the character before it.
pub open spec fn cursor_at_byte(cs: Seq<char>, b: int) -> (int, int, int) {
    let k = first_ending_past(cs, b, 0);
    (k, utf8_count(cs.take(k)) as int, if k > 0 { utf8_size(cs[k - 1]) as int } else { 0 })
}

/// The cursor at byte offset `bytes_cursor` of `line`, moved back to the start of the
/// character holding it.
pub fn line_cursor_from_byte_offset(line: &CacheStr, bytes_cursor: usize) -> (r: CursorByteState)
    requires
        utf8_count(line.view()) <= usize::MAX,
    ensures
        (r.cursor_x as int, r.bytes_cursor as int, r.bytes_cursor_size as int) == cursor_at_byte(line.view(), bytes_cursor as int),
{
    let parts = line.as_parts();
    let ghost pv = parts@.map_values(|s: String| s@);
    let ghost all = line.view();
    let mut bytes_seen: usize = 0;
    let mut chars_seen: usize = 0;
    let mut prev_char_size: usize = 0;
    let mut p: usize = 0;
    proof {
        assert(pv.take(0).flatten() =~= Seq::<char>::empty()) by {
            assert(pv.take(0) =~= Seq::<Seq<char>>::empty());
        }
        assert(all.take(0) =~= Seq::<char>::empty());
    }
    while p < parts.len()
        invariant
            pv == parts@.map_values(|s: String| s@),
            all == pv.flatten(),
            all == line.view(),
            utf8_count(all) <= usize::MAX,
            p <= parts@.len(),
            chars_seen == pv.take(p as int).flatten().len(),
            chars_seen <= all.len(),
            pv.take(p as int).flatten() == all.take(chars_seen as int),
            bytes_seen == utf8_count(all.take(chars_seen as int)),
            prev_char_size == (if chars_seen > 0 { utf8_size(all[chars_seen - 1]) } else { 0 }),
            first_ending_past(all, bytes_cursor as int, 0) == first_ending_past(all, bytes_cursor as int, chars_seen as int),
        decreases parts@.len() - p,
    {
        let cs = chars_of(parts[p].as_str());
        proof {
            lemma_flatten_split(pv, p as int);
            assert(cs@ == pv[p as int]);
        }
        let ghost base = chars_seen as int;
        let mut j: usize = 0;
        while j < cs.len()
            invariant
                pv == parts@.map_values(|s: String| s@),
                all == pv.flatten(),
                all == line.view(),
                utf8_count(all) <= usize::MAX,
                p < parts@.len(),
                cs@ == pv[p as int],
                all == pv.take(p as int).flatten() + pv[p as int] + pv.skip(p + 1).flatten(),
                base == pv.take(p as int).flatten().len(),
                j <= cs@.len(),
                chars_seen == base + j,
                bytes_seen == utf8_count(all.take(chars_seen as int)),
                prev_char_size == (if chars_seen > 0 { utf8_size(all[chars_seen - 1]) } else { 0 }),
                first_ending_past(all, bytes_cursor as int, 0) == first_ending_past(all, bytes_cursor as int, chars_seen as int),
            decreases cs@.len() - j,
        {
            let ch = cs[j];
            proof {
                lemma_utf8_count_len(all);
                assert(all.len() == base + cs@.len() + pv.skip(p + 1).flatten().len());
                assert(all[chars_seen as int] == ch);
                assert(all.take(chars_seen + 1).drop_last() =~= all.take(chars_seen as int));
                assert(all.take(chars_seen + 1).last() == ch);
                lemma_utf8_count_concat(all.take(chars_seen + 1), all.skip(chars_seen + 1));
                assert(all.take(chars_seen + 1) + all.skip(chars_seen + 1) =~= all);
            }
            let char_start = bytes_seen;
            let ch_len = utf8_len(ch);
            let char_end = char_start + ch_len;
            if bytes_cursor <= char_start {
                return CursorByteState { cursor_x: chars_seen, bytes_cursor: char_start, bytes_cursor_size: prev_char_size };
            }
            if bytes_cursor < char_end {
                return CursorByteState { cursor_x: chars_seen, bytes_cursor: char_start, bytes_cursor_size: prev_char_size };
            }
            bytes_seen = char_end;
            prev_char_size = ch_len;
            chars_seen = chars_seen + 1;
            j = j + 1;
        }
        proof {
            assert(pv.take(p + 1).flatten() =~= all.take(chars_seen as int));
        }
        p = p + 1;
    }
    proof {
        assert(pv.take(parts@.len() as int) =~= pv);
    }
    CursorByteState { cursor_x: chars_seen, bytes_cursor: bytes_seen, bytes_cursor_size: prev_char_size }
}

/// A control character: general category Cc, that is U+0000 to U+001F and U+007F to U+009F.
pub open spec fn is_control_char(c: char) -> bool {
    (c as u32) <= 0x1F || (0x7F <= (c as u32) && (c as u32) <= 0x9F)
}

/// Whether `c` is a control character (what `char::is_control` answers).
pub fn is_control(c: char) -> (r: bool)
    ensures
        r == is_control_char(c),
{
    let v = c as u32;
    v <= 0x1F || (0x7F <= v && v <= 0x9F)
}

/// The byte size of the last character of `cs` that is not a control character (0 when
/// there is none).
pub open spec fn last_visible_size(cs: Seq<char>) -> nat
    decreases cs.len(),
{
    if cs.len() == 0 {
        0
    } else if !is_control_char(cs.last()) {
        utf8_size(cs.last())
    } else {
        last_visible_size(cs.drop_last())
    }
}

/// The byte size a cursor at the start of row `row` steps back over: none on the first row,
/// one (the line break) when the row starts a new line, else the last visible character of
/// the row before.
pub open spec fn size_before_row(content: Seq<CacheStr>, meta: Seq<LineState>, row: int) -> nat {
    if row == 0 {
        0
    } else if row < meta.len() && meta[row].fields().3 != meta[row - 1].fields().3 {
        1
    } else if row - 1 < content.len() {
        last_visible_size(content[row - 1].view())
    } else {
        0
    }
}

/// The byte size of the last visible character of `line`.
fn last_visible_char_size(line: &CacheStr) -> (r: usize)
    ensures
        r == last_visible_size(line.view()),
{
    let parts = line.as_parts();
    let ghost pv = parts@.map_values(|s: String| s@);
    let ghost all = line.view();
    let mut size: usize = 0;
    let mut p: usize = 0;
    let ghost mut seen: int = 0;
    proof {
        assert(pv.take(0).flatten() =~= Seq::<char>::empty()) by {
            assert(pv.take(0) =~= Seq::<Seq<char>>::empty());
        }
        assert(all.take(0) =~= Seq::<char>::empty());
    }
    while p < parts.len()
        invariant
            pv == parts@.map_values(|s: String| s@),
            all == pv.flatten(),
            all == line.view(),
            p <= parts@.len(),
            seen == pv.take(p as int).flatten().len(),
            0 <= seen <= all.len(),
            pv.take(p as int).flatten() == all.take(seen),
            size == last_visible_size(all.take(seen)),
        decreases parts@.len() - p,
    {
        let cs = chars_of(parts[p].as_str());
        proof {
            lemma_flatten_split(pv, p as int);
            assert(cs@ == pv[p as int]);
        }
        let ghost base = seen;
        let mut j: usize = 0;
        while j < cs.len()
            invariant
                pv == parts@.map_values(|s: String| s@),
                all == pv.flatten(),
                all == line.view(),
                p < parts@.len(),
                cs@ == pv[p as int],
                all == pv.take(p as int).flatten() + pv[p as int] + pv.skip(p + 1).flatten(),
                base == pv.take(p as int).flatten().len(),
                j <= cs@.len(),
                seen == base + j,
                0 <= seen,
                size == last_visible_size(all.take(seen)),
            decreases cs@.len() - j,
        {
            let ch = cs[j];
            proof {
                assert(all.len() == base + cs@.len() + pv.skip(p + 1).flatten().len());
                assert(all[seen] == ch);
                assert(all.take(seen + 1).drop_last() =~= all.take(seen));
                assert(all.take(seen + 1).last() == ch);
            }
            if !is_control(ch) {
                size = utf8_len(ch);
            }
            proof {
                seen = seen + 1;
            }
            j = j + 1;
        }
        proof {
            assert(pv.take(p + 1).flatten() =~= all.take(seen));
        }
        p = p + 1;
    }
    proof {
        assert(pv.take(parts@.len() as int) =~= pv);
        assert(all.take(seen) =~= all);
    }
    size
}

/// The byte size the cursor steps back over from the start of row `row` of the page.
pub fn previous_cursor_size_at_line_start(content: &RingVec<CacheStr>, meta: &RingVec<LineState>, row: usize) -> (r: usize)
    requires
        content.wf(),
        meta.wf(),
    ensures
        r == size_before_row(content.view(), meta.view(), row as int),
{
    if row == 0 {
        return 0;
    }
    let starts_new_logical_line = match (meta.get(row), meta.get(row - 1)) {
        (Some(cur), Some(prev)) => cur.get_line_index() != prev.get_line_index(),
        _ => false,
    };
    if starts_new_logical_line {
        return 1;
    }
    match content.get(row - 1) {
        Some(prev_line) => last_visible_char_size(prev_line),
        None => 0,
    }
}

/// The editor's text key handling.
pub struct HandleTxtEdit {
    txt_base: HandleBase,
}

/// The editor's key handling: text editing and the command line.
pub struct HandleEdit {
    txt_edit: HandleTxtEdit,
    cmdinp_edit: HandleCmdInpEdit,
}

impl HandleEdit {
    pub fn new() -> (r: HandleEdit) {
        HandleEdit { txt_edit: HandleTxtEdit { txt_base: HandleBase {} }, cmdinp_edit: HandleCmdInpEdit {} }
    }
}

/// Every row of the page fits its byte count in a `usize`.
pub open spec fn rows_fit(content: Seq<CacheStr>) -> bool {
    forall|i: int| 0 <= i < content.len() ==> utf8_count((#[trigger] content[i]).view()) <= usize::MAX
}

/// The cursor at column `x` of row `y` of the page (column, byte offset, and the size it
/// steps back over, that of the row before when at the row's start); none without such a
/// row.
pub open spec fn refreshed(content: Seq<CacheStr>, meta: Seq<LineState>, x: int, y: int) -> Option<(int, int, int)> {
    if y >= content.len() {
        None
    } else {
        let c = cursor_at_column(content[y].view(), x);
        Some((c.0, c.1, if c.1 == 0 { size_before_row(content, meta, y) as int } else { c.2 }))
    }
}

/// The cursor at column `cursor_x` of row `cursor_y` of the shown page, as the editor
/// refreshes it; `None` when the page has no such row (the cursor's bytes then go to 0).
pub fn refresh_cursor_bytes(content: &RingVec<CacheStr>, meta: &RingVec<LineState>, cursor_x: usize, cursor_y: usize) -> (r: Option<CursorByteState>)
    requires
        content.wf(),
        meta.wf(),
        rows_fit(content.view()),
    ensures
        match refreshed(content.view(), meta.view(), cursor_x as int, cursor_y as int) {
            None => r is None,
            Some(t) => r matches Some(c) && (c.cursor_x as int, c.bytes_cursor as int, c.bytes_cursor_size as int) == t,
        },
{
    let line = match content.get(cursor_y) {
        Some(line) => line,
        None => {
            return None;
        },
    };
    proof {
        assert(utf8_count(content.view()[cursor_y as int].view()) <= usize::MAX);
    }
    let cursor = line_cursor_from_char_position(line, cursor_x);
    let size = if cursor.bytes_cursor == 0 {
        previous_cursor_size_at_line_start(content, meta, cursor_y)
    } else {
        cursor.bytes_cursor_size
    };
    Some(CursorByteState { cursor_x: cursor.cursor_x, bytes_cursor: cursor.bytes_cursor, bytes_cursor_size: size })
}

/// Where the cursor goes when the editor moves it to a file offset on the shown page.
pub enum CursorSync {
    /// To the page's first row, column 0 (the page has no rows).
    Home,
    /// Nowhere: the row found has no text on the page.
    Keep,
    /// To this row, at this place.
    At(usize, CursorByteState),
}

/// Where the cursor goes for file offset `target`: home for an empty page; else, on the row
/// showing the offset, at the start of the character holding it (the offset is first held
/// within the row's bytes), stepping back over the row before at the row's start.
pub open spec fn synced(content: Seq<CacheStr>, meta: Seq<LineState>, target: int, r: CursorSync) -> bool {
    match visual_line_for(meta, target) {
        None => r is Home,
        Some(row) => if row >= content.len() {
            r is Keep
        } else {
            let s = abs_start(meta[row]);
            let e = s + meta[row].fields().2;
            let off = (if target < s { s } else if target > e { e } else { target }) - s;
            let c = cursor_at_byte(content[row].view(), off);
            r matches CursorSync::At(y, cur) && y == row && cur.cursor_x == c.0 && cur.bytes_cursor == c.1
                && cur.bytes_cursor_size == (if c.1 == 0 { size_before_row(content, meta, row) as int } else { c.2 })
        },
    }
}

/// Where the cursor goes when the editor moves it to file offset `target_abs_offset` on the
/// shown page, with the page's first row (`None` for an empty page).
pub fn sync_cursor_to_abs_offset(content: &RingVec<CacheStr>, meta: &RingVec<LineState>, target_abs_offset: usize) -> (r: (Option<LineState>, CursorSync))
    requires
        content.wf(),
        meta.wf(),
        rows_fit(content.view()),
        forall|i: int| 0 <= i < meta.view().len() ==> abs_start(#[trigger] meta.view()[i]) + meta.view()[i].fields().2 <= usize::MAX,
    ensures
        meta.view().len() == 0 ==> r.0 is None,
        meta.view().len() > 0 ==> r.0 == Some(meta.view()[0]),
        synced(content.view(), meta.view(), target_abs_offset as int, r.1),
{
    let first = match meta.get(0) {
        Some(f) => *f,
        None => {
            return (None, CursorSync::Home);
        },
    };
    proof {
        lemma_visual_line_bounds(meta.view(), target_abs_offset as int);
    }
    let _rows = meta.len();
    let found = find_visual_line_for_abs_offset(meta, target_abs_offset);
    let row = match found {
        Some(row) => row,
        None => {
            return (Some(first), CursorSync::Home);
        },
    };
    proof {
        let v = visual_line_for(meta.view(), target_abs_offset as int);
        assert(v is Some);
        assert(0 <= v->0 < meta.view().len());
        assert(found == Some((v->0) as usize));
        assert(row as int == v->0);
    }
    let line_state = match meta.get(row) {
        Some(s) => s,
        None => {
            return (Some(first), CursorSync::Keep);
        },
    };
    let line = match content.get(row) {
        Some(l) => l,
        None => {
            return (Some(first), CursorSync::Keep);
        },
    };
    proof {
        assert(abs_start(meta.view()[row as int]) + meta.view()[row as int].fields().2 <= usize::MAX);
        assert(utf8_count(content.view()[row as int].view()) <= usize::MAX);
    }
    let row_start = line_abs_start(line_state);
    let row_end = row_start + line_state.get_txt_len();
    let clamped = if target_abs_offset < row_start {
        row_start
    } else if target_abs_offset > row_end {
        row_end
    } else {
        target_abs_offset
    };
    let row_relative_offset = clamped - row_start;
    let cursor = line_cursor_from_byte_offset(line, row_relative_offset);
    let size = if cursor.bytes_cursor == 0 {
        previous_cursor_size_at_line_start(content, meta, row)
    } else {
        cursor.bytes_cursor_size
    };
    let r = CursorSync::At(row, CursorByteState { cursor_x: cursor.cursor_x, bytes_cursor: cursor.bytes_cursor, bytes_cursor_size: size });
    proof {
        let rows = meta.view();
        assert(visual_line_for(rows, target_abs_offset as int) == Some(row as int));
        assert(*line_state == rows[row as int]);
        assert(*line == content.view()[row as int]);
        let s = abs_start(rows[row as int]);
        let e = s + rows[row as int].fields().2;
        assert(row_start == s);
        assert(row_end == e);
        let off = (if target_abs_offset < s { s } else if target_abs_offset > e { e } else { target_abs_offset as int }) - s;
        assert(row_relative_offset == off);
    }
    (Some(first), r)
}

/// What backspace does in the editor.
#[derive(Debug, PartialEq, Eq, Structural)]
pub enum BackspaceStep {
    /// Drops the last character of the command line.
    PopCommand,
    /// Nothing: the cursor is at the start of the file, or on no row.
    Nothing,
    /// Scrolls back one row and joins the top row's line with the one before it.
    JoinWithRowAbove,
    /// Deletes the line break before the cursor's row, which sits at file offset `at`.
    DeleteNewline { at: usize },
    /// Deletes the character before the cursor.
    DeleteChar,
}

/// What backspace does: in command mode it edits the command line; at the page's top-left
/// corner it joins with the row above unless the page starts the file; at the start of a
/// row that starts its line it deletes the line break before it; else the character before
/// the cursor.
pub open spec fn backspace_step_of(
    in_command_mode: bool,
    cursor_x: usize,
    cursor_y: usize,
    start: LineState,
    cur: Option<LineState>,
    bytes_cursor: usize,
) -> BackspaceStep {
    if in_command_mode {
        BackspaceStep::PopCommand
    } else if cursor_y == 0 && cursor_x == 0 {
        if start.fields().3 == 0 && start.fields().1 == 0 {
            BackspaceStep::Nothing
        } else {
            BackspaceStep::JoinWithRowAbove
        }
    } else {
        match cur {
            None => BackspaceStep::Nothing,
            Some(m) => if m.fields().1 == 0 && bytes_cursor == 0 {
                BackspaceStep::DeleteNewline { at: (m.fields().0 + m.fields().1 + bytes_cursor - 1) as usize }
            } else {
                BackspaceStep::DeleteChar
            },
        }
    }
}

/// Decides what backspace does, the top row of the page being `start` and the cursor's row
/// `cur` (`None` when the page has no row there).
pub fn backspace_step(
    in_command_mode: bool,
    cursor_x: usize,
    cursor_y: usize,
    start: &LineState,
    cur: Option<&LineState>,
    bytes_cursor: usize,
) -> (r: BackspaceStep)
    requires
        cur matches Some(m) ==> m.fields().0 + m.fields().1 + bytes_cursor <= usize::MAX,
        !in_command_mode && !(cursor_y == 0 && cursor_x == 0) && bytes_cursor == 0 ==> (cur matches Some(m) ==> (
        m.fields().1 == 0 ==> m.fields().0 >= 1)),
    ensures
        r == backspace_step_of(in_command_mode, cursor_x, cursor_y, *start, match cur {
            Some(m) => Some(*m),
            None => None,
        }, bytes_cursor),
{
    if in_command_mode {
        return BackspaceStep::PopCommand;
    }
    if cursor_y == 0 && cursor_x == 0 {
        if start.get_line_index() == 0 && start.get_line_offset() == 0 {
            return BackspaceStep::Nothing;
        }
        return BackspaceStep::JoinWithRowAbove;
    }
    let m = match cur {
        Some(m) => m,
        None => {
            return BackspaceStep::Nothing;
        },
    };
    if m.get_line_offset() == 0 && bytes_cursor == 0 {
        BackspaceStep::DeleteNewline { at: m.get_line_file_start() + m.get_line_offset() + bytes_cursor - 1 }
    } else {
        BackspaceStep::DeleteChar
    }
}

/// The characters of the row above the cursor's, less one (0 on the top row or without that
/// row).
pub fn prev_line_char_len(line_meta: &RingVec<LineState>, cursor_y: usize) -> (r: usize)
    requires
        line_meta.wf(),
    ensures
        r == (if cursor_y == 0 || cursor_y - 1 >= line_meta.view().len() {
            0
        } else {
            let n = line_meta.view()[cursor_y - 1].block_fields().0;
            if n >= 1 { n - 1 } else { 0 }
        }),
{
    if cursor_y == 0 {
        return 0;
    }
    match line_meta.get(cursor_y - 1) {
        Some(m) => m.get_char_len().saturating_sub(1),
        None => 0,
    }
}

/// The file offset a character deletion records: where the deleted bytes started.
pub fn delete_char_offset(cur: &LineState, bytes_cursor: usize, deleted: usize) -> (r: usize)
    requires
        cur.fields().0 + cur.fields().1 + bytes_cursor <= usize::MAX,
        deleted <= cur.fields().0 + cur.fields().1 + bytes_cursor,
    ensures
        r == cur.fields().0 + cur.fields().1 + bytes_cursor - deleted,
{
    cur.get_line_file_start() + cur.get_line_offset() + bytes_cursor - deleted
}

/// The file offset a join with the row above records: the line break just before the row
/// (counted from its block, saturating at both ends).
pub fn join_offset(cur: &LineState) -> (r: usize)
    ensures
        r == ({
            let sum = cur.block_fields().2 + cur.fields().1;
            let capped = if sum > usize::MAX { usize::MAX as int } else { sum as int };
            if capped >= 1 { capped - 1 } else { 0 }
        }),
{
    cur.get_block_offset().saturating_add(cur.get_line_offset()).saturating_sub(1)
}

/// The cursor after backspace: at a row's start it moves to the end of the row above (the
/// characters before its last), else one column left.
pub fn cursor_after_backspace(cursor_x: usize, cursor_y: usize, prev_line_char_len: usize) -> (r: (usize, usize))
    ensures
        cursor_x == 0 ==> r == (prev_line_char_len, if cursor_y >= 1 { (cursor_y - 1) as usize } else { 0usize }),
        cursor_x > 0 ==> r == ((cursor_x - 1) as usize, cursor_y),
{
    if cursor_x == 0 {
        let y = cursor_y.saturating_sub(1);
        let x = if prev_line_char_len > 0 {
            prev_line_char_len
        } else {
            0
        };
        (x, y)
    } else {
        (cursor_x - 1, cursor_y)
    }
}

} // verus!
