use vstd::prelude::*;
use unicode_width::UnicodeWidthChar;
use crate::command::{chars_of, string_of};
use crate::fuzzy::{compiled_bytes, has_upper, CompiledPattern, FuzzyAlgorithm, FuzzySearch, FuzzySession, Match};
use crate::searcher::memmem::joined;
use vstd::string::StringSliceAdditionalSpecFns;
use vstd::utf8::encode_utf8;
use crate::fuzzy::fzf::{forward_from, fzf_v1};
use crate::fuzzy::fzf_sw::too_big;
use crate::text_rows::{fits, offsets_sound, group_sound, lemma_read_from_sound_offsets, row_start, lemma_rows_through_line, lemma_rows_past_group};

verus! {

/// The display width `unicode_width` gives a character (`None` for control characters).
pub uninterp spec fn unicode_char_width(c: char) -> Option<usize>;

/// `UnicodeWidthChar::width` of the `unicode_width` crate: the columns a character takes,
/// `None` for a control character. Its source answers `None` below U+0020 and from U+007F
/// up to U+00A0, one column for the other ASCII characters, and at most three columns
/// otherwise (from its width tables, which are not restated here).
#[verifier::external_body]
pub fn char_width(c: char) -> (r: Option<usize>)
    ensures
        r == unicode_char_width(c),
        (c as u32) < 0x20 ==> r is None,
        0x20 <= (c as u32) < 0x7F ==> r == Some(1usize),
        0x7F <= (c as u32) < 0xA0 ==> r is None,
        r matches Some(w) ==> w <= 3,
{
    c.width()
}

/// The columns a character takes, control characters none.
pub open spec fn char_cols(c: char) -> nat {
    match unicode_char_width(c) {
        Some(w) => w as nat,
        None => 0,
    }
}

/// The columns a character takes, control characters none.
pub fn cols(c: char) -> (r: usize)
    ensures
        r == char_cols(c),
        r <= 3,
{
    match char_width(c) {
        Some(w) => w,
        None => 0,
    }
}

/// The state of wrapping one line: the width of the row being filled, where it starts, how
/// many characters it has, and the rows closed so far (start and length).
pub struct WrapState {
    pub width: nat,
    pub offset: nat,
    pub len: nat,
    pub rows: Seq<(nat, nat)>,
}

/// One character of wrapping: a character that would take the row past `with` columns
/// first closes the row (even an empty one), then joins the next.
pub open spec fn wrap_step(s: WrapState, c: char, with: nat) -> WrapState {
    let w = char_cols(c);
    if s.width + w > with {
        WrapState { width: w, offset: s.offset + s.len, len: 1, rows: s.rows.push((s.offset, s.len)) }
    } else {
        WrapState { width: s.width + w, offset: s.offset, len: s.len + 1, rows: s.rows }
    }
}

/// The wrapping state after the first `k` characters of `line`.
pub open spec fn wrap_upto(line: Seq<char>, with: nat, k: int) -> WrapState
    decreases k,
{
    if k <= 0 {
        WrapState { width: 0, offset: 0, len: 0, rows: Seq::empty() }
    } else {
        wrap_step(wrap_upto(line, with, k - 1), line[k - 1], with)
    }
}

/// The rows (start and length) `line` wraps into at `with` columns.
pub open spec fn wrap_rows(line: Seq<char>, with: nat) -> Seq<(nat, nat)> {
    let s = wrap_upto(line, with, line.len() as int);
    if s.len > 0 {
        s.rows.push((s.offset, s.len))
    } else {
        s.rows
    }
}

/// The text of each row.
pub open spec fn row_texts(line: Seq<char>, rows: Seq<(nat, nat)>) -> Seq<Seq<char>> {
    rows.map_values(|r: (nat, nat)| line.subrange(r.0 as int, (r.0 + r.1) as int))
}

/// The rows of all lines of `t` from index `i`, the current line having started at
/// `start`: a line ends at a newline (which it keeps) or at the last character.
pub open spec fn warp_from(t: Seq<char>, with: nat, i: int, start: int) -> Seq<Seq<char>>
    decreases t.len() - i,
{
    if i < 0 || i >= t.len() {
        Seq::empty()
    } else if t[i] == '\n' || i == t.len() - 1 {
        let line = t.subrange(start, i + 1);
        row_texts(line, wrap_rows(line, with)) + warp_from(t, with, i + 1, i + 1)
    } else {
        warp_from(t, with, i + 1, start)
    }
}

/// The views of a list of character vectors.
pub open spec fn vec_views(v: Seq<Vec<char>>) -> Seq<Seq<char>> {
    v.map_values(|x: Vec<char>| x@)
}

/// Where the rows are: each closed row ends where the next starts, and the open row ends
/// after the characters seen.
pub proof fn lemma_wrap_shape(line: Seq<char>, with: nat, k: int)
    requires
        0 <= k <= line.len(),
    ensures
        wrap_upto(line, with, k).offset + wrap_upto(line, with, k).len == k,
        forall|j: int| 0 <= j < wrap_upto(line, with, k).rows.len() ==> (#[trigger] wrap_upto(line, with, k).rows[j]).0
            + wrap_upto(line, with, k).rows[j].1 <= wrap_upto(line, with, k).offset,
    decreases k,
{
    if k > 0 {
        lemma_wrap_shape(line, with, k - 1);
    }
}

pub proof fn lemma_wrap_cover(line: Seq<char>, with: nat, k: int)
    requires
        0 <= k <= line.len(),
    ensures
        row_texts(line, wrap_upto(line, with, k).rows).flatten() == line.subrange(0, wrap_upto(line, with, k).offset as int),
        wrap_upto(line, with, k).offset + wrap_upto(line, with, k).len == k,
    decreases k,
{
    if k > 0 {
        lemma_wrap_cover(line, with, k - 1);
        let s = wrap_upto(line, with, k - 1);
        let w = char_cols(line[k - 1]);
        if s.width + w > with {
            let piece = line.subrange(s.offset as int, (s.offset + s.len) as int);
            assert(row_texts(line, s.rows.push((s.offset, s.len))) =~= row_texts(line, s.rows).push(piece));
            row_texts(line, s.rows).lemma_flatten_push(piece);
            assert(line.subrange(0, s.offset as int) + piece =~= line.subrange(0, (s.offset + s.len) as int));
        }
    }
}

/// Wrapping keeps every character: the rows of a line, put back together, are the line.
pub proof fn lemma_rows_cover_line(line: Seq<char>, with: nat)
    ensures
        row_texts(line, wrap_rows(line, with)).flatten() == line,
{
    lemma_wrap_cover(line, with, line.len() as int);
    let s = wrap_upto(line, with, line.len() as int);
    if s.len > 0 {
        let piece = line.subrange(s.offset as int, (s.offset + s.len) as int);
        assert(row_texts(line, s.rows.push((s.offset, s.len))) =~= row_texts(line, s.rows).push(piece));
        row_texts(line, s.rows).lemma_flatten_push(piece);
        assert(line.subrange(0, s.offset as int) + piece =~= line);
    } else {
        assert(line.subrange(0, s.offset as int) =~= line);
    }
}

proof fn lemma_warp_cover(t: Seq<char>, with: nat, i: int, start: int)
    requires
        0 <= start <= i <= t.len(),
        i == t.len() ==> start == t.len(),
    ensures
        warp_from(t, with, i, start).flatten() == t.subrange(start, t.len() as int),
    decreases t.len() - i,
{
    if i < t.len() {
        if t[i] == '\n' || i == t.len() - 1 {
            let line = t.subrange(start, i + 1);
            lemma_warp_cover(t, with, i + 1, i + 1);
            lemma_rows_cover_line(line, with);
            vstd::seq_lib::lemma_flatten_concat(row_texts(line, wrap_rows(line, with)), warp_from(t, with, i + 1, i + 1));
            assert(line + t.subrange(i + 1, t.len() as int) =~= t.subrange(start, t.len() as int));
        } else {
            lemma_warp_cover(t, with, i + 1, start);
        }
    } else {
        assert(t.subrange(start, t.len() as int) =~= Seq::<char>::empty());
    }
}

/// Splitting and wrapping a text keeps every character: its rows, put back together, are
/// the text.
pub proof fn lemma_warp_keeps_text(t: Seq<char>, with: nat)
    ensures
        warp_from(t, with, 0, 0).flatten() == t,
{
    lemma_warp_cover(t, with, 0, 0);
    assert(t.subrange(0, t.len() as int) =~= t);
}

/// The rows of one line, wrapped at `with` columns.
pub fn wrap_line(line: &[char], with: usize) -> (r: Vec<Vec<char>>)
    requires
        with <= usize::MAX - 4,
    ensures
        vec_views(r@) == row_texts(line@, wrap_rows(line@, with as nat)),
{
    let mut out: Vec<Vec<char>> = Vec::new();
    let mut current_width: usize = 0;
    let mut line_offset: usize = 0;
    let mut current_len: usize = 0;
    let mut k: usize = 0;
    while k < line.len()
        invariant
            with <= usize::MAX - 4,
            k <= line@.len(),
            current_width <= with || current_width <= 3,
            ({
                let s = wrap_upto(line@, with as nat, k as int);
                &&& s.width == current_width
                &&& s.offset == line_offset
                &&& s.len == current_len
                &&& vec_views(out@) == row_texts(line@, s.rows)
            }),
        decreases line@.len() - k,
    {
        proof {
            lemma_wrap_shape(line@, with as nat, k as int);
        }
        let w = cols(line[k]);
        if current_width + w > with {
            let row = slice_chars(line, line_offset, line_offset + current_len);
            let ghost before = out@;
            out.push(row);
            proof {
                let s = wrap_upto(line@, with as nat, k as int);
                assert(vec_views(out@) =~= vec_views(before).push(row@));
                assert(row_texts(line@, s.rows.push((s.offset, s.len))) =~= row_texts(line@, s.rows).push(
                    line@.subrange(s.offset as int, (s.offset + s.len) as int),
                ));
            }
            line_offset = line_offset + current_len;
            current_width = w;
            current_len = 1;
        } else {
            current_width = current_width + w;
            current_len = current_len + 1;
        }
        k = k + 1;
    }
    proof {
        lemma_wrap_shape(line@, with as nat, k as int);
    }
    if current_len > 0 {
        let row = slice_chars(line, line_offset, line_offset + current_len);
        let ghost before = out@;
        out.push(row);
        proof {
            let s = wrap_upto(line@, with as nat, k as int);
            assert(vec_views(out@) =~= vec_views(before).push(row@));
            assert(row_texts(line@, s.rows.push((s.offset, s.len))) =~= row_texts(line@, s.rows).push(
                line@.subrange(s.offset as int, (s.offset + s.len) as int),
            ));
        }
    }
    out
}

/// The characters `s[from..to]`.
pub fn slice_chars(s: &[char], from: usize, to: usize) -> (r: Vec<char>)
    requires
        from <= to <= s@.len(),
    ensures
        r@ == s@.subrange(from as int, to as int),
{
    let mut out: Vec<char> = Vec::new();
    let mut i = from;
    while i < to
        invariant
            from <= i <= to <= s@.len(),
            out@ == s@.subrange(from as int, i as int),
        decreases to - i,
    {
        out.push(s[i]);
        i = i + 1;
        proof {
            assert(out@ =~= s@.subrange(from as int, i as int));
        }
    }
    out
}

/// The rows of `text`: split after each newline (kept with its line), each line wrapped at
/// `with` columns.
pub fn warp_str(text: &str, with: usize) -> (r: Vec<String>)
    requires
        with <= usize::MAX - 4,
    ensures
        r@.len() == warp_from(text@, with as nat, 0, 0).len(),
        forall|i: int| 0 <= i < r@.len() ==> (#[trigger] r@[i])@ == warp_from(text@, with as nat, 0, 0)[i],
{
    let chars = chars_of(text);
    let ghost t = text@;
    let n = chars.len();
    let mut out: Vec<Vec<char>> = Vec::new();
    let mut start: usize = 0;
    let mut i: usize = 0;
    while i < n
        invariant
            chars@ == t,
            n == t.len(),
            with <= usize::MAX - 4,
            start <= i <= n,
            vec_views(out@) + warp_from(t, with as nat, i as int, start as int) == warp_from(t, with as nat, 0, 0),
        decreases n - i,
    {
        if chars[i] == '\n' || i == n - 1 {
            let line = slice_chars(chars.as_slice(), start, i + 1);
            let rows = wrap_line(line.as_slice(), with);
            let ghost before = vec_views(out@);
            let mut k: usize = 0;
            while k < rows.len()
                invariant
                    k <= rows@.len(),
                    vec_views(out@) == before + vec_views(rows@).take(k as int),
                decreases rows@.len() - k,
            {
                let row = slice_chars(rows[k].as_slice(), 0, rows[k].len());
                proof {
                    assert(rows@[k as int]@.subrange(0, rows@[k as int]@.len() as int) =~= rows@[k as int]@);
                }
                let ghost prev = out@;
                out.push(row);
                proof {
                    assert(vec_views(out@) =~= vec_views(prev).push(rows@[k as int]@));
                    assert(vec_views(rows@).take(k + 1) =~= vec_views(rows@).take(k as int).push(rows@[k as int]@));
                }
                k = k + 1;
                proof {
                    assert(vec_views(out@) =~= before + vec_views(rows@).take(k as int));
                }
            }
            proof {
                assert(vec_views(rows@).take(rows@.len() as int) =~= vec_views(rows@));
                assert(before + vec_views(rows@) + warp_from(t, with as nat, i + 1, i + 1) =~= before + (vec_views(rows@)
                    + warp_from(t, with as nat, i + 1, i + 1)));
            }
            start = i + 1;
        }
        i = i + 1;
    }
    proof {
        assert(vec_views(out@) =~= warp_from(t, with as nat, 0, 0));
    }
    let mut strings: Vec<String> = Vec::new();
    let mut j: usize = 0;
    while j < out.len()
        invariant
            j <= out@.len(),
            vec_views(out@) == warp_from(t, with as nat, 0, 0),
            strings@.len() == j,
            forall|q: int| 0 <= q < j ==> (#[trigger] strings@[q])@ == out@[q]@,
        decreases out@.len() - j,
    {
        strings.push(string_of(out[j].as_slice()));
        j = j + 1;
    }
    proof {
        assert forall|q: int| 0 <= q < strings@.len() implies (#[trigger] strings@[q])@ == warp_from(t, with as nat, 0, 0)[q] by {
            assert(vec_views(out@)[q] == out@[q]@);
        }
    }
    strings
}


/// Pages are grouped by this many when their starts are recorded.
pub const PAGE_GROUP: usize = 5;

/// A displayed row: its number and, when a pattern filtered the rows, the match in it.
pub struct LineMeta {
    line_num: usize,
    match_fuzzy: Option<Match>,
}

impl LineMeta {
    pub closed spec fn line_num_view(&self) -> nat {
        self.line_num as nat
    }

    pub closed spec fn match_view(&self) -> Option<Match> {
        self.match_fuzzy
    }

    pub fn new(line_num: usize, match_fuzzy: Option<Match>) -> (r: LineMeta)
        ensures
            r.line_num_view() == line_num,
            r.match_view() == match_fuzzy,
    {
        LineMeta { line_num, match_fuzzy }
    }

    pub fn get_line_num(&self) -> (r: usize)
        ensures
            r == self.line_num_view(),
    {
        self.line_num
    }

    pub fn get_match(&self) -> (r: &Option<Match>)
        ensures
            *r == self.match_view(),
    {
        &self.match_fuzzy
    }
}

/// One more row moves the page count on exactly when the row closes a page.
proof fn lemma_page_step(x: int, h: int)
    requires
        x >= 0,
        h >= 1,
    ensures
        (x + 1) / h == x / h + (if (x + 1) % h == 0 { 1int } else { 0int }),
{
    vstd::arithmetic::div_mod::lemma_fundamental_div_mod(x, h);
    vstd::arithmetic::div_mod::lemma_fundamental_div_mod(x + 1, h);
    let q = x / h;
    let r = x % h;
    assert(0 <= r < h);
    if r + 1 == h {
        assert(x + 1 == h * (q + 1)) by (nonlinear_arith)
            requires x == h * q + r, r + 1 == h;
        vstd::arithmetic::div_mod::lemma_div_multiples_vanish(q + 1, h);
        vstd::arithmetic::div_mod::lemma_mod_multiples_basic(q + 1, h);
        assert(h * (q + 1) == (q + 1) * h) by (nonlinear_arith);
    } else {
        assert(x + 1 == q * h + (r + 1)) by (nonlinear_arith)
            requires x == h * q + r;
        vstd::arithmetic::div_mod::lemma_fundamental_div_mod_converse(x + 1, h, q, r + 1);
    }
}

/// The first row of page group `k`, when the group's first page `k * PAGE_GROUP` is the one
/// a count of `ln` rows (a whole number of pages) from page `spn` reaches.
proof fn lemma_group_row(k: int, spn: int, ln: int, h: int)
    requires
        h >= 1,
        ln >= 0,
        ln % h == 0,
        k * PAGE_GROUP == spn + ln / h,
    ensures
        k * PAGE_GROUP * h == spn * h + ln,
{
    vstd::arithmetic::div_mod::lemma_fundamental_div_mod(ln, h);
    let q = ln / h;
    assert(ln == h * q);
    assert(k * PAGE_GROUP * h == (spn + q) * h) by (nonlinear_arith)
        requires k * PAGE_GROUP == spn + q;
    assert((spn + q) * h == spn * h + h * q) by (nonlinear_arith);
}

/// The page groups recorded past the first `list0.len()`, counting on from the text offset
/// `page_offset` (row `base` of the text) through `ln` rows of the rest `s`: the earlier
/// groups kept, each new one at the offset of its first row, a row not past `ln`.
#[verifier::opaque]
spec fn groups_recorded(list: Seq<usize>, list0: Seq<usize>, page_offset: int, s: Seq<char>, wid: nat, h: int, base: int, ln: int) -> bool {
    &&& list.len() >= list0.len()
    &&& forall|q: int| 0 <= q < list0.len() ==> list[q] == list0[q]
    &&& forall|q: int| list0.len() <= q < list.len() ==> #[trigger] list[q] == page_offset + row_start(s, wid, q * PAGE_GROUP * h - base)
            && q * PAGE_GROUP * h - base <= ln
}

/// Page groups recorded while counting rows on from a soundly recorded group `g` are sound,
/// when every character fits in a row.
proof fn lemma_groups_sound(t: Seq<char>, wid: nat, h: nat, list0: Seq<usize>, fin: Seq<usize>, s: Seq<char>, g: int, ln: int)
    requires
        fits(t, wid),
        h >= 1,
        0 <= g < list0.len(),
        offsets_sound(t, wid, h, list0),
        s == t.subrange(list0[g] as int, t.len() as int),
        ln <= pager_row_count(s, wid),
        groups_recorded(fin, list0, list0[g] as int, s, wid, h as int, g * PAGE_GROUP * h, ln),
    ensures
        offsets_sound(t, wid, h, fin),
{
    assert forall|k: int| 0 <= k < fin.len() implies #[trigger] group_sound(t, wid, h, fin, k) by {
        lemma_group_sound_at(t, wid, h, list0, fin, s, g, ln, k);
    }
}

/// One recorded page group of `lemma_groups_sound`.
proof fn lemma_group_sound_at(t: Seq<char>, wid: nat, h: nat, list0: Seq<usize>, fin: Seq<usize>, s: Seq<char>, g: int, ln: int, q: int)
    requires
        fits(t, wid),
        h >= 1,
        0 <= g < list0.len(),
        offsets_sound(t, wid, h, list0),
        s == t.subrange(list0[g] as int, t.len() as int),
        ln <= pager_row_count(s, wid),
        groups_recorded(fin, list0, list0[g] as int, s, wid, h as int, g * PAGE_GROUP * h, ln),
        0 <= q < fin.len(),
    ensures
        group_sound(t, wid, h, fin, q),
{
    reveal(groups_recorded);
    let base = g * PAGE_GROUP * h;
    if q < list0.len() {
        assert(group_sound(t, wid, h, list0, q));
        assert(fin[q] == list0[q]);
    } else {
        let m: int = q * PAGE_GROUP * h;
        let l: int = m - base;
        assert(m >= base) by (nonlinear_arith)
            requires m == q * PAGE_GROUP * h, base == g * PAGE_GROUP * h, q >= g, h >= 1;
        assert(fin[q] == list0[g] + row_start(s, wid, l));
        assert(l <= ln);
        lemma_rows_past_group(t, wid, h, list0, g, l);
        assert(base + l == m);
    }
}

/// How many page groups are recorded, less one, after a read from the start of group `g0`
/// reaches `c` groups on: the earlier ones, and one for each group reached past them.
spec fn groups_reached(len0: int, g0: int, c: int) -> int {
    if len0 - 1 >= g0 + c { len0 - 1 } else { g0 + c }
}

/// Noting the end of row `ln` of a read that started on page `idx * PAGE_GROUP` from the
/// start of group `g0` (the page's group where it is recorded, else the last one recorded)
/// records each group reached at the text offset of its first row, `next` being the offset
/// of the row after row `ln`.
proof fn lemma_read_row_noted(
    l0: Seq<usize>,
    l1: Seq<usize>,
    list0: Seq<usize>,
    p0: int,
    p1: int,
    ln: int,
    h: int,
    idx: int,
    g0: int,
    next: int,
    s: Seq<char>,
    wid: nat,
    page_offset: int,
)
    requires
        h >= 1,
        ln >= 1,
        idx >= 0,
        list0.len() >= 1,
        g0 == if idx < list0.len() { idx } else { list0.len() - 1 },
        groups_recorded(l0, list0, page_offset, s, wid, h, g0 * PAGE_GROUP * h, ln - 1),
        l0.len() - 1 == groups_reached(list0.len() as int, g0, p0 / (PAGE_GROUP as int) - idx),
        p0 == idx * PAGE_GROUP + (ln - 1) / h,
        l1.len() <= l0.len() + 1,
        forall|q: int| 0 <= q < l0.len() ==> l1[q] == l0[q],
        l1.len() == l0.len() + 1 ==> l1.last() == next,
        p1 == if ln % h == 0 { p0 + 1 } else { p0 },
        l1.len() == l0.len() + (if ln % h == 0 && (p0 + 1) % (PAGE_GROUP as int) == 0 && (p0 + 1) / (PAGE_GROUP as int) > l0.len() - 1 { 1int } else { 0int }),
        next == page_offset + row_start(s, wid, ln),
    ensures
        groups_recorded(l1, list0, page_offset, s, wid, h, g0 * PAGE_GROUP * h, ln),
        l1.len() - 1 == groups_reached(list0.len() as int, g0, p1 / (PAGE_GROUP as int) - idx),
        p1 == idx * PAGE_GROUP + ln / h,
{
    reveal(groups_recorded);
    lemma_page_step(ln - 1, h);
    let pg = PAGE_GROUP as int;
    let a = (ln - 1) / h;
    assert(a >= 0) by (nonlinear_arith)
        requires ln >= 1, h >= 1, a == (ln - 1) / h;
    let c0 = p0 / pg - idx;
    assert(c0 >= 0);
    if l1.len() == l0.len() + 1 {
        let j = l0.len() as int;
        let c1 = p1 / pg - idx;
        assert(c1 == c0 + 1);
        assert(j == g0 + c1);
        assert(c1 * PAGE_GROUP == ln / h);
        lemma_group_row(c1, 0, ln, h);
        assert(j * PAGE_GROUP * h - g0 * PAGE_GROUP * h == c1 * PAGE_GROUP * h) by (nonlinear_arith)
            requires j == g0 + c1;
        assert forall|q: int| list0.len() <= q < l1.len() implies #[trigger] l1[q] == page_offset + row_start(s, wid, q * PAGE_GROUP * h - g0 * PAGE_GROUP * h)
            && q * PAGE_GROUP * h - g0 * PAGE_GROUP * h <= ln by {
            if q < l0.len() {
                assert(l1[q] == l0[q]);
            }
        }
    } else {
        assert forall|q: int| list0.len() <= q < l1.len() implies #[trigger] l1[q] == page_offset + row_start(s, wid, q * PAGE_GROUP * h - g0 * PAGE_GROUP * h)
            && q * PAGE_GROUP * h - g0 * PAGE_GROUP * h <= ln by {
            assert(l1[q] == l0[q]);
        }
    }
}

/// Noting the end of row `ln` (counted on from the start of page `spn`, whose first row is
/// `base`) keeps the page count in step and records each new page group at the text offset
/// of its first row, `next` being the offset of the row after row `ln`.
proof fn lemma_row_noted(
    l0: Seq<usize>,
    l1: Seq<usize>,
    list0: Seq<usize>,
    p0: int,
    p1: int,
    ln: int,
    h: int,
    spn: int,
    base: int,
    next: int,
    s: Seq<char>,
    wid: nat,
    page_offset: int,
)
    requires
        h >= 1,
        ln >= 1,
        spn >= 0,
        base == spn * h,
        list0.len() >= 1,
        groups_recorded(l0, list0, page_offset, s, wid, h, base, ln - 1),
        l0.len() - 1 == p0 / (PAGE_GROUP as int),
        p0 == spn + (ln - 1) / h,
        l1.len() <= l0.len() + 1,
        forall|q: int| 0 <= q < l0.len() ==> l1[q] == l0[q],
        l1.len() == l0.len() + 1 ==> l1.last() == next,
        p1 == if ln % h == 0 { p0 + 1 } else { p0 },
        l1.len() == l0.len() + (if ln % h == 0 && (p0 + 1) % (PAGE_GROUP as int) == 0 && (p0 + 1) / (PAGE_GROUP as int) > l0.len() - 1 { 1int } else { 0int }),
        next == page_offset + row_start(s, wid, ln),
    ensures
        groups_recorded(l1, list0, page_offset, s, wid, h, base, ln),
        l1.len() - 1 == p1 / (PAGE_GROUP as int),
        p1 == spn + ln / h,
{
    reveal(groups_recorded);
    lemma_page_step(ln - 1, h);
    assert forall|q: int| list0.len() <= q < l1.len() implies #[trigger] l1[q] == page_offset + row_start(s, wid, q * PAGE_GROUP * h - base)
        && q * PAGE_GROUP * h - base <= ln by {
        if q < l0.len() {
            assert(l1[q] == l0[q]);
        } else {
            assert(q == l0.len());
            assert(q * PAGE_GROUP == p1);
            lemma_group_row(q, spn, ln, h);
        }
    }
}

/// At the end of row `line_num` (counted from a page start): a page ends every `height`
/// rows, and the start of every `PAGE_GROUP`-th page not yet known is recorded.
fn note_row_end(list: &mut Vec<usize>, height: usize, line_num: usize, page_num: &mut usize, next_start: usize)
    requires
        height > 0,
        old(list)@.len() >= 1,
        *old(page_num) < usize::MAX,
    ensures
        final(list)@.len() >= 1,
        final(list)@.len() <= old(list)@.len() + 1,
        forall|k: int| 0 <= k < old(list)@.len() ==> final(list)@[k] == old(list)@[k],
        final(list)@.len() == old(list)@.len() + 1 ==> final(list)@.last() == next_start,
        *final(page_num) == if line_num % height == 0 { *old(page_num) + 1 } else { *old(page_num) as int },
        final(list)@.len() == old(list)@.len() + (if line_num % height == 0 && (*old(page_num) + 1) % (PAGE_GROUP as int) == 0
            && (*old(page_num) + 1) / (PAGE_GROUP as int) > old(list)@.len() - 1 { 1int } else { 0int }),
{
    if line_num % height == 0 {
        *page_num = *page_num + 1;
        let m = *page_num / PAGE_GROUP;
        let n = *page_num % PAGE_GROUP;
        if n == 0 && m > list.len() - 1 {
            list.push(next_start);
        }
    }
}

/// Whether the pager keeps a row for the compiled pattern `p` (case mattering when `cs`): every
/// row for an empty pattern; otherwise, by v1 (`exact`), when v1 finds a match in the row's
/// bytes, and by v2 when the pattern occurs in order in them, short of the matrix limits when
/// case does not matter.
pub open spec fn row_kept(row: Seq<char>, p: Seq<u8>, cs: bool, exact: bool) -> bool {
    let b = encode_utf8(row);
    if p.len() == 0 {
        true
    } else if exact {
        fzf_v1(b, p, cs) is Some
    } else {
        forward_from(b, p, cs, 0, 0, 0) is Some && !(p.len() <= b.len() && too_big(p.len() as int, b.len() as int) && !cs)
    }
}

/// Whether the row `txt` passes the filter: every row without a pattern, else those the
/// pattern matches, with the match.
fn row_filter(session: &mut FuzzySession, pattern_len: usize, txt: &Vec<char>) -> (r: (bool, Option<Match>))
    requires
        old(session).wf(),
        old(session).algorithm() == FuzzyAlgorithm::V1 ==> old(session).pattern().len() <= 900,
        pattern_len == old(session).pattern().len(),
    ensures
        final(session).wf(),
        final(session).algorithm() == old(session).algorithm(),
        final(session).pattern() == old(session).pattern(),
        final(session).case_sensitive() == old(session).case_sensitive(),
        pattern_len == 0 ==> r == (true, None::<Match>),
        pattern_len > 0 ==> r.0 == r.1 is Some,
        r.0 == row_kept(txt@, old(session).pattern(), old(session).case_sensitive(), old(session).algorithm() == FuzzyAlgorithm::V1),
{
    if pattern_len == 0 {
        return (true, None);
    }
    let s = string_of(txt.as_slice());
    let bytes = s.as_str().as_bytes();
    let blen = bytes.len();
    let mut parts: Vec<&[u8]> = Vec::new();
    parts.push(bytes);
    proof {
        assert(parts@.drop_last() =~= Seq::<&[u8]>::empty());
        assert(joined(parts@.drop_last()) =~= Seq::<u8>::empty());
        assert(joined(parts@) =~= bytes@);
        assert(joined(parts@).len() == blen);
        assert(bytes@ == encode_utf8(txt@));
    }
    let found = session.find_with_positions(parts.as_slice());
    match found {
        Some(m) => (true, Some(m)),
        None => (false, None),
    }
}

/// The rows among the first `k` of `rows` (as indices from 0) that a read keeps: those
/// numbered (from 1) at least `skip` that the filter keeps, in order.
pub open spec fn picked_rows(rows: Seq<Seq<char>>, skip: int, p: Seq<u8>, cs: bool, exact: bool, k: int) -> Seq<int>
    decreases k,
{
    if k <= 0 {
        Seq::empty()
    } else {
        let prev = picked_rows(rows, skip, p, cs, exact, k - 1);
        if k >= skip && row_kept(rows[k - 1], p, cs, exact) {
            prev.push(k - 1)
        } else {
            prev
        }
    }
}

/// Keeping rows among the first `k1` gives a prefix of keeping them among the first `k2`.
proof fn lemma_picked_prefix(rows: Seq<Seq<char>>, skip: int, p: Seq<u8>, cs: bool, exact: bool, k1: int, k2: int)
    requires
        0 <= k1 <= k2,
    ensures
        picked_rows(rows, skip, p, cs, exact, k1).len() <= picked_rows(rows, skip, p, cs, exact, k2).len(),
        picked_rows(rows, skip, p, cs, exact, k2).take(picked_rows(rows, skip, p, cs, exact, k1).len() as int)
            == picked_rows(rows, skip, p, cs, exact, k1),
    decreases k2 - k1,
{
    if k1 < k2 {
        lemma_picked_prefix(rows, skip, p, cs, exact, k1, k2 - 1);
        let a = picked_rows(rows, skip, p, cs, exact, k1);
        let b = picked_rows(rows, skip, p, cs, exact, k2 - 1);
        let c = picked_rows(rows, skip, p, cs, exact, k2);
        assert(c.take(a.len() as int) =~= b.take(a.len() as int));
    } else {
        let a = picked_rows(rows, skip, p, cs, exact, k1);
        assert(a.take(a.len() as int) =~= a);
    }
}

/// The rows a read returns match the rows `picked` of `rows`: each text is its row's, each
/// number its row's (counted on from `base`), and each carries a match exactly when a
/// pattern filters.
pub open spec fn read_matches(lines: Seq<String>, metas: Seq<LineMeta>, rows: Seq<Seq<char>>, picked: Seq<int>, base: int, filtered: bool) -> bool {
    &&& lines.len() == picked.len()
    &&& metas.len() == picked.len()
    &&& forall|a: int| 0 <= a < picked.len() ==> (#[trigger] lines[a])@ == rows[picked[a]]
    &&& forall|a: int| 0 <= a < picked.len() ==> (#[trigger] metas[a]).line_num_view() == base + picked[a] + 1
            && (metas[a].match_view() is Some <==> filtered)
}

/// Where the rows from `k` on start with the rows of `line`, row `k + j` is the `j`-th row
/// of the line.
proof fn lemma_row_at(rows: Seq<Seq<char>>, k: int, line: Seq<char>, with: nat, rest: Seq<Seq<char>>, j: int)
    requires
        0 <= k <= rows.len(),
        rows.skip(k) == row_texts(line, wrap_rows(line, with)) + rest,
        0 <= j < wrap_rows(line, with).len(),
    ensures
        k + j < rows.len(),
        rows[k + j] == line.subrange(wrap_rows(line, with)[j].0 as int, (wrap_rows(line, with)[j].0 + wrap_rows(line, with)[j].1) as int),
{
    let rt = row_texts(line, wrap_rows(line, with));
    assert(rt.len() == wrap_rows(line, with).len());
    assert((rt + rest).len() == rt.len() + rest.len());
    assert((rt + rest)[j] == rt[j]);
    assert(rows.skip(k) =~= rows.subrange(k, rows.len() as int));
    assert(rows.skip(k).len() == rows.len() - k);
    assert(rows.skip(k)[j] == rows[k + j]);
}

/// The rows picked are in increasing order, among the first `k`.
pub proof fn lemma_picked_bounds(rows: Seq<Seq<char>>, skip: int, p: Seq<u8>, cs: bool, exact: bool, k: int)
    requires
        0 <= k,
    ensures
        forall|a: int, b: int| 0 <= a < b < picked_rows(rows, skip, p, cs, exact, k).len() ==> #[trigger] picked_rows(
            rows,
            skip,
            p,
            cs,
            exact,
            k,
        )[a] < #[trigger] picked_rows(rows, skip, p, cs, exact, k)[b],
        forall|a: int| 0 <= a < picked_rows(rows, skip, p, cs, exact, k).len() ==> 0 <= #[trigger] picked_rows(
            rows,
            skip,
            p,
            cs,
            exact,
            k,
        )[a] < k,
    decreases k,
{
    if k > 0 {
        lemma_picked_bounds(rows, skip, p, cs, exact, k - 1);
        let prev = picked_rows(rows, skip, p, cs, exact, k - 1);
        let cur = picked_rows(rows, skip, p, cs, exact, k);
        if k >= skip && row_kept(rows[k - 1], p, cs, exact) {
            assert(cur == prev.push(k - 1));
            assert forall|a: int, b: int| 0 <= a < b < cur.len() implies #[trigger] cur[a] < #[trigger] cur[b] by {
                assert(cur[a] == prev[a]);
                if b < prev.len() {
                    assert(cur[b] == prev[b]);
                }
            }
            assert forall|a: int| 0 <= a < cur.len() implies 0 <= #[trigger] cur[a] < k by {
                if a < prev.len() {
                    assert(cur[a] == prev[a]);
                }
            }
        } else {
            assert(cur == prev);
        }
    }
}

/// A read that stopped after row `k` (because it kept `line_count` rows, or ran out of rows)
/// returned the first `line_count` of all the rows it would keep.
proof fn lemma_read_done(
    lines: Seq<String>,
    metas: Seq<LineMeta>,
    rows: Seq<Seq<char>>,
    skip: int,
    p: Seq<u8>,
    cs: bool,
    exact: bool,
    k: int,
    base: int,
    filtered: bool,
    line_count: int,
)
    requires
        0 <= k <= rows.len(),
        line_count >= 1,
        read_matches(lines, metas, rows, picked_rows(rows, skip, p, cs, exact, k), base, filtered),
        picked_rows(rows, skip, p, cs, exact, k).len() == line_count || (k == rows.len() && picked_rows(rows, skip, p, cs, exact, k).len() < line_count),
    ensures
        ({
            let pk = picked_rows(rows, skip, p, cs, exact, rows.len() as int);
            let out = if pk.len() > line_count { pk.take(line_count) } else { pk };
            &&& out == picked_rows(rows, skip, p, cs, exact, k)
            &&& read_matches(lines, metas, rows, out, base, filtered)
        }),
        forall|a: int, b: int| 0 <= a < b < metas.len() ==> (#[trigger] metas[a]).line_num_view() < (#[trigger] metas[b]).line_num_view(),
{
    lemma_picked_prefix(rows, skip, p, cs, exact, k, rows.len() as int);
    lemma_picked_bounds(rows, skip, p, cs, exact, k);
    let pk = picked_rows(rows, skip, p, cs, exact, rows.len() as int);
    let pkk = picked_rows(rows, skip, p, cs, exact, k);
    if pk.len() <= line_count {
        assert(pk.take(pkk.len() as int) == pkk);
        if pkk.len() == line_count {
            assert(pk.take(line_count) =~= pk);
        } else {
            assert(k == rows.len());
        }
    }
    assert forall|a: int, b: int| 0 <= a < b < metas.len() implies (#[trigger] metas[a]).line_num_view() < (#[trigger] metas[b]).line_num_view() by {
        assert(pkk[a] < pkk[b]);
    }
}

/// The rows a read returned, none when it returned nothing.
pub open spec fn lines_of(r: Option<Vec<String>>) -> Seq<String> {
    match r {
        Some(v) => v@,
        None => Seq::empty(),
    }
}

/// Offering row `k` (from 1) keeps the read's rows in step with the rows picked among the
/// first `k`.
proof fn lemma_read_step(
    l0: Seq<String>,
    m0: Seq<LineMeta>,
    l1: Seq<String>,
    m1: Seq<LineMeta>,
    rows: Seq<Seq<char>>,
    skip: int,
    p: Seq<u8>,
    cs: bool,
    exact: bool,
    k: int,
    base: int,
    filtered: bool,
)
    requires
        1 <= k <= rows.len(),
        read_matches(l0, m0, rows, picked_rows(rows, skip, p, cs, exact, k - 1), base, filtered),
        ({
            let kept = k >= skip && row_kept(rows[k - 1], p, cs, exact);
            &&& kept ==> l1.len() == l0.len() + 1 && l1.take(l0.len() as int) == l0 && l1.last()@ == rows[k - 1]
            &&& kept ==> m1.len() == m0.len() + 1 && m1.take(m0.len() as int) == m0 && m1.last().line_num_view() == base + k
                && (m1.last().match_view() is Some <==> filtered)
            &&& !kept ==> l1 == l0 && m1 == m0
        }),
    ensures
        read_matches(l1, m1, rows, picked_rows(rows, skip, p, cs, exact, k), base, filtered),
{
    let pk = picked_rows(rows, skip, p, cs, exact, k);
    let pk0 = picked_rows(rows, skip, p, cs, exact, k - 1);
    if k >= skip && row_kept(rows[k - 1], p, cs, exact) {
        assert forall|a: int| 0 <= a < pk.len() implies (#[trigger] l1[a])@ == rows[pk[a]] by {
            if a < pk0.len() {
                assert(l1[a] == l1.take(l0.len() as int)[a]);
            }
        }
        assert forall|a: int| 0 <= a < pk.len() implies (#[trigger] m1[a]).line_num_view() == base + pk[a] + 1 && (
        m1[a].match_view() is Some <==> filtered) by {
            if a < pk0.len() {
                assert(m1[a] == m1.take(m0.len() as int)[a]);
            }
        }
    }
}

/// What a read of `line_count` rows gives when it starts from the text offset `offset`,
/// whose row is numbered `first_row + 1`: of the rows of the text from there, those numbered
/// (from that row, counting 1) at least `skip` that the filter of pattern `pat` keeps, the
/// first `line_count` of them, with their numbers; nothing when there are none.
pub open spec fn read_result(
    r: (Option<Vec<String>>, Vec<LineMeta>),
    t: Seq<char>,
    with: nat,
    offset: int,
    first_row: int,
    skip: int,
    line_count: int,
    pat: Seq<u8>,
    exact: bool,
) -> bool {
    let rows = warp_from(t.subrange(offset, t.len() as int), with, 0, 0);
    let cp = compiled_bytes(pat);
    let pk = picked_rows(rows, skip, cp, has_upper(pat), exact, rows.len() as int);
    let out = if pk.len() > line_count { pk.take(line_count) } else { pk };
    &&& read_matches(lines_of(r.0), r.1@, rows, out, first_row, cp.len() > 0)
    &&& (r.0 is None <==> out.len() == 0)
}

/// The page group a read from row `line_num` starts in: that of the page holding the row.
pub open spec fn read_group(height: nat, line_num: int) -> int {
    ((line_num + height - 1) / (height as int) - 1) / (PAGE_GROUP as int)
}

/// What a read of `line_count` rows from row `line_num` gives: it starts at the recorded
/// start of the row's page group (the last recorded one when that group is not recorded yet)
/// and counts rows on from that group's first row.
#[verifier::opaque]
pub open spec fn reads_rows(
    r: (Option<Vec<String>>, Vec<LineMeta>),
    t: Seq<char>,
    with: nat,
    height: nat,
    offsets: Seq<usize>,
    line_num: int,
    line_count: int,
    pat: Seq<u8>,
    exact: bool,
) -> bool {
    let group = read_group(height, line_num);
    let offset = if group >= offsets.len() { offsets.last() } else { offsets[group] };
    let first_row = group * PAGE_GROUP * height;
    read_result(r, t, with, offset as int, first_row, line_num - first_row, line_count, pat, exact)
}

/// The row count a read from row `line_num` records when it reaches the end of the text:
/// the first row of the page group it reads from (the row's group where it is recorded,
/// else the last recorded one, numbered as the row's group), plus the rows counted on from
/// that group's recorded start.
pub open spec fn rows_read_to_end(t: Seq<char>, with: nat, height: nat, offsets: Seq<usize>, line_num: int) -> nat {
    let group = read_group(height, line_num);
    let offset = if group >= offsets.len() { offsets.last() } else { offsets[group] };
    (group * PAGE_GROUP * height + pager_row_count(t.subrange(offset as int, t.len() as int), with)) as nat
}

/// Offers row `line_num` (counted from `start_line_num`), holding `txt`, to a read: it is
/// kept when numbered at least `skip_line` and the filter keeps it.
fn offer_row(
    session: &mut FuzzySession,
    pattern_len: usize,
    txt: &Vec<char>,
    line_num: usize,
    skip_line: usize,
    start_line_num: usize,
    lines: &mut Vec<String>,
    metas: &mut Vec<LineMeta>,
)
    requires
        old(session).wf(),
        old(session).algorithm() == FuzzyAlgorithm::V1 ==> old(session).pattern().len() <= 900,
        pattern_len == old(session).pattern().len(),
        start_line_num + line_num <= usize::MAX,
    ensures
        final(session).wf(),
        final(session).algorithm() == old(session).algorithm(),
        final(session).pattern() == old(session).pattern(),
        final(session).case_sensitive() == old(session).case_sensitive(),
        ({
            let kept = line_num >= skip_line && row_kept(
                txt@,
                old(session).pattern(),
                old(session).case_sensitive(),
                old(session).algorithm() == FuzzyAlgorithm::V1,
            );
            &&& kept ==> final(lines)@.len() == old(lines)@.len() + 1 && final(lines)@.take(old(lines)@.len() as int)
                == old(lines)@ && final(lines)@.last()@ == txt@
            &&& kept ==> final(metas)@.len() == old(metas)@.len() + 1 && final(metas)@.take(old(metas)@.len() as int)
                == old(metas)@ && final(metas)@.last().line_num_view() == start_line_num + line_num
                && (final(metas)@.last().match_view() is Some <==> pattern_len > 0)
            &&& !kept ==> final(lines)@ == old(lines)@ && final(metas)@ == old(metas)@
        }),
{
    if line_num >= skip_line {
        let (keep, found) = row_filter(session, pattern_len, txt);
        if keep {
            let ghost l0 = lines@;
            let ghost m0 = metas@;
            lines.push(string_of(txt.as_slice()));
            metas.push(LineMeta::new(start_line_num + line_num, found));
            proof {
                assert(lines@.take(l0.len() as int) =~= l0);
                assert(metas@.take(m0.len() as int) =~= m0);
            }
        }
    }
}

/// The rows a line wraps into start with the rows closed after its first `k` characters.
pub proof fn lemma_wrap_rows_prefix(line: Seq<char>, with: nat, k: int)
    requires
        0 <= k <= line.len(),
    ensures
        wrap_upto(line, with, k).rows.len() <= wrap_rows(line, with).len(),
        forall|j: int| 0 <= j < wrap_upto(line, with, k).rows.len() ==> wrap_rows(line, with)[j]
            == #[trigger] wrap_upto(line, with, k).rows[j],
    decreases line.len() - k,
{
    if k < line.len() {
        lemma_wrap_rows_prefix(line, with, k + 1);
        let a = wrap_upto(line, with, k).rows;
        let b = wrap_upto(line, with, k + 1).rows;
        assert forall|j: int| 0 <= j < a.len() implies b[j] == a[j] by {}
    }
}

/// A pager over a text: the text is split after each newline and wrapped at `with`
/// columns; rows are numbered from 1 and grouped into pages of `height` rows, and the start
/// of every `PAGE_GROUP`-th page is remembered so that later reads start close by.
pub struct SimpleTextEngine {
    text: Vec<char>,
    max_bytes: usize,
    height: usize,
    with: usize,
    page_offset_list: Vec<usize>,
    max_line_num: usize,
    max_page_num: usize,
    eof: bool,
}

impl SimpleTextEngine {
    pub closed spec fn view(&self) -> Seq<char> {
        self.text@
    }

    pub closed spec fn rows_known(&self) -> Option<nat> {
        if self.eof {
            Some(self.max_line_num as nat)
        } else {
            None
        }
    }

    pub closed spec fn height_view(&self) -> nat {
        self.height as nat
    }

    pub closed spec fn with_view(&self) -> nat {
        self.with as nat
    }

    /// Where the recorded page groups start in the text.
    pub closed spec fn page_offsets(&self) -> Seq<usize> {
        self.page_offset_list@
    }

    pub closed spec fn wf(&self) -> bool {
        &&& 0 < self.height <= usize::MAX / 4
        &&& 0 < self.with <= usize::MAX - 4
        &&& self.text@.len() <= usize::MAX / 8
        &&& self.max_bytes == self.text@.len()
        &&& self.page_offset_list@.len() >= 1
        &&& self.page_offset_list@[0] == 0
        &&& forall|k: int| 0 <= k < self.page_offset_list@.len() ==> #[trigger] self.page_offset_list@[k] <= self.text@.len()
    }

    /// A pager over `text` with pages of `height` rows of `with` columns.
    pub fn new(text: &str, height: usize, with: usize) -> (r: SimpleTextEngine)
        requires
            0 < height <= usize::MAX / 4,
            0 < with <= usize::MAX - 4,
            text@.len() <= usize::MAX / 8,
        ensures
            r.wf(),
            r.view() == text@,
            r.height_view() == height,
            r.with_view() == with,
            r.rows_known() is None,
            r.page_offsets() == seq![0usize],
    {
        let chars = chars_of(text);
        let n = chars.len();
        let mut list: Vec<usize> = Vec::new();
        list.push(0);
        SimpleTextEngine {
            text: chars,
            max_bytes: n,
            height,
            with,
            page_offset_list: list,
            max_line_num: 0,
            max_page_num: 0,
            eof: false,
        }
    }

    /// Appends `msg`; the row count is to be found again.
    pub fn push_str(&mut self, msg: &str)
        requires
            old(self).wf(),
            old(self).view().len() + msg@.len() <= usize::MAX / 8,
        ensures
            final(self).wf(),
            final(self).view() == old(self).view() + msg@,
            final(self).height_view() == old(self).height_view(),
            final(self).with_view() == old(self).with_view(),
            final(self).page_offsets() == old(self).page_offsets(),
            final(self).rows_known() is None,
    {
        let chars = chars_of(msg);
        let mut i: usize = 0;
        let ghost before = self.text@;
        while i < chars.len()
            invariant
                i <= chars@.len(),
                chars@ == msg@,
                self.text@ == before + msg@.take(i as int),
                before.len() + msg@.len() <= usize::MAX / 8,
                self.height == old(self).height,
                self.with == old(self).with,
                self.page_offset_list@ == old(self).page_offset_list@,
                before == old(self).text@,
            decreases chars@.len() - i,
        {
            self.text.push(chars[i]);
            i = i + 1;
            proof {
                assert(self.text@ =~= before + msg@.take(i as int));
            }
        }
        proof {
            assert(msg@.take(msg@.len() as int) =~= msg@);
            assert forall|k: int| 0 <= k < self.page_offset_list@.len() implies #[trigger] self.page_offset_list@[k] <= self.text@.len() by {
                assert(old(self).page_offset_list@[k] <= old(self).text@.len());
            }
        }
        self.max_line_num = 0;
        self.max_page_num = 0;
        self.max_bytes = self.text.len();
        self.eof = false;
    }

    /// The page holding row `num`: `num / height` rounded up.
    pub fn get_page_num(&self, num: usize) -> (r: usize)
        requires
            self.wf(),
            num + self.height_view() <= usize::MAX,
        ensures
            r == (num + self.height_view() - 1) / (self.height_view() as int),
    {
        (num + self.height - 1) / self.height
    }

    /// The last row that can start a page, once the row count is known.
    pub fn get_max_scroll_num(&self) -> (r: Option<usize>)
        ensures
            match self.rows_known() {
                Some(n) => r == Some(if n >= self.height_view() { (n - self.height_view()) as usize } else { 0usize }),
                None => r is None,
            },
    {
        if self.eof {
            return Some(self.max_line_num.saturating_sub(self.height));
        }
        None
    }

    /// The number of rows (scanning on from the last recorded page start the first time).
    #[verifier::rlimit(80)]
    #[verifier::spinoff_prover]
    pub fn get_line_count(&mut self) -> (r: usize)
        requires
            old(self).wf(),
        ensures
            final(self).wf(),
            final(self).view() == old(self).view(),
            final(self).height_view() == old(self).height_view(),
            final(self).rows_known() == Some(r as nat),
            old(self).rows_known() matches Some(n) ==> r == n,
            old(self).rows_known() is None ==> r == counted_rows(old(self).view(), old(self).with_view(), old(self).height_view(), old(self).page_offsets()),
            final(self).with_view() == old(self).with_view(),
            (fits(old(self).view(), old(self).with_view()) && offsets_sound(old(self).view(), old(self).with_view(),
                old(self).height_view(), old(self).page_offsets())) ==> offsets_sound(final(self).view(), final(self).with_view(),
                final(self).height_view(), final(self).page_offsets()),
    {
        if self.eof {
            return self.max_line_num;
        }
        let page_offset = self.page_offset_list[self.page_offset_list.len() - 1];
        let start_line_num: usize = match (self.page_offset_list.len() - 1).checked_mul(PAGE_GROUP) {
            Some(pages) => match pages.checked_mul(self.height) {
                Some(rows) if rows <= usize::MAX / 2 => rows,
                _ => usize::MAX,
            },
            None => usize::MAX,
        };
        let ghost pages = (self.page_offset_list@.len() - 1) * PAGE_GROUP;
        let ghost before = pages * self.height;
        proof {
            assert(before >= pages) by (nonlinear_arith)
                requires
                    before == pages * self.height,
                    self.height >= 1,
                    pages >= 0;
        }
        if start_line_num == usize::MAX {
            // Only a page list longer than any text can have leads here.
            self.max_line_num = usize::MAX;
            self.eof = true;
            return usize::MAX;
        }
        let start_page_num = (self.page_offset_list.len() - 1) * PAGE_GROUP;
        proof {
            assert(start_page_num <= start_line_num) by (nonlinear_arith)
                requires
                    start_line_num == start_page_num * self.height,
                    self.height >= 1;
        }
        let n = self.text.len();
        let rest = n - page_offset;
        let ghost s = self.text@.subrange(page_offset as int, n as int);
        let ghost wid = self.with as nat;
        let ghost list0 = self.page_offset_list@;
        let ghost rows = warp_from(s, wid, 0, 0);
        let ghost base = start_line_num as int;
        proof {
            assert(rows.take(0) =~= Seq::<Seq<char>>::empty());
            assert(rows.skip(0) =~= rows);
            assert(0int / (self.height as int) == 0) by (nonlinear_arith)
                requires self.height >= 1;
            reveal(groups_recorded);
        }
        let mut start: usize = 0;
        let mut line_num: usize = 0;
        let mut page_num = start_page_num;
        let mut last: char = '\0';
        let mut i: usize = 0;
        while i < rest
            invariant
                self.wf(),
                self.text@ == old(self).text@,
                self.height == old(self).height,
                self.with == old(self).with,
                n == self.text@.len(),
                page_offset <= n,
                rest == n - page_offset,
                start <= i <= rest,
                line_num <= 2 * start,
                page_num <= start_page_num + line_num,
                start_page_num <= usize::MAX / 2,
                s == self.text@.subrange(page_offset as int, n as int),
                wid == self.with,
                line_num + warp_from(s, wid, i as int, start as int).len() == warp_from(s, wid, 0, 0).len(),
                i > 0 ==> last == s[i - 1],
                i == 0 ==> last == '\0',
                list0.len() >= 1,
                page_offset == list0.last(),
                start_page_num == (list0.len() - 1) * PAGE_GROUP,
                base == start_page_num * self.height,
                rows == warp_from(s, wid, 0, 0),
                groups_recorded(self.page_offset_list@, list0, page_offset as int, s, wid, self.height as int, base, line_num as int),
                self.page_offset_list@.len() - 1 == (page_num as int) / (PAGE_GROUP as int),
                page_num == start_page_num + (line_num as int) / (self.height as int),
                rows.skip(line_num as int) == warp_from(s, wid, i as int, start as int),
                rows.take(line_num as int).flatten().len() == start,
                i > 0 && s[i - 1] == '\n' ==> start == i,
            decreases rest - i,
        {
            let c = self.text[page_offset + i];
            last = c;
            if c == '\n' || i == rest - 1 {
                let line_start = page_offset + start;
                let line_end = page_offset + i + 1;
                let ghost line = s.subrange(start as int, i + 1);
                let ghost line_num0 = line_num as int;
                let mut current_width: usize = 0;
                let mut line_offset: usize = 0;
                let mut current_len: usize = 0;
                let mut k: usize = line_start;
                while k < line_end
                    invariant
                        self.wf(),
                        self.text@ == old(self).text@,
                        self.height == old(self).height,
                        self.with == old(self).with,
                        n == self.text@.len(),
                        line_start <= k <= line_end <= n,
                        line_start == page_offset + start,
                        line_end == page_offset + i + 1,
                        start <= i < rest,
                        rest == n - page_offset,
                        current_width <= self.with || current_width <= 3,
                        line_offset + current_len == k - line_start,
                        line_num <= 2 * start + (k - line_start),
                        page_num <= start_page_num + line_num,
                        start_page_num <= usize::MAX / 2,
                        s == self.text@.subrange(page_offset as int, n as int),
                        wid == self.with,
                        line == s.subrange(start as int, i + 1),
                        ({
                            let st = wrap_upto(line, wid, k - line_start);
                            &&& st.width == current_width
                            &&& st.offset == line_offset
                            &&& st.len == current_len
                            &&& line_num == line_num0 + st.rows.len()
                        }),
                list0.len() >= 1,
                page_offset == list0.last(),
                start_page_num == (list0.len() - 1) * PAGE_GROUP,
                base == start_page_num * self.height,
                rows == warp_from(s, wid, 0, 0),
                groups_recorded(self.page_offset_list@, list0, page_offset as int, s, wid, self.height as int, base, line_num as int),
                self.page_offset_list@.len() - 1 == (page_num as int) / (PAGE_GROUP as int),
                page_num == start_page_num + (line_num as int) / (self.height as int),
                        0 <= line_num0 <= rows.len(),
                        rows.skip(line_num0) == warp_from(s, wid, i as int, start as int),
                        rows.take(line_num0).flatten().len() == start,
                        s[i as int] == '\n' || i == rest - 1,
                    decreases line_end - k,
                {
                    proof {
                        assert(line[k - line_start] == self.text@[k as int]);
                    }
                    let w = cols(self.text[k]);
                    if current_width + w > self.with {
                        let end = line_offset + current_len;
                        line_num = line_num + 1;
                        let ghost l0 = self.page_offset_list@;
                        let ghost p0 = page_num as int;
                        proof {
                            let kk = k + 1 - line_start;
                            assert(wrap_upto(line, wid, kk) == wrap_step(wrap_upto(line, wid, kk - 1), line[kk - 1], wid));
                            lemma_rows_through_line(s, wid, line_num0, start as int, i as int, kk);
                        }
                        note_row_end(&mut self.page_offset_list, self.height, line_num, &mut page_num, page_offset + start + end);
                        proof {
                            lemma_row_noted(l0, self.page_offset_list@, list0, p0, page_num as int, line_num as int, self.height as int,
                                start_page_num as int, base, (page_offset + start + end) as int, s, wid, page_offset as int);
                        }
                        line_offset = line_offset + current_len;
                        current_width = w;
                        current_len = 1;
                    } else {
                        current_width = current_width + w;
                        current_len = current_len + 1;
                    }
                    k = k + 1;
                }
                proof {
                    lemma_rows_through_line(s, wid, line_num0, start as int, i as int, (i + 1 - start) as int);
                }
                if current_len > 0 {
                    line_num = line_num + 1;
                    let ghost l0 = self.page_offset_list@;
                    let ghost p0 = page_num as int;
                    note_row_end(&mut self.page_offset_list, self.height, line_num, &mut page_num, page_offset + i + 1);
                    proof {
                        lemma_row_noted(l0, self.page_offset_list@, list0, p0, page_num as int, line_num as int, self.height as int,
                            start_page_num as int, base, (page_offset + i + 1) as int, s, wid, page_offset as int);
                    }
                }
                proof {
                    assert(line_num == line_num0 + wrap_rows(line, wid).len());
                    assert(s[i as int] == c);
                    assert(warp_from(s, wid, i as int, start as int) == row_texts(line, wrap_rows(line, wid)) + warp_from(
                        s,
                        wid,
                        i + 1,
                        i + 1,
                    ));
                }
                start = i + 1;
            } else {
                proof {
                    assert(s[i as int] == c);
                    assert(warp_from(s, wid, i as int, start as int) == warp_from(s, wid, i + 1, start as int));
                }
            }
            i = i + 1;
        }
        proof {
            assert(warp_from(s, wid, i as int, start as int).len() == 0);
        }
        if last == '\n' {
            line_num = line_num + 1;
            let ghost l0 = self.page_offset_list@;
            let ghost p0 = page_num as int;
            proof {
                lemma_warp_keeps_text(s, wid);
                assert(start == rest);
            }
            note_row_end(&mut self.page_offset_list, self.height, line_num, &mut page_num, page_offset + start);
            proof {
                lemma_row_noted(l0, self.page_offset_list@, list0, p0, page_num as int, line_num as int, self.height as int,
                    start_page_num as int, base, (page_offset + start) as int, s, wid, page_offset as int);
            }
        }
        proof {
            assert(line_num == pager_row_count(s, wid));
            let t = self.text@;
            let h = self.height as nat;
            let fin = self.page_offset_list@;
            if fits(t, wid) && offsets_sound(t, wid, h, list0) {
                assert(base == (list0.len() - 1) * PAGE_GROUP * h);
                lemma_groups_sound(t, wid, h, list0, fin, s, list0.len() - 1, line_num as int);
            }
        }
        self.max_line_num = start_line_num + line_num;
        self.max_page_num = page_num;
        self.eof = true;
        self.max_line_num
    }


    /// Rows from `line_num` on, `line_count` of them that pass the pattern filter (with a
    /// pattern, v1 when `is_exact` and v2 otherwise, smart case), and their numbers; `None`
    /// when there are none, or when the row count is known and `line_num` is past it.
    fn get_line_with_count(&mut self, line_num: usize, line_count: usize, pattern: &str, is_exact: bool) -> (r: (
        Option<Vec<String>>,
        Vec<LineMeta>,
    ))
        requires
            old(self).wf(),
            1 <= line_num <= usize::MAX / 4,
            is_exact ==> pattern.spec_bytes().len() <= 900,
            line_count >= 1,
        ensures
            final(self).wf(),
            final(self).view() == old(self).view(),
            final(self).height_view() == old(self).height_view(),
            final(self).with_view() == old(self).with_view(),
            rows_result(r, line_count as nat),
            (old(self).rows_known() matches Some(n) && line_num > n) ==> r.0 is None && r.1@.len() == 0,
            !(old(self).rows_known() matches Some(n) && line_num > n) ==> reads_rows(r, old(self).view(), old(self).with_view(),
                old(self).height_view(), old(self).page_offsets(), line_num as int, line_count as int, pattern.spec_bytes(), is_exact),
            (fits(old(self).view(), old(self).with_view()) && offsets_sound(old(self).view(), old(self).with_view(),
                old(self).height_view(), old(self).page_offsets())) ==> offsets_sound(final(self).view(), final(self).with_view(),
                final(self).height_view(), final(self).page_offsets()),
            (old(self).rows_known() matches Some(n) && line_num > n) ==> final(self).rows_known() == old(self).rows_known(),
            !(old(self).rows_known() matches Some(n) && line_num > n) && lines_of(r.0).len() < line_count ==> final(self).rows_known()
                == Some(rows_read_to_end(old(self).view(), old(self).with_view(), old(self).height_view(), old(self).page_offsets(), line_num as int)),
            lines_of(r.0).len() >= line_count ==> final(self).rows_known() == old(self).rows_known(),
    {
        let page_num = self.get_page_num(line_num);
        proof {
            let h = self.height as int;
            assert((line_num + h - 1) / h >= 1) by (nonlinear_arith)
                requires
                    h >= 1,
                    line_num >= 1;
        }
        let index = (page_num - 1) / PAGE_GROUP;
        let page_offset = if index >= self.page_offset_list.len() {
            self.page_offset_list[self.page_offset_list.len() - 1]
        } else {
            self.page_offset_list[index]
        };
        let start_page_num = index * PAGE_GROUP;
        if self.eof && line_num > self.max_line_num {
            return (None, Vec::new());
        }
        proof {
            let h = self.height as int;
            let pn = page_num as int;
            let ln = line_num as int;
            assert(pn == (ln + h - 1) / h);
            assert((pn - 1) * h < ln) by (nonlinear_arith)
                requires
                    pn == (ln + h - 1) / h,
                    h >= 1,
                    ln >= 1;
            assert(start_page_num * h <= (pn - 1) * h) by (nonlinear_arith)
                requires
                    start_page_num <= pn - 1,
                    h >= 1;
        }
        let skip_line = line_num - start_page_num * self.height;
        proof {
            reveal(reads_rows);
        }
        self.get_text(page_offset, line_count, start_page_num, skip_line, pattern, is_exact)
    }

    /// A page of rows from `line_num` on.
    pub fn get_line(&mut self, line_num: usize, pattern: &str, is_exact: bool) -> (r: (Option<Vec<String>>, Vec<LineMeta>))
        requires
            old(self).wf(),
            1 <= line_num <= usize::MAX / 4,
            is_exact ==> pattern.spec_bytes().len() <= 900,
        ensures
            final(self).wf(),
            final(self).view() == old(self).view(),
            final(self).height_view() == old(self).height_view(),
            final(self).with_view() == old(self).with_view(),
            rows_result(r, old(self).height_view()),
            (old(self).rows_known() matches Some(n) && line_num > n) ==> r.0 is None && r.1@.len() == 0,
            !(old(self).rows_known() matches Some(n) && line_num > n) ==> reads_rows(r, old(self).view(), old(self).with_view(),
                old(self).height_view(), old(self).page_offsets(), line_num as int, old(self).height_view() as int,
                pattern.spec_bytes(), is_exact),
            (fits(old(self).view(), old(self).with_view()) && offsets_sound(old(self).view(), old(self).with_view(),
                old(self).height_view(), old(self).page_offsets())) ==> offsets_sound(final(self).view(), final(self).with_view(),
                final(self).height_view(), final(self).page_offsets()),
            (fits(old(self).view(), old(self).with_view()) && offsets_sound(old(self).view(), old(self).with_view(),
                old(self).height_view(), old(self).page_offsets()) && read_group(old(self).height_view(), line_num as int)
                < old(self).page_offsets().len() && !(old(self).rows_known() matches Some(n) && line_num > n)) ==> read_result(r,
                old(self).view(), old(self).with_view(), 0, 0, line_num as int, old(self).height_view() as int, pattern.spec_bytes(), is_exact),
            (old(self).rows_known() matches Some(n) && line_num > n) ==> final(self).rows_known() == old(self).rows_known(),
            !(old(self).rows_known() matches Some(n) && line_num > n) && lines_of(r.0).len() < old(self).height_view() ==> final(self).rows_known()
                == Some(rows_read_to_end(old(self).view(), old(self).with_view(), old(self).height_view(), old(self).page_offsets(), line_num as int)),
            lines_of(r.0).len() >= old(self).height_view() ==> final(self).rows_known() == old(self).rows_known(),
    {
        let count = self.height;
        let r = self.get_line_with_count(line_num, count, pattern, is_exact);
        proof {
            if fits(old(self).view(), old(self).with_view()) && offsets_sound(old(self).view(), old(self).with_view(),
                old(self).height_view(), old(self).page_offsets()) && read_group(old(self).height_view(), line_num as int)
                < old(self).page_offsets().len() && !(old(self).rows_known() matches Some(n) && line_num > n) {
                lemma_read_from_sound_offsets(r, old(self).view(), old(self).with_view(), old(self).height_view(),
                    old(self).page_offsets(), line_num as int, old(self).height_view(), pattern.spec_bytes(), is_exact);
            }
        }
        r
    }

    /// The rows `start` to `end`.
    pub fn get_start_end(&mut self, start: usize, end: usize) -> (r: (Option<Vec<String>>, Vec<LineMeta>))
        requires
            old(self).wf(),
            1 <= start <= end,
            start <= usize::MAX / 4,
        ensures
            final(self).wf(),
            final(self).view() == old(self).view(),
            final(self).height_view() == old(self).height_view(),
            final(self).with_view() == old(self).with_view(),
            rows_result(r, (end - start + 1) as nat),
            (old(self).rows_known() matches Some(n) && start > n) ==> r.0 is None && r.1@.len() == 0,
            !(old(self).rows_known() matches Some(n) && start > n) ==> reads_rows(r, old(self).view(), old(self).with_view(),
                old(self).height_view(), old(self).page_offsets(), start as int, end - start + 1, Seq::<u8>::empty(), true),
            (fits(old(self).view(), old(self).with_view()) && offsets_sound(old(self).view(), old(self).with_view(),
                old(self).height_view(), old(self).page_offsets())) ==> offsets_sound(final(self).view(), final(self).with_view(),
                final(self).height_view(), final(self).page_offsets()),
            (fits(old(self).view(), old(self).with_view()) && offsets_sound(old(self).view(), old(self).with_view(),
                old(self).height_view(), old(self).page_offsets()) && read_group(old(self).height_view(), start as int)
                < old(self).page_offsets().len() && !(old(self).rows_known() matches Some(n) && start > n)) ==> read_result(r,
                old(self).view(), old(self).with_view(), 0, 0, start as int, end - start + 1, Seq::<u8>::empty(), true),
            (old(self).rows_known() matches Some(n) && start > n) ==> final(self).rows_known() == old(self).rows_known(),
            !(old(self).rows_known() matches Some(n) && start > n) && lines_of(r.0).len() < end - start + 1 ==> final(self).rows_known()
                == Some(rows_read_to_end(old(self).view(), old(self).with_view(), old(self).height_view(), old(self).page_offsets(), start as int)),
            lines_of(r.0).len() >= end - start + 1 ==> final(self).rows_known() == old(self).rows_known(),
    {
        proof {
            reveal_strlit("");
            assert("".spec_bytes() =~= Seq::<u8>::empty());
        }
        let r = self.get_line_with_count(start, end - start + 1, "", true);
        proof {
            if fits(old(self).view(), old(self).with_view()) && offsets_sound(old(self).view(), old(self).with_view(),
                old(self).height_view(), old(self).page_offsets()) && read_group(old(self).height_view(), start as int)
                < old(self).page_offsets().len() && !(old(self).rows_known() matches Some(n) && start > n) {
                lemma_read_from_sound_offsets(r, old(self).view(), old(self).with_view(), old(self).height_view(),
                    old(self).page_offsets(), start as int, (end - start + 1) as nat, Seq::<u8>::empty(), true);
            }
        }
        r
    }

    /// After a read from the start of group `g0` that counted `ln` rows of the rest `s`, the
    /// recorded groups are sound where they were and every character fits in a row.
    proof fn lemma_read_sound(&self, list0: Seq<usize>, s: Seq<char>, g0: int, ln: int, page_offset: usize)
        requires
            0 <= g0 < list0.len(),
            self.height >= 1,
            s == self.text@.subrange(page_offset as int, self.text@.len() as int),
            ln <= pager_row_count(s, self.with as nat),
            groups_recorded(self.page_offset_list@, list0, page_offset as int, s, self.with as nat, self.height as int,
                g0 * PAGE_GROUP * (self.height as int), ln),
        ensures
            (fits(self.text@, self.with as nat) && offsets_sound(self.text@, self.with as nat, self.height as nat, list0)
                && page_offset == list0[g0]) ==> offsets_sound(self.text@, self.with as nat, self.height as nat, self.page_offset_list@),
    {
        if fits(self.text@, self.with as nat) && offsets_sound(self.text@, self.with as nat, self.height as nat, list0) && page_offset == list0[g0] {
            lemma_groups_sound(self.text@, self.with as nat, self.height as nat, list0, self.page_offset_list@, s, g0, ln);
        }
    }

    /// Reads rows from the page start `page_offset` (page `start_page_num`), keeping those
    /// from row `skip_line` on that pass the filter, until `line_count` are kept; reaching the
    /// end of the text records the row count.
    #[verifier::rlimit(100)]
    #[verifier::spinoff_prover]
    fn get_text(
        &mut self,
        page_offset: usize,
        line_count: usize,
        start_page_num: usize,
        skip_line: usize,
        pattern: &str,
        is_exact: bool,
    ) -> (r: (Option<Vec<String>>, Vec<LineMeta>))
        requires
            old(self).wf(),
            page_offset <= old(self).view().len(),
            start_page_num * old(self).height_view() <= usize::MAX / 4,
            is_exact ==> pattern.spec_bytes().len() <= 900,
            line_count >= 1,
            start_page_num % PAGE_GROUP == 0,
        ensures
            final(self).wf(),
            final(self).view() == old(self).view(),
            final(self).height_view() == old(self).height_view(),
            final(self).with_view() == old(self).with_view(),
            rows_result(r, line_count as nat),
            read_result(r, old(self).view(), old(self).with_view(), page_offset as int, start_page_num * old(self).height_view(),
                skip_line as int, line_count as int, pattern.spec_bytes(), is_exact),
            ({
                let l0 = old(self).page_offsets();
                let g: int = if (start_page_num as int) / (PAGE_GROUP as int) < l0.len() { (start_page_num as int) / (PAGE_GROUP as int) } else { l0.len() - 1 };
                (fits(old(self).view(), old(self).with_view()) && offsets_sound(old(self).view(), old(self).with_view(),
                    old(self).height_view(), l0) && page_offset == l0[g]) ==> offsets_sound(final(self).view(),
                    final(self).with_view(), final(self).height_view(), final(self).page_offsets())
            }),
            lines_of(r.0).len() < line_count ==> final(self).rows_known() == Some((start_page_num * old(self).height_view()
                + pager_row_count(old(self).view().subrange(page_offset as int, old(self).view().len() as int), old(self).with_view())) as nat),
            lines_of(r.0).len() >= line_count ==> final(self).rows_known() == old(self).rows_known(),
    {
        let start_line_num = start_page_num * self.height;
        proof {
            assert(start_page_num <= start_line_num) by (nonlinear_arith)
                requires
                    start_line_num == start_page_num * self.height,
                    self.height >= 1;
        }
        let compiled = CompiledPattern::new(pattern.as_bytes());
        let algorithm = if is_exact {
            FuzzyAlgorithm::V1
        } else {
            FuzzyAlgorithm::V2
        };
        let pattern_len = compiled.bytes.len();
        let mut fuzzy = FuzzySearch::new();
        let mut session = fuzzy.begin(algorithm, &compiled);
        let n = self.text.len();
        let rest = n - page_offset;
        let ghost s = self.text@.subrange(page_offset as int, n as int);
        let ghost wid = self.with as nat;
        let ghost rows = warp_from(s, wid, 0, 0);
        let ghost cp = compiled.bytes@;
        let ghost cs = compiled.case_sensitive;
        proof {
            assert(cp == compiled_bytes(pattern.spec_bytes()));
            assert(cs == has_upper(pattern.spec_bytes()));
            assert(rows == warp_from(old(self).view().subrange(page_offset as int, old(self).view().len() as int), old(self).with_view(), 0, 0));
            assert(start_line_num == start_page_num * old(self).height_view());
        }
        let mut split_lines: Vec<String> = Vec::new();
        let mut line_meta_list: Vec<LineMeta> = Vec::new();
        let mut start: usize = 0;
        let mut line_num: usize = 0;
        let mut page_num = start_page_num;
        let mut last: char = '\0';
        let mut i: usize = 0;
        let ghost list0 = self.page_offset_list@;
        let ghost idx = start_page_num as int / (PAGE_GROUP as int);
        let ghost g0 = if idx < list0.len() { idx } else { list0.len() - 1 };
        let ghost base = g0 * PAGE_GROUP * (self.height as int);
        proof {
            assert(rows.skip(0) =~= rows);
            assert(rows.take(0) =~= Seq::<Seq<char>>::empty());
            assert(0int / (self.height as int) == 0) by (nonlinear_arith)
                requires self.height >= 1;
            reveal(groups_recorded);
        }
        while i < rest
            invariant
                self.wf(),
                self.text@ == old(self).text@,
                self.height == old(self).height,
                self.with == old(self).with,
                n == self.text@.len(),
                page_offset <= n,
                rest == n - page_offset,
                start <= i <= rest,
                line_num <= 2 * start,
                page_num <= start_page_num + line_num,
                start_page_num <= start_line_num <= usize::MAX / 4,
                session.wf(),
                session.algorithm() == algorithm,
                session.pattern() == cp,
                session.case_sensitive() == cs,
                cp.len() == pattern_len,
                algorithm == FuzzyAlgorithm::V1 ==> pattern_len <= 900,
                (algorithm == FuzzyAlgorithm::V1) == is_exact,
                split_lines@.len() == line_meta_list@.len(),
                split_lines@.len() < line_count,
                s == self.text@.subrange(page_offset as int, n as int),
                wid == self.with,
                rows == warp_from(s, wid, 0, 0),
                rows == warp_from(old(self).view().subrange(page_offset as int, old(self).view().len() as int), old(self).with_view(), 0, 0),
                cp == compiled_bytes(pattern.spec_bytes()),
                cs == has_upper(pattern.spec_bytes()),
                start_line_num == start_page_num * old(self).height_view(),
                warp_from(s, wid, i as int, start as int) == rows.skip(line_num as int),
                line_num <= rows.len(),
                i > 0 ==> last == s[i - 1],
                i == 0 ==> last == '\0',
                read_matches(split_lines@, line_meta_list@, rows, picked_rows(rows, skip_line as int, cp, cs, is_exact, line_num as int), start_line_num as int, pattern_len > 0),
                list0.len() >= 1,
                list0 == old(self).page_offset_list@,
                self.rows_known() == old(self).rows_known(),
                idx == (start_page_num as int) / (PAGE_GROUP as int),
                start_page_num == idx * PAGE_GROUP,
                g0 == if idx < list0.len() { idx } else { list0.len() - 1 },
                base == g0 * PAGE_GROUP * (self.height as int),
                groups_recorded(self.page_offset_list@, list0, page_offset as int, s, wid, self.height as int, base, line_num as int),
                self.page_offset_list@.len() - 1 == groups_reached(list0.len() as int, g0, (page_num as int) / (PAGE_GROUP as int) - idx),
                page_num == start_page_num + (line_num as int) / (self.height as int),
                rows.take(line_num as int).flatten().len() == start,
                i > 0 && s[i - 1] == '\n' ==> start == i,
            decreases rest - i,
        {
            let c = self.text[page_offset + i];
            last = c;
            if c == '\n' || i == rest - 1 {
                let line_start = page_offset + start;
                let line_end = page_offset + i + 1;
                let ghost line = s.subrange(start as int, i + 1);
                let ghost line_num0 = line_num as int;
                proof {
                    assert(s[i as int] == c);
                    assert(warp_from(s, wid, i as int, start as int) == row_texts(line, wrap_rows(line, wid)) + warp_from(
                        s,
                        wid,
                        i + 1,
                        i + 1,
                    ));
                }
                let mut current_width: usize = 0;
                let mut line_offset: usize = 0;
                let mut current_len: usize = 0;
                let mut k: usize = line_start;
                while k < line_end
                    invariant
                        self.wf(),
                        self.text@ == old(self).text@,
                        self.height == old(self).height,
                        self.with == old(self).with,
                        n == self.text@.len(),
                        line_start <= k <= line_end <= n,
                        line_start == page_offset + start,
                        line_end == page_offset + i + 1,
                        start <= i < rest,
                        rest == n - page_offset,
                        current_width <= self.with || current_width <= 3,
                        line_offset + current_len == k - line_start,
                        line_num <= 2 * start + (k - line_start),
                        page_num <= start_page_num + line_num,
                        start_page_num <= start_line_num <= usize::MAX / 4,
                        session.wf(),
                        session.algorithm() == algorithm,
                        session.pattern() == cp,
                        session.case_sensitive() == cs,
                        cp.len() == pattern_len,
                        algorithm == FuzzyAlgorithm::V1 ==> pattern_len <= 900,
                        (algorithm == FuzzyAlgorithm::V1) == is_exact,
                        split_lines@.len() == line_meta_list@.len(),
                        split_lines@.len() < line_count,
                        s == self.text@.subrange(page_offset as int, n as int),
                        wid == self.with,
                        rows == warp_from(s, wid, 0, 0),
                        rows == warp_from(old(self).view().subrange(page_offset as int, old(self).view().len() as int), old(self).with_view(), 0, 0),
                        cp == compiled_bytes(pattern.spec_bytes()),
                        cs == has_upper(pattern.spec_bytes()),
                        start_line_num == start_page_num * old(self).height_view(),
                        line == s.subrange(start as int, i + 1),
                        rows.skip(line_num0) == row_texts(line, wrap_rows(line, wid)) + warp_from(s, wid, i + 1, i + 1),
                        0 <= line_num0 <= rows.len(),
                        ({
                            let st = wrap_upto(line, wid, k - line_start);
                            &&& st.width == current_width
                            &&& st.offset == line_offset
                            &&& st.len == current_len
                            &&& line_num == line_num0 + st.rows.len()
                        }),
                        read_matches(split_lines@, line_meta_list@, rows, picked_rows(rows, skip_line as int, cp, cs, is_exact, line_num as int), start_line_num as int, pattern_len > 0),
                        list0.len() >= 1,
                        list0 == old(self).page_offset_list@,
                        self.rows_known() == old(self).rows_known(),
                        idx == (start_page_num as int) / (PAGE_GROUP as int),
                        start_page_num == idx * PAGE_GROUP,
                        g0 == if idx < list0.len() { idx } else { list0.len() - 1 },
                        base == g0 * PAGE_GROUP * (self.height as int),
                        groups_recorded(self.page_offset_list@, list0, page_offset as int, s, wid, self.height as int, base, line_num as int),
                        self.page_offset_list@.len() - 1 == groups_reached(list0.len() as int, g0, (page_num as int) / (PAGE_GROUP as int) - idx),
                        page_num == start_page_num + (line_num as int) / (self.height as int),
                        rows.skip(line_num0) == warp_from(s, wid, i as int, start as int),
                        rows.take(line_num0).flatten().len() == start,
                        s[i as int] == '\n' || i == rest - 1,
                    decreases line_end - k,
                {
                    proof {
                        assert(line[k - line_start] == self.text@[k as int]);
                    }
                    let w = cols(self.text[k]);
                    if current_width + w > self.with {
                        let end = line_offset + current_len;
                        proof {
                            let kk = k - line_start;
                            let st = wrap_upto(line, wid, kk);
                            let j = st.rows.len() as int;
                            lemma_wrap_shape(line, wid, kk);
                            assert(wrap_upto(line, wid, kk + 1) == wrap_step(st, line[kk], wid));
                            assert(wrap_upto(line, wid, kk + 1).rows == st.rows.push((st.offset, st.len)));
                            lemma_wrap_rows_prefix(line, wid, kk + 1);
                            assert(wrap_upto(line, wid, kk + 1).rows[j] == (st.offset, st.len));
                            assert(wrap_rows(line, wid)[j] == (st.offset, st.len));
                            lemma_row_at(rows, line_num0, line, wid, warp_from(s, wid, i + 1, i + 1), j);
                            assert(rows[line_num as int] == line.subrange(st.offset as int, (st.offset + st.len) as int));
                        }
                        line_num = line_num + 1;
                        let ghost l0 = self.page_offset_list@;
                        let ghost p0 = page_num as int;
                        proof {
                            lemma_rows_through_line(s, wid, line_num0, start as int, i as int, k + 1 - line_start);
                        }
                        note_row_end(&mut self.page_offset_list, self.height, line_num, &mut page_num, page_offset + start + end);
                        proof {
                            lemma_read_row_noted(l0, self.page_offset_list@, list0, p0, page_num as int, line_num as int, self.height as int,
                                idx, g0, (page_offset + start + end) as int, s, wid, page_offset as int);
                        }
                        let txt = slice_chars(self.text.as_slice(), line_start + line_offset, line_start + end);
                        proof {
                            assert(txt@ =~= rows[line_num - 1]);
                        }
                        let ghost l0 = split_lines@;
                        let ghost m0 = line_meta_list@;
                        offer_row(&mut session, pattern_len, &txt, line_num, skip_line, start_line_num, &mut split_lines, &mut line_meta_list);
                        proof {
                            lemma_read_step(l0, m0, split_lines@, line_meta_list@, rows, skip_line as int, cp, cs, is_exact, line_num as int, start_line_num as int, pattern_len > 0);
                        }
                        if split_lines.len() >= line_count {
                            proof {
                                lemma_read_done(split_lines@, line_meta_list@, rows, skip_line as int, cp, cs, is_exact, line_num as int, start_line_num as int, pattern_len > 0, line_count as int);
                            }
                            proof {
                                self.lemma_read_sound(list0, s, g0, line_num as int, page_offset);
                            }
                            return (Some(split_lines), line_meta_list);
                        }
                        line_offset = line_offset + current_len;
                        current_width = w;
                        current_len = 1;
                    } else {
                        current_width = current_width + w;
                        current_len = current_len + 1;
                    }
                    k = k + 1;
                }
                if current_len > 0 {
                    proof {
                        let st = wrap_upto(line, wid, line.len() as int);
                        let j = st.rows.len() as int;
                        assert(k - line_start == line.len());
                        lemma_wrap_shape(line, wid, line.len() as int);
                        assert(wrap_rows(line, wid)[j] == (st.offset, st.len));
                        lemma_row_at(rows, line_num0, line, wid, warp_from(s, wid, i + 1, i + 1), j);
                        assert(rows[line_num as int] == line.subrange(st.offset as int, (st.offset + st.len) as int));
                    }
                    line_num = line_num + 1;
                    let ghost l0 = self.page_offset_list@;
                    let ghost p0 = page_num as int;
                    proof {
                        lemma_rows_through_line(s, wid, line_num0, start as int, i as int, (i + 1 - start) as int);
                    }
                    note_row_end(&mut self.page_offset_list, self.height, line_num, &mut page_num, page_offset + i + 1);
                    proof {
                        lemma_read_row_noted(l0, self.page_offset_list@, list0, p0, page_num as int, line_num as int, self.height as int,
                            idx, g0, (page_offset + i + 1) as int, s, wid, page_offset as int);
                    }
                    let txt = slice_chars(self.text.as_slice(), line_start + line_offset, line_end);
                    proof {
                        assert(txt@ =~= rows[line_num - 1]);
                    }
                    let ghost l0 = split_lines@;
                    let ghost m0 = line_meta_list@;
                    offer_row(&mut session, pattern_len, &txt, line_num, skip_line, start_line_num, &mut split_lines, &mut line_meta_list);
                    proof {
                        lemma_read_step(l0, m0, split_lines@, line_meta_list@, rows, skip_line as int, cp, cs, is_exact, line_num as int, start_line_num as int, pattern_len > 0);
                    }
                    if split_lines.len() >= line_count {
                        proof {
                            lemma_read_done(split_lines@, line_meta_list@, rows, skip_line as int, cp, cs, is_exact, line_num as int, start_line_num as int, pattern_len > 0, line_count as int);
                        }
                        proof {
                            self.lemma_read_sound(list0, s, g0, line_num as int, page_offset);
                        }
                        return (Some(split_lines), line_meta_list);
                    }
                }
                proof {
                    assert(line_num == line_num0 + wrap_rows(line, wid).len());
                    assert(rows.skip(line_num as int) =~= rows.skip(line_num0).skip(wrap_rows(line, wid).len() as int));
                    assert(row_texts(line, wrap_rows(line, wid)).len() == wrap_rows(line, wid).len());
                    assert((row_texts(line, wrap_rows(line, wid)) + warp_from(s, wid, i + 1, i + 1)).skip(wrap_rows(line, wid).len() as int)
                        =~= warp_from(s, wid, i + 1, i + 1));
                    lemma_rows_through_line(s, wid, line_num0, start as int, i as int, (i + 1 - start) as int);
                }
                start = i + 1;
            } else {
                proof {
                    assert(s[i as int] == c);
                    assert(warp_from(s, wid, i as int, start as int) == warp_from(s, wid, i + 1, start as int));
                }
            }
            i = i + 1;
        }
        proof {
            assert(warp_from(s, wid, i as int, start as int).len() == 0);
            assert(line_num == rows.len());
            lemma_read_done(split_lines@, line_meta_list@, rows, skip_line as int, cp, cs, is_exact, line_num as int, start_line_num as int, pattern_len > 0, line_count as int);
        }
        if last == '\n' {
            line_num = line_num + 1;
            let ghost l0 = self.page_offset_list@;
            let ghost p0 = page_num as int;
            proof {
                lemma_warp_keeps_text(s, wid);
            }
            note_row_end(&mut self.page_offset_list, self.height, line_num, &mut page_num, page_offset + start);
            proof {
                lemma_read_row_noted(l0, self.page_offset_list@, list0, p0, page_num as int, line_num as int, self.height as int,
                    idx, g0, (page_offset + start) as int, s, wid, page_offset as int);
            }
        }
        proof {
            self.lemma_read_sound(list0, s, g0, line_num as int, page_offset);
            assert(line_num == pager_row_count(s, wid));
        }
        if split_lines.len() < line_count {
            self.max_line_num = start_line_num + line_num;
            self.max_page_num = page_num;
            self.eof = true;
        }
        if split_lines.len() > 0 {
            (Some(split_lines), line_meta_list)
        } else {
            (None, line_meta_list)
        }
    }

}

/// The rows the pager counts in `s` (a text that starts a line): its wrapped rows, and one
/// more when it ends with a newline.
pub open spec fn pager_row_count(s: Seq<char>, with: nat) -> nat {
    warp_from(s, with, 0, 0).len() + (if s.len() > 0 && s.last() == '\n' { 1nat } else { 0nat })
}

/// The row count read on from the last recorded page group: the rows before that group,
/// then the rows of the text from its start; the most a `usize` holds when the rows before
/// the group are over half of it.
pub open spec fn counted_rows(t: Seq<char>, with: nat, height: nat, offsets: Seq<usize>) -> int {
    let before = (offsets.len() - 1) * PAGE_GROUP * height;
    if before > usize::MAX / 2 {
        usize::MAX as int
    } else {
        before + pager_row_count(t.subrange(offsets.last() as int, t.len() as int), with)
    }
}

/// A read of rows: as many numbers as rows, none past the count asked for, the numbers
/// increasing, and `None` exactly when no row is kept.
pub open spec fn rows_result(r: (Option<Vec<String>>, Vec<LineMeta>), line_count: nat) -> bool {
    &&& forall|a: int, b: int| 0 <= a < b < r.1@.len() ==> (#[trigger] r.1@[a]).line_num_view() < (#[trigger] r.1@[b]).line_num_view()
    &&& match r.0 {
        Some(lines) => lines@.len() == r.1@.len() && lines@.len() <= (if line_count == 0 { 1 } else { line_count })
            && (lines@.len() >= 1 || line_count == 0),
        None => r.1@.len() == 0,
    }
}

} // verus!
