use vstd::prelude::*;
use crate::text::{char_cols, lemma_rows_cover_line, lemma_warp_keeps_text, lemma_wrap_cover, lemma_wrap_rows_prefix, lemma_wrap_shape,
    row_texts, warp_from, wrap_rows, wrap_step, wrap_upto, WrapState, pager_row_count, counted_rows, read_result, reads_rows,
    read_group, picked_rows, read_matches, lines_of, row_kept, PAGE_GROUP, LineMeta, lemma_picked_bounds};
use crate::fuzzy::{compiled_bytes, has_upper};

verus! {

/// Every character of `line` fits in a row of `with` columns.
pub open spec fn fits(line: Seq<char>, with: nat) -> bool {
    forall|i: int| 0 <= i < line.len() ==> char_cols(#[trigger] line[i]) <= with
}

/// Rows (start and length) moved back by `o`.
pub open spec fn moved_rows(rows: Seq<(nat, nat)>, o: nat) -> Seq<(nat, nat)> {
    rows.map_values(|r: (nat, nat)| ((r.0 - o) as nat, r.1))
}

/// A wrapping state seen from offset `o`, its first `c` closed rows dropped.
pub open spec fn moved_state(s: WrapState, o: nat, c: nat) -> WrapState {
    WrapState { width: s.width, offset: (s.offset - o) as nat, len: s.len, rows: moved_rows(s.rows.skip(c as int), o) }
}

/// Wrapping only closes rows and moves the open row's start forward.
proof fn lemma_wrap_grows(line: Seq<char>, with: nat, k: int, k2: int)
    requires
        0 <= k <= k2 <= line.len(),
    ensures
        wrap_upto(line, with, k).rows.len() <= wrap_upto(line, with, k2).rows.len(),
        wrap_upto(line, with, k).offset <= wrap_upto(line, with, k2).offset,
        wrap_upto(line, with, k2).rows.take(wrap_upto(line, with, k).rows.len() as int) == wrap_upto(line, with, k).rows,
        forall|i: int| wrap_upto(line, with, k).rows.len() <= i < wrap_upto(line, with, k2).rows.len() ==> (
        #[trigger] wrap_upto(line, with, k2).rows[i]).0 >= wrap_upto(line, with, k).offset,
    decreases k2 - k,
{
    if k < k2 {
        lemma_wrap_grows(line, with, k, k2 - 1);
        let a = wrap_upto(line, with, k);
        let b = wrap_upto(line, with, k2 - 1);
        let c = wrap_upto(line, with, k2);
        assert(c == wrap_step(b, line[k2 - 1], with));
        assert(c.rows.take(a.rows.len() as int) =~= b.rows.take(a.rows.len() as int));
    } else {
        let a = wrap_upto(line, with, k);
        assert(a.rows.take(a.rows.len() as int) =~= a.rows);
    }
}

/// Restarting the wrap of a line at the start of the row open after `k` characters follows
/// the wrap of the whole line from there on, when every character fits in a row.
proof fn lemma_restart(line: Seq<char>, with: nat, k: int, k2: int)
    requires
        fits(line, with),
        0 <= k <= k2 <= line.len(),
    ensures
        ({
            let s = wrap_upto(line, with, k);
            wrap_upto(line.subrange(s.offset as int, line.len() as int), with, k2 - s.offset) == moved_state(
                wrap_upto(line, with, k2),
                s.offset,
                s.rows.len(),
            )
        }),
    decreases k2 - k, k,
{
    let s = wrap_upto(line, with, k);
    let o = s.offset;
    let c = s.rows.len();
    let sub = line.subrange(o as int, line.len() as int);
    lemma_wrap_shape(line, with, k);
    if k2 > k {
        lemma_restart(line, with, k, k2 - 1);
        lemma_wrap_grows(line, with, k, k2 - 1);
        lemma_wrap_shape(line, with, k2 - 1);
        let b = wrap_upto(line, with, k2 - 1);
        let rb = wrap_upto(sub, with, k2 - 1 - o);
        assert(rb == moved_state(b, o, c));
        assert(sub[k2 - 1 - o] == line[k2 - 1]);
        assert(wrap_upto(sub, with, k2 - o) == wrap_step(rb, sub[k2 - 1 - o], with));
        assert(wrap_upto(line, with, k2) == wrap_step(b, line[k2 - 1], with));
        let w = char_cols(line[k2 - 1]);
        if b.width + w > with {
            assert(b.rows.push((b.offset, b.len)).skip(c as int) =~= b.rows.skip(c as int).push((b.offset, b.len)));
            assert(moved_rows(b.rows.skip(c as int).push((b.offset, b.len)), o) =~= moved_rows(b.rows.skip(c as int), o).push(
                ((b.offset - o) as nat, b.len),
            ));
        }
    } else if k > 0 {
        lemma_restart(line, with, k - 1, k - 1);
        let p = wrap_upto(line, with, k - 1);
        lemma_wrap_shape(line, with, k - 1);
        assert(s == wrap_step(p, line[k - 1], with));
        let w = char_cols(line[k - 1]);
        if p.width + w > with {
            assert(o == k - 1);
            assert(sub[0] == line[k - 1]);
            assert(wrap_upto(sub, with, 1) == wrap_step(wrap_upto(sub, with, 0), sub[0], with));
            assert(s.rows.skip(c as int) =~= Seq::<(nat, nat)>::empty());
            assert(moved_rows(Seq::<(nat, nat)>::empty(), o) =~= Seq::<(nat, nat)>::empty());
            assert(wrap_upto(sub, with, 0).rows =~= Seq::<(nat, nat)>::empty());
        } else {
            let rp = wrap_upto(line.subrange(p.offset as int, line.len() as int), with, k - 1 - p.offset);
            assert(p.offset == o);
            assert(rp == moved_state(p, o, p.rows.len()));
            assert(sub[k - 1 - o] == line[k - 1]);
            assert(wrap_upto(sub, with, k - o) == wrap_step(rp, sub[k - 1 - o], with));
        }
    } else {
        assert(sub =~= line);
        assert(s.rows.skip(0) =~= s.rows);
        assert(s.rows =~= Seq::<(nat, nat)>::empty());
        assert(moved_rows(Seq::<(nat, nat)>::empty(), 0) =~= Seq::<(nat, nat)>::empty());
    }
}

/// The rows of a line restarted at the start of the row open after `k` characters are the
/// line's rows from that row on, when every character fits in a row.
pub proof fn lemma_line_restart(line: Seq<char>, with: nat, k: int)
    requires
        fits(line, with),
        0 <= k <= line.len(),
    ensures
        ({
            let s = wrap_upto(line, with, k);
            let sub = line.subrange(s.offset as int, line.len() as int);
            row_texts(sub, wrap_rows(sub, with)) == row_texts(line, wrap_rows(line, with)).skip(s.rows.len() as int)
        }),
{
    let s = wrap_upto(line, with, k);
    let o = s.offset;
    let c = s.rows.len();
    let n = line.len() as int;
    let sub = line.subrange(o as int, n);
    lemma_wrap_shape(line, with, k);
    lemma_restart(line, with, k, n);
    lemma_wrap_grows(line, with, k, n);
    lemma_wrap_shape(line, with, n);
    let e = wrap_upto(line, with, n);
    let re = wrap_upto(sub, with, n - o);
    assert(sub.len() == n - o);
    assert(re == moved_state(e, o, c));
    let whole = wrap_rows(line, with);
    let x = whole.skip(c as int);
    if e.len > 0 {
        assert(whole == e.rows.push((e.offset, e.len)));
        assert(x =~= e.rows.skip(c as int).push((e.offset, e.len)));
        assert(wrap_rows(sub, with) =~= moved_rows(x, o));
    } else {
        assert(whole == e.rows);
        assert(wrap_rows(sub, with) =~= moved_rows(x, o));
    }
    assert forall|i: int| 0 <= i < x.len() implies o <= (#[trigger] x[i]).0 && x[i].0 + x[i].1 <= n by {
        if i + c < e.rows.len() {
            assert(x[i] == e.rows[i + c]);
        }
    }
    assert(row_texts(sub, moved_rows(x, o)) =~= row_texts(line, whole).skip(c as int)) by {
        assert forall|i: int| 0 <= i < x.len() implies #[trigger] row_texts(sub, moved_rows(x, o))[i] == row_texts(line, whole).skip(c as int)[i] by {
            assert(row_texts(line, whole).skip(c as int)[i] == row_texts(line, whole)[i + c]);
            assert(whole[i + c] == x[i]);
            assert(sub.subrange(x[i].0 - o, x[i].0 - o + x[i].1) =~= line.subrange(x[i].0 as int, (x[i].0 + x[i].1) as int));
        }
    }
}

/// From character `k` on, the first point of the wrap of `line` with at least `j` rows closed
/// (the line's end when there is none).
pub open spec fn first_with_rows(line: Seq<char>, with: nat, j: int, k: int) -> int
    decreases line.len() - k,
{
    if k >= line.len() || wrap_upto(line, with, k).rows.len() >= j {
        k
    } else {
        first_with_rows(line, with, j, k + 1)
    }
}

/// Every row of a line is the open row at some point of the wrap.
pub proof fn lemma_row_opens(line: Seq<char>, with: nat, j: int, k: int)
    requires
        0 <= k <= line.len(),
        wrap_upto(line, with, k).rows.len() <= j,
        j < wrap_rows(line, with).len(),
    ensures
        k <= first_with_rows(line, with, j, k) <= line.len(),
        wrap_upto(line, with, first_with_rows(line, with, j, k)).rows.len() == j,
    decreases line.len() - k,
{
    let n = line.len() as int;
    if k < n && wrap_upto(line, with, k).rows.len() < j {
        let a = wrap_upto(line, with, k);
        assert(wrap_upto(line, with, k + 1) == wrap_step(a, line[k], with));
        lemma_row_opens(line, with, j, k + 1);
    } else if k >= n {
        lemma_wrap_shape(line, with, n);
        let e = wrap_upto(line, with, n);
        assert(wrap_rows(line, with).len() <= e.rows.len() + 1);
    }
}

/// Splitting a text from offset `a` on: its rows from index `i` (current line from `s`) are
/// those of the whole text from there.
proof fn lemma_warp_shift(t: Seq<char>, with: nat, a: int, i: int, s: int)
    requires
        0 <= a <= s <= i <= t.len(),
    ensures
        warp_from(t.subrange(a, t.len() as int), with, i - a, s - a) == warp_from(t, with, i, s),
    decreases t.len() - i,
{
    let n = t.len() as int;
    let u = t.subrange(a, n);
    if i < n {
        assert(u[i - a] == t[i]);
        if t[i] == '\n' || i == n - 1 {
            assert(u.subrange(s - a, i + 1 - a) =~= t.subrange(s, i + 1));
            lemma_warp_shift(t, with, a, i + 1, i + 1);
        } else {
            lemma_warp_shift(t, with, a, i + 1, s);
        }
    }
}

/// From index `k`, where the line running through `k` ends (just past its newline, or at
/// the text's end).
pub open spec fn line_end_from(t: Seq<char>, k: int) -> int
    decreases t.len() - k,
{
    if k < 0 || k >= t.len() {
        t.len() as int
    } else if t[k] == '\n' || k == t.len() - 1 {
        k + 1
    } else {
        line_end_from(t, k + 1)
    }
}

proof fn lemma_line_end(t: Seq<char>, k: int)
    requires
        0 <= k < t.len(),
    ensures
        k < line_end_from(t, k) <= t.len(),
        forall|q: int| k <= q < line_end_from(t, k) - 1 ==> #[trigger] t[q] != '\n',
        t[line_end_from(t, k) - 1] == '\n' || line_end_from(t, k) == t.len(),
    decreases t.len() - k,
{
    if !(t[k] == '\n' || k == t.len() - 1) {
        lemma_line_end(t, k + 1);
    }
}

/// Within a line that ends at `e`, the rows from index `i` are the line's rows, then the
/// rows after it.
proof fn lemma_warp_line(t: Seq<char>, with: nat, i: int, s: int, e: int)
    requires
        0 <= s <= i < e <= t.len(),
        forall|q: int| i <= q < e - 1 ==> #[trigger] t[q] != '\n',
        t[e - 1] == '\n' || e == t.len(),
    ensures
        warp_from(t, with, i, s) == row_texts(t.subrange(s, e), wrap_rows(t.subrange(s, e), with)) + warp_from(t, with, e, e),
    decreases e - i,
{
    if i < e - 1 {
        assert(t[i] != '\n');
        lemma_warp_line(t, with, i + 1, s, e);
    }
}

/// The rows of a text from a line start `s`, past their first `r`, are the rows from where
/// the `r`-th of them starts, when every character fits in a row.
proof fn lemma_text_restart(t: Seq<char>, with: nat, s: int, r: int)
    requires
        fits(t, with),
        0 <= s <= t.len(),
        0 <= r <= warp_from(t, with, s, s).len(),
    ensures
        s + warp_from(t, with, s, s).take(r).flatten().len() <= t.len(),
        warp_from(t, with, s + warp_from(t, with, s, s).take(r).flatten().len(), s + warp_from(t, with, s, s).take(r).flatten().len())
            == warp_from(t, with, s, s).skip(r),
    decreases t.len() - s,
{
    let n = t.len() as int;
    let rs = warp_from(t, with, s, s);
    if s == n {
        assert(rs.take(r) =~= Seq::<Seq<char>>::empty());
        assert(rs.take(r).flatten() =~= Seq::<char>::empty());
        assert(rs.skip(r) =~= rs);
    } else {
        lemma_line_end(t, s);
        let e = line_end_from(t, s);
        let line = t.subrange(s, e);
        let w = wrap_rows(line, with);
        let rl = row_texts(line, w);
        let re = warp_from(t, with, e, e);
        lemma_warp_line(t, with, s, s, e);
        assert(rs == rl + re);
        lemma_rows_cover_line(line, with);
        if r >= rl.len() {
            let r2 = r - rl.len();
            assert(rs.take(r) =~= rl + re.take(r2));
            vstd::seq_lib::lemma_flatten_concat(rl, re.take(r2));
            assert(rs.skip(r) =~= re.skip(r2));
            lemma_text_restart(t, with, e, r2);
        } else {
            let j = r;
            assert forall|q: int| 0 <= q < line.len() implies char_cols(#[trigger] line[q]) <= with by {
                assert(line[q] == t[s + q]);
            }
            lemma_row_opens(line, with, j, 0);
            let k = first_with_rows(line, with, j, 0);
            let st = wrap_upto(line, with, k);
            let o = st.offset;
            lemma_wrap_shape(line, with, k);
            lemma_wrap_rows_prefix(line, with, k);
            lemma_wrap_cover(line, with, k);
            assert(w.take(j) =~= st.rows);
            assert(rl.take(j) =~= row_texts(line, st.rows));
            assert(rs.take(r) =~= rl.take(j));
            assert(rs.take(r).flatten().len() == o);
            lemma_line_restart(line, with, k);
            if k == line.len() {
                lemma_wrap_shape(line, with, line.len() as int);
                assert(w.len() > st.rows.len());
                assert(st.len > 0);
            }
            assert(o < line.len());
            let a = s + o;
            lemma_warp_line(t, with, a, a, e);
            assert(t.subrange(a, e) =~= line.subrange(o as int, line.len() as int));
            assert(rs.skip(r) =~= rl.skip(j) + re);
        }
    }
}

/// The rows of the text from where its `r`-th row starts are its rows from the `r`-th on,
/// when every character fits in a row.
pub proof fn lemma_rows_from_row_start(t: Seq<char>, with: nat, r: int)
    requires
        fits(t, with),
        0 <= r <= warp_from(t, with, 0, 0).len(),
    ensures
        warp_from(t, with, 0, 0).take(r).flatten().len() <= t.len(),
        warp_from(t.subrange(warp_from(t, with, 0, 0).take(r).flatten().len() as int, t.len() as int), with, 0, 0)
            == warp_from(t, with, 0, 0).skip(r),
{
    lemma_text_restart(t, with, 0, r);
    let a = warp_from(t, with, 0, 0).take(r).flatten().len() as int;
    lemma_warp_shift(t, with, a, a, a);
}

/// While wrapping a line whose characters all fit, an empty open row has no width and every
/// closed row holds a character.
proof fn lemma_wrap_rows_filled(line: Seq<char>, with: nat, k: int)
    requires
        fits(line, with),
        0 <= k <= line.len(),
    ensures
        wrap_upto(line, with, k).len == 0 ==> wrap_upto(line, with, k).width == 0,
        forall|j: int| 0 <= j < wrap_upto(line, with, k).rows.len() ==> (#[trigger] wrap_upto(line, with, k).rows[j]).1 >= 1,
    decreases k,
{
    if k > 0 {
        lemma_wrap_rows_filled(line, with, k - 1);
        let p = wrap_upto(line, with, k - 1);
        assert(wrap_upto(line, with, k) == wrap_step(p, line[k - 1], with));
    }
}

/// A text whose characters all fit wraps into no more rows than it has characters.
proof fn lemma_rows_at_most_chars(t: Seq<char>, with: nat, i: int, s: int)
    requires
        fits(t, with),
        0 <= s <= i <= t.len(),
    ensures
        warp_from(t, with, i, s).len() <= t.len() - s,
    decreases t.len() - i,
{
    let n = t.len() as int;
    if i < n {
        if t[i] == '\n' || i == n - 1 {
            lemma_rows_at_most_chars(t, with, i + 1, i + 1);
            let line = t.subrange(s, i + 1);
            assert forall|q: int| 0 <= q < line.len() implies char_cols(#[trigger] line[q]) <= with by {
                assert(line[q] == t[s + q]);
            }
            lemma_wrap_rows_filled(line, with, line.len() as int);
            lemma_rows_cover_line(line, with);
            let rt = row_texts(line, wrap_rows(line, with));
            lemma_wrap_shape(line, with, line.len() as int);
            assert forall|j: int| 0 <= j < rt.len() implies (#[trigger] rt[j]).len() >= 1 by {
                let w = wrap_rows(line, with);
                let e = wrap_upto(line, with, line.len() as int);
                if j < e.rows.len() {
                    assert(w[j] == e.rows[j]);
                }
            }
            lemma_flatten_at_least(rt);
        } else {
            lemma_rows_at_most_chars(t, with, i + 1, s);
        }
    }
}

/// Pieces that each hold something hold, flattened, at least one item per piece.
proof fn lemma_flatten_at_least(s: Seq<Seq<char>>)
    requires
        forall|j: int| 0 <= j < s.len() ==> (#[trigger] s[j]).len() >= 1,
    ensures
        s.flatten().len() >= s.len(),
    decreases s.len(),
{
    if s.len() > 0 {
        lemma_flatten_at_least(s.drop_first());
        assert(s.flatten() == s[0] + s.drop_first().flatten());
    }
}

/// Where row `r` of the text starts: after the characters of the rows before it (the
/// text's end from its last row on).
pub open spec fn row_start(t: Seq<char>, with: nat, r: int) -> int {
    let rows = warp_from(t, with, 0, 0);
    if r >= rows.len() {
        t.len() as int
    } else {
        rows.take(r).flatten().len() as int
    }
}

/// The recorded page-group starts agree with the text: group `k` starts where row
/// `k * PAGE_GROUP * height` of the text starts, a row the text has (the row after a final
/// newline counted).
pub open spec fn offsets_sound(t: Seq<char>, with: nat, height: nat, offsets: Seq<usize>) -> bool {
    forall|k: int| 0 <= k < offsets.len() ==> #[trigger] group_sound(t, with, height, offsets, k)
}

/// Page group `k` is recorded where row `k * PAGE_GROUP * height` of the text starts, a row
/// the text has.
pub open spec fn group_sound(t: Seq<char>, with: nat, height: nat, offsets: Seq<usize>, k: int) -> bool {
    k * PAGE_GROUP * height <= pager_row_count(t, with) && offsets[k] == row_start(t, with, k * PAGE_GROUP * height)
}

/// Counting rows on from a soundly recorded page group gives the text's row count, when
/// every character fits in a row, unless the text ends with a newline and the last recorded
/// group starts right after its last row of text (the count then misses the row after the
/// newline).
pub proof fn lemma_counted_rows_sound(t: Seq<char>, with: nat, height: nat, offsets: Seq<usize>)
    requires
        fits(t, with),
        height >= 1,
        offsets.len() >= 1,
        t.len() <= usize::MAX / 8,
        offsets_sound(t, with, height, offsets),
        !(t.len() > 0 && t.last() == '\n' && (offsets.len() - 1) * PAGE_GROUP * height == warp_from(t, with, 0, 0).len()),
    ensures
        counted_rows(t, with, height, offsets) == pager_row_count(t, with),
{
    let rows = warp_from(t, with, 0, 0);
    let k = offsets.len() - 1;
    let r = k * PAGE_GROUP * height;
    assert(offsets[k] == row_start(t, with, r) && r <= pager_row_count(t, with)) by {
        assert(group_sound(t, with, height, offsets, k));
    }
    lemma_rows_at_most_chars(t, with, 0, 0);
    lemma_warp_keeps_text(t, with);
    if r < rows.len() {
        lemma_rows_from_row_start(t, with, r);
        let a = rows.take(r).flatten().len() as int;
        let suffix = t.subrange(a, t.len() as int);
        assert(warp_from(suffix, with, 0, 0) == rows.skip(r));
        assert(suffix.len() > 0) by {
            if suffix.len() == 0 {
                assert(warp_from(suffix, with, 0, 0).len() == 0);
            }
        }
        assert(suffix.last() == t.last());
    } else {
        assert(t.subrange(t.len() as int, t.len() as int) =~= Seq::<char>::empty());
        assert(warp_from(Seq::<char>::empty(), with, 0, 0).len() == 0);
    }
}


/// No row before the first one a read keeps is picked.
proof fn lemma_picked_none_before(rows: Seq<Seq<char>>, skip: int, p: Seq<u8>, cs: bool, exact: bool, k: int)
    requires
        k < skip,
    ensures
        picked_rows(rows, skip, p, cs, exact, k) == Seq::<int>::empty(),
    decreases k,
{
    if k > 0 {
        lemma_picked_none_before(rows, skip, p, cs, exact, k - 1);
    }
}

/// Picking rows from row `base` on, numbered from there, picks the same rows as picking them
/// among all rows, numbered from the first, when the first row kept lies past `base`.
proof fn lemma_picked_shift(rows: Seq<Seq<char>>, base: int, skip: int, p: Seq<u8>, cs: bool, exact: bool, k: int)
    requires
        0 <= base,
        1 <= skip,
        0 <= k,
        base + k <= rows.len(),
    ensures
        picked_rows(rows, skip + base, p, cs, exact, k + base)
            == picked_rows(rows.skip(base), skip, p, cs, exact, k).map_values(|i: int| i + base),
    decreases k,
{
    if k == 0 {
        lemma_picked_none_before(rows, skip + base, p, cs, exact, base);
        assert(picked_rows(rows.skip(base), skip, p, cs, exact, 0).map_values(|i: int| i + base) =~= Seq::<int>::empty());
    } else {
        lemma_picked_shift(rows, base, skip, p, cs, exact, k - 1);
        assert(rows.skip(base)[k - 1] == rows[k - 1 + base]);
        let a = picked_rows(rows.skip(base), skip, p, cs, exact, k - 1);
        let b = picked_rows(rows.skip(base), skip, p, cs, exact, k);
        if k >= skip && row_kept(rows[k - 1 + base], p, cs, exact) {
            assert(b.map_values(|i: int| i + base) =~= a.map_values(|i: int| i + base).push(k - 1 + base));
        }
    }
}

/// Rows read from row `base` on, numbered from there, are the rows of the whole, numbered
/// from its first row.
proof fn lemma_matches_shift(lines: Seq<String>, metas: Seq<LineMeta>, rows: Seq<Seq<char>>, base: int, out0: Seq<int>, f: bool)
    requires
        0 <= base,
        base < rows.len() || out0.len() == 0,
        forall|a: int| 0 <= a < out0.len() ==> 0 <= #[trigger] out0[a] < rows.len() - base,
        read_matches(lines, metas, rows.skip(base), out0, base, f),
    ensures
        read_matches(lines, metas, rows, out0.map_values(|i: int| i + base), 0, f),
{
    let out = out0.map_values(|i: int| i + base);
    assert forall|a: int| 0 <= a < out.len() implies (#[trigger] lines[a])@ == rows[out[a]] by {
        assert(0 <= out0[a] < rows.len() - base);
        assert(rows.skip(base)[out0[a]] == rows[out0[a] + base]);
    }
    assert forall|a: int| 0 <= a < out.len() implies (#[trigger] metas[a]).line_num_view() == 0 + out[a] + 1
        && (metas[a].match_view() is Some <==> f) by {
        assert(metas[a].line_num_view() == base + out0[a] + 1);
    }
}

/// Where the recorded page-group starts are sound and the row's group is recorded, a read of
/// the pager from row `line_num` gives what reading the whole text from its first row gives:
/// the rows numbered from `line_num` on that the filter keeps, the first `line_count` of them,
/// with their numbers in the text, when every character fits in a row.
pub proof fn lemma_read_from_sound_offsets(
    r: (Option<Vec<String>>, Vec<LineMeta>),
    t: Seq<char>,
    with: nat,
    height: nat,
    offsets: Seq<usize>,
    line_num: int,
    line_count: nat,
    pat: Seq<u8>,
    exact: bool,
)
    requires
        fits(t, with),
        height >= 1,
        line_num >= 1,
        offsets_sound(t, with, height, offsets),
        read_group(height, line_num) < offsets.len(),
        reads_rows(r, t, with, height, offsets, line_num, line_count as int, pat, exact),
    ensures
        read_result(r, t, with, 0, 0, line_num, line_count as int, pat, exact),
{
    reveal(reads_rows);
    let rows = warp_from(t, with, 0, 0);
    let g = read_group(height, line_num);
    let base = g * PAGE_GROUP * height;
    let page = (line_num + height - 1) / (height as int) - 1;
    assert(0 <= g) by {
        assert((line_num + height - 1) / (height as int) >= 1) by (nonlinear_arith)
            requires line_num >= 1, height >= 1;
    }
    assert(base < line_num) by {
        assert(page * height < line_num) by (nonlinear_arith)
            requires page == (line_num + height - 1) / (height as int) - 1, height >= 1, line_num >= 1;
        assert(g * PAGE_GROUP <= page) by (nonlinear_arith)
            requires g == page / (PAGE_GROUP as int), page >= 0, PAGE_GROUP >= 1;
        assert(g * PAGE_GROUP * height <= page * height) by (nonlinear_arith)
            requires g * PAGE_GROUP <= page, height >= 1;
    }
    assert(0 <= base) by (nonlinear_arith)
        requires base == g * PAGE_GROUP * height, g >= 0, height >= 1;
    assert(offsets[g] == row_start(t, with, base) && base <= pager_row_count(t, with)) by {
        assert(group_sound(t, with, height, offsets, g));
    }
    let cp = compiled_bytes(pat);
    let cs = has_upper(pat);
    let rows0 = warp_from(t.subrange(offsets[g] as int, t.len() as int), with, 0, 0);
    let skip = line_num - base;
    let pk0 = picked_rows(rows0, skip, cp, cs, exact, rows0.len() as int);
    let pk = picked_rows(rows, line_num, cp, cs, exact, rows.len() as int);
    assert(t.subrange(0, t.len() as int) =~= t);
    lemma_warp_keeps_text(t, with);
    if base < rows.len() {
        lemma_rows_from_row_start(t, with, base);
        assert(rows0 == rows.skip(base));
        lemma_picked_shift(rows, base, skip, cp, cs, exact, rows.len() - base);
        assert(pk == pk0.map_values(|i: int| i + base));
    } else {
        assert(t.subrange(t.len() as int, t.len() as int) =~= Seq::<char>::empty());
        assert(rows0.len() == 0);
        lemma_picked_none_before(rows, line_num, cp, cs, exact, rows.len() as int);
        assert(pk0 =~= Seq::<int>::empty());
        assert(pk == pk0.map_values(|i: int| i + base));
    }
    let out0 = if pk0.len() > line_count { pk0.take(line_count as int) } else { pk0 };
    let out = if pk.len() > line_count { pk.take(line_count as int) } else { pk };
    if pk0.len() > line_count {
        assert(out =~= out0.map_values(|i: int| i + base));
    } else {
        assert(out == out0.map_values(|i: int| i + base));
    }
    lemma_picked_bounds(rows0, skip, cp, cs, exact, rows0.len() as int);
    assert forall|a: int| 0 <= a < out0.len() implies 0 <= #[trigger] out0[a] < rows0.len() by {
        assert(out0[a] == pk0[a]);
    }
    lemma_matches_shift(lines_of(r.0), r.1@, rows, base, out0, cp.len() > 0);
}

/// A pager that has recorded only the start of the text records it soundly.
pub proof fn lemma_fresh_offsets_sound(t: Seq<char>, with: nat, height: nat)
    ensures
        offsets_sound(t, with, height, seq![0usize]),
{
    let rows = warp_from(t, with, 0, 0);
    lemma_warp_keeps_text(t, with);
    assert(rows.take(0) =~= Seq::<Seq<char>>::empty());
    if rows.len() == 0 {
        assert(rows =~= Seq::<Seq<char>>::empty());
        assert(rows.flatten() =~= Seq::<char>::empty());
    }
    assert(seq![0usize][0] == row_start(t, with, 0 * PAGE_GROUP * height));
    assert(group_sound(t, with, height, seq![0usize], 0));
}

/// Counting rows through a line: where the rows of `s` past its first `ln0` are those of the
/// line `s[start..=i]` and on, and those first rows hold the characters before `start`, the
/// rows closed after `k` characters of the line start `start` plus the line's offset there
/// into the text, and the line's rows end just past it.
pub proof fn lemma_rows_through_line(s: Seq<char>, with: nat, ln0: int, start: int, i: int, k: int)
    requires
        0 <= start <= i < s.len(),
        s[i] == '\n' || i == s.len() - 1,
        0 <= ln0 <= warp_from(s, with, 0, 0).len(),
        warp_from(s, with, 0, 0).skip(ln0) == warp_from(s, with, i, start),
        warp_from(s, with, 0, 0).take(ln0).flatten().len() == start,
        0 <= k <= i + 1 - start,
    ensures
        ({
            let line = s.subrange(start, i + 1);
            let st = wrap_upto(line, with, k);
            let n = wrap_rows(line, with).len() as int;
            &&& ln0 + st.rows.len() <= warp_from(s, with, 0, 0).len()
            &&& row_start(s, with, ln0 + st.rows.len()) == start + st.offset
            &&& ln0 + n <= warp_from(s, with, 0, 0).len()
            &&& warp_from(s, with, 0, 0).skip(ln0 + n) == warp_from(s, with, i + 1, i + 1)
            &&& warp_from(s, with, 0, 0).take(ln0 + n).flatten().len() == i + 1
            &&& row_start(s, with, ln0 + n) == i + 1
        }),
{
    let rows = warp_from(s, with, 0, 0);
    let line = s.subrange(start, i + 1);
    let w = wrap_rows(line, with);
    let rt = row_texts(line, w);
    let rest = warp_from(s, with, i + 1, i + 1);
    let st = wrap_upto(line, with, k);
    let j = st.rows.len() as int;
    let n = w.len() as int;
    assert(warp_from(s, with, i, start) == rt + rest);
    assert(rows.skip(ln0) == rt + rest);
    assert(rows.len() == ln0 + rt.len() + rest.len());
    lemma_wrap_rows_prefix(line, with, k);
    lemma_wrap_cover(line, with, k);
    lemma_rows_cover_line(line, with);
    lemma_warp_keeps_text(s, with);
    assert(rt.take(j) =~= row_texts(line, st.rows));
    assert forall|q: int| 0 <= q < rt.len() + rest.len() implies #[trigger] rows[ln0 + q] == (rt + rest)[q] by {
        assert(rows.skip(ln0)[q] == rows[ln0 + q]);
    }
    assert forall|q: int| 0 <= q < rt.len() implies rows[ln0 + q] == #[trigger] rt[q] by {
        assert(rows[ln0 + q] == (rt + rest)[q]);
    }
    assert forall|q: int| 0 <= q < rest.len() implies rows[ln0 + n + q] == #[trigger] rest[q] by {
        assert(rows[ln0 + (n + q)] == (rt + rest)[n + q]);
    }
    assert(rows.take(ln0 + j) =~= rows.take(ln0) + rt.take(j));
    vstd::seq_lib::lemma_flatten_concat(rows.take(ln0), rt.take(j));
    assert(rows.take(ln0 + n) =~= rows.take(ln0) + rt);
    vstd::seq_lib::lemma_flatten_concat(rows.take(ln0), rt);
    assert(rows.skip(ln0 + n) =~= rest);
    assert(rows.take(rows.len() as int) =~= rows);
}

/// Rows counted on from a soundly recorded page group `g`: the text offset of row `l` of the
/// rest of the text, past the group's start, is that of row `R + l` of the whole text, `R`
/// being the group's first row, when every character fits in a row.
pub proof fn lemma_rows_past_group(t: Seq<char>, with: nat, height: nat, offsets: Seq<usize>, g: int, l: int)
    requires
        fits(t, with),
        height >= 1,
        0 <= g < offsets.len(),
        offsets_sound(t, with, height, offsets),
        0 <= l <= pager_row_count(t.subrange(offsets[g] as int, t.len() as int), with),
    ensures
        offsets[g] + row_start(t.subrange(offsets[g] as int, t.len() as int), with, l)
            == row_start(t, with, g * PAGE_GROUP * height + l),
        g * PAGE_GROUP * height + l <= pager_row_count(t, with),
{
    let rows = warp_from(t, with, 0, 0);
    let r = g * PAGE_GROUP * height;
    assert(group_sound(t, with, height, offsets, g));
    assert(0 <= r) by (nonlinear_arith)
        requires r == g * PAGE_GROUP * height, g >= 0, height >= 1;
    let a = offsets[g] as int;
    let u = t.subrange(a, t.len() as int);
    lemma_warp_keeps_text(t, with);
    if r < rows.len() {
        lemma_rows_from_row_start(t, with, r);
        let ru = warp_from(u, with, 0, 0);
        assert(ru == rows.skip(r));
        lemma_warp_keeps_text(u, with);
        if r + l < rows.len() {
            assert(rows.take(r + l) =~= rows.take(r) + ru.take(l));
            vstd::seq_lib::lemma_flatten_concat(rows.take(r), ru.take(l));
        }
        assert(u.len() > 0) by {
            if u.len() == 0 {
                assert(warp_from(u, with, 0, 0).len() == 0);
            }
        }
        assert(u.last() == t.last());
    } else {
        assert(u =~= Seq::<char>::empty());
        assert(warp_from(u, with, 0, 0).len() == 0);
    }
}

} // verus!
