use vstd::prelude::*;
use crate::fuzzy::{byte_at, parts_len, range_seq, range_vec, Match};
use crate::searcher::memmem::{joined, lemma_joined_part, lemma_joined_take_all, lemma_joined_take_step};

verus! {

/// Score of aligning two equal bytes.
pub const MATCH: i16 = 3;

/// Score of aligning two different bytes.
pub const MISMATCH: i16 = -1;

/// Score of a gap in either sequence.
pub const GAP: i16 = -1;

/// Share of the best possible score (in percent) that a prefiltered search requires.
pub const MIN_SCORE_PERCENT: i16 = 55;

/// Cells in the score matrix that a searcher keeps.
pub const MAXDIMS: usize = 9182;

pub open spec fn substitution(a: u8, b: u8) -> int {
    if a == b {
        MATCH as int
    } else {
        MISMATCH as int
    }
}

pub open spec fn max2(a: int, b: int) -> int {
    if a >= b {
        a
    } else {
        b
    }
}

/// The Smith-Waterman local alignment score of the prefixes `p[..i]` and `t[..j]` that end
/// together: zero on the borders, else the best of restarting at zero, extending the
/// diagonal by a match or mismatch, or a gap from above or from the left.
pub open spec fn cell(p: Seq<u8>, t: Seq<u8>, i: nat, j: nat) -> int
    decreases i, j,
{
    if i == 0 || j == 0 {
        0
    } else {
        max2(
            0,
            max2(
                cell(p, t, (i - 1) as nat, (j - 1) as nat) + substitution(p[i - 1], t[j - 1]),
                max2(
                    cell(p, t, (i - 1) as nat, j) + GAP as int,
                    cell(p, t, i, (j - 1) as nat) + GAP as int,
                ),
            ),
        )
    }
}

pub proof fn lemma_cell_bounds(p: Seq<u8>, t: Seq<u8>, i: nat, j: nat)
    ensures
        0 <= cell(p, t, i, j) <= 3 * i,
    decreases i, j,
{
    if i > 0 && j > 0 {
        lemma_cell_bounds(p, t, (i - 1) as nat, (j - 1) as nat);
        lemma_cell_bounds(p, t, (i - 1) as nat, j);
        lemma_cell_bounds(p, t, i, (j - 1) as nat);
    }
}

/// The best cell score over the rows before `i` and the first `j` cells of row `i`, rows
/// and columns counted from 1 (and zero before any cell).
pub open spec fn best_upto(p: Seq<u8>, t: Seq<u8>, i: nat, j: nat) -> int
    decreases i, j,
{
    if i <= 1 && j == 0 {
        0
    } else if j == 0 {
        best_upto(p, t, (i - 1) as nat, t.len())
    } else {
        max2(best_upto(p, t, i, (j - 1) as nat), cell(p, t, i, j))
    }
}

/// The cells, in row-major order and up to the same point as `best_upto`, whose score is
/// `v`.
pub open spec fn cells_with(p: Seq<u8>, t: Seq<u8>, v: int, i: nat, j: nat) -> Seq<(usize, usize)>
    decreases i, j,
{
    if i <= 1 && j == 0 {
        Seq::empty()
    } else if j == 0 {
        cells_with(p, t, v, (i - 1) as nat, t.len())
    } else {
        cells_with(p, t, v, i, (j - 1) as nat) + (if cell(p, t, i, j) == v {
            seq![(i as usize, j as usize)]
        } else {
            Seq::empty()
        })
    }
}

/// No cell up to a point scores more than the best up to that point, so a higher value
/// marks no cell there.
proof fn lemma_none_above_best(p: Seq<u8>, t: Seq<u8>, v: int, i: nat, j: nat)
    requires
        v > best_upto(p, t, i, j),
        j <= t.len(),
    ensures
        cells_with(p, t, v, i, j) == Seq::<(usize, usize)>::empty(),
    decreases i, j,
{
    if i <= 1 && j == 0 {
    } else if j == 0 {
        lemma_none_above_best(p, t, v, (i - 1) as nat, t.len());
    } else {
        lemma_none_above_best(p, t, v, i, (j - 1) as nat);
    }
}

proof fn lemma_best_nonneg(p: Seq<u8>, t: Seq<u8>, i: nat, j: nat)
    ensures
        0 <= best_upto(p, t, i, j),
    decreases i, j,
{
    if i <= 1 && j == 0 {
    } else if j == 0 {
        lemma_best_nonneg(p, t, (i - 1) as nat, t.len());
    } else {
        lemma_best_nonneg(p, t, i, (j - 1) as nat);
    }
}

/// Where the alignment that ends at cell `(i, j)` starts in `t`: follow the diagonal while
/// it explains the score, else the gap from above, else the gap from the left, until a
/// border or a zero cell.
pub open spec fn trace_start(p: Seq<u8>, t: Seq<u8>, i: nat, j: nat) -> nat
    decreases i, j,
{
    if i == 0 || j == 0 || cell(p, t, i, j) == 0 {
        j
    } else if cell(p, t, i, j) == cell(p, t, (i - 1) as nat, (j - 1) as nat) + substitution(
        p[i - 1],
        t[j - 1],
    ) {
        trace_start(p, t, (i - 1) as nat, (j - 1) as nat)
    } else if cell(p, t, i, j) == cell(p, t, (i - 1) as nat, j) + GAP as int {
        trace_start(p, t, (i - 1) as nat, j)
    } else {
        trace_start(p, t, i, (j - 1) as nat)
    }
}

pub proof fn lemma_trace_start_bound(p: Seq<u8>, t: Seq<u8>, i: nat, j: nat)
    ensures
        trace_start(p, t, i, j) <= j,
    decreases i, j,
{
    if i == 0 || j == 0 || cell(p, t, i, j) == 0 {
    } else if cell(p, t, i, j) == cell(p, t, (i - 1) as nat, (j - 1) as nat) + substitution(
        p[i - 1],
        t[j - 1],
    ) {
        lemma_trace_start_bound(p, t, (i - 1) as nat, (j - 1) as nat);
    } else if cell(p, t, i, j) == cell(p, t, (i - 1) as nat, j) + GAP as int {
        lemma_trace_start_bound(p, t, (i - 1) as nat, j);
    } else {
        lemma_trace_start_bound(p, t, i, (j - 1) as nat);
    }
}

/// The match that the alignment ending at cell `c` gives, shifted by `offset`: its score,
/// start and end.
pub open spec fn cell_match(p: Seq<u8>, t: Seq<u8>, score: int, offset: int, c: (usize, usize)) -> (int, int, int) {
    (score, offset + trace_start(p, t, c.0 as nat, c.1 as nat), offset + c.1)
}

/// Index of the first entry of `s` that starts after `start`.
pub open spec fn first_after(s: Seq<(int, int, int)>, start: int) -> int
    decreases s.len(),
{
    if s.len() == 0 {
        0
    } else if s[0].1 > start {
        0
    } else {
        1 + first_after(s.drop_first(), start)
    }
}

/// `s` sorted by start, entries with equal starts kept in their order (a stable sort).
pub open spec fn sorted_by_start(s: Seq<(int, int, int)>) -> Seq<(int, int, int)>
    decreases s.len(),
{
    if s.len() == 0 {
        s
    } else {
        let rest = sorted_by_start(s.drop_last());
        rest.insert(first_after(rest, s.last().1), s.last())
    }
}

/// The local alignments of `p` in `t` that reach the best score, as `(score, start, end)`
/// shifted by `offset`: one per best-scoring cell, sorted by start; none unless the best
/// score is at least twice the pattern length.
pub open spec fn alignments(p: Seq<u8>, t: Seq<u8>, offset: int) -> Seq<(int, int, int)> {
    let best = best_upto(p, t, p.len(), t.len());
    if p.len() == 0 || t.len() == 0 || best < 2 * p.len() {
        Seq::empty()
    } else {
        sorted_by_start(
            cells_with(p, t, best, p.len(), t.len()).map_values(
                |c: (usize, usize)| cell_match(p, t, best, offset, c),
            ),
        )
    }
}

/// `(score, start, end)` of a match.
pub open spec fn triple(m: Match) -> (int, int, int) {
    (m.score as int, m.start as int, m.end as int)
}

pub open spec fn triples(r: Seq<Match>) -> Seq<(int, int, int)> {
    r.map_values(|m: Match| triple(m))
}

/// Every match lists all the positions of its range.
pub open spec fn full_ranges(r: Seq<Match>) -> bool {
    forall|k: int| 0 <= k < r.len() ==> (#[trigger] r[k]).positions@ == range_seq(
        r[k].start as int,
        r[k].end as int,
    )
}

/// `r` are the matches that the `(score, start, end)` entries of `s` describe, in order,
/// each with the whole of its range as positions.
pub open spec fn matches_are(r: Seq<Match>, s: Seq<(int, int, int)>) -> bool {
    triples(r) == s && full_ranges(r)
}

/// The bytes of the window `[start, end)` of the parts laid end to end (the end clamped to
/// their length; empty when the window is).
pub open spec fn window(parts: Seq<&[u8]>, start: int, end: int) -> Seq<u8> {
    let total = joined(parts).len() as int;
    let e = if end < total { end } else { total };
    if start >= e {
        Seq::empty()
    } else {
        joined(parts).subrange(start, e)
    }
}

proof fn lemma_triples_insert(r: Seq<Match>, i: int, m: Match)
    requires
        0 <= i <= r.len(),
    ensures
        triples(r.insert(i, m)) == triples(r).insert(i, triple(m)),
{
    assert(triples(r.insert(i, m)) =~= triples(r).insert(i, triple(m)));
}

/// Sorts matches by start, keeping the order of equal starts.
fn sort_by_start(v: Vec<Match>) -> (r: Vec<Match>)
    requires
        full_ranges(v@),
    ensures
        triples(r@) == sorted_by_start(triples(v@)),
        full_ranges(r@),
{
    let ghost orig = v@;
    let mut v = v;
    let mut out: Vec<Match> = Vec::new();
    let n = v.len();
    let mut k: usize = 0;
    proof {
        assert(triples(orig.take(0)) =~= Seq::<(int, int, int)>::empty());
        assert(v@ =~= orig.skip(0));
    }
    while k < n
        invariant
            n == orig.len(),
            k <= n,
            v@ == orig.skip(k as int),
            full_ranges(orig),
            full_ranges(out@),
            triples(out@) == sorted_by_start(triples(orig.take(k as int))),
        decreases n - k,
    {
        let m = v.remove(0);
        proof {
            assert(m == orig[k as int]);
            assert(v@ =~= orig.skip(k + 1));
        }
        let ghost ts = triples(out@);
        let mut pos: usize = 0;
        proof {
            assert(ts.skip(0) =~= ts);
        }
        while pos < out.len() && out[pos].start <= m.start
            invariant
                pos <= out@.len(),
                ts == triples(out@),
                first_after(ts, m.start as int) == pos + first_after(ts.skip(pos as int), m.start as int),
            decreases out@.len() - pos,
        {
            proof {
                let rest = ts.skip(pos as int);
                assert(rest[0] == triple(out@[pos as int]));
                assert(rest.drop_first() =~= ts.skip(pos + 1));
            }
            pos = pos + 1;
        }
        proof {
            let rest = ts.skip(pos as int);
            if pos < out@.len() {
                assert(rest[0] == triple(out@[pos as int]));
            } else {
                assert(rest.len() == 0);
            }
            assert(first_after(ts, m.start as int) == pos);
            lemma_triples_insert(out@, pos as int, m);
            let tk = triples(orig.take(k + 1));
            assert(tk.drop_last() =~= triples(orig.take(k as int)));
            assert(tk.last() == triple(m));
        }
        out.insert(pos, m);
        k = k + 1;
        proof {
            assert forall|q: int| 0 <= q < out@.len() implies (#[trigger] out@[q]).positions@
                == range_seq(out@[q].start as int, out@[q].end as int) by {
                if q < pos {
                } else if q == pos {
                    assert(m == orig[k - 1]);
                } else {
                }
            }
        }
    }
    proof {
        assert(orig.take(n as int) =~= orig);
    }
    out
}

pub open spec fn idx(r: int, c: int, col: int) -> int {
    r * col + c
}

proof fn lemma_idx(r: int, c: int, col: int, rows: int)
    requires
        0 <= r < rows,
        0 <= c < col,
    ensures
        0 <= idx(r, c, col as int) < rows * col,
        idx(r, c, col as int) + 1 == idx(r, c + 1, col as int),
        idx(r + 1, c, col as int) == idx(r, c, col as int) + col,
{
    assert(0 <= r * col + c < rows * col) by (nonlinear_arith)
        requires
            0 <= r < rows,
            0 <= c < col,
    ;
    assert((r + 1) * col + c == r * col + c + col) by (nonlinear_arith);
}

proof fn lemma_idx_distinct(r1: int, c1: int, r2: int, c2: int, col: int)
    requires
        0 <= r1,
        0 <= r2,
        0 <= c1 < col,
        0 <= c2 < col,
        r1 != r2 || c1 != c2,
    ensures
        idx(r1, c1, col as int) != idx(r2, c2, col as int),
{
    if r1 == r2 {
    } else if r1 < r2 {
        assert(r1 * col + c1 < r2 * col + c2) by (nonlinear_arith)
            requires
                r1 < r2,
                0 <= c1 < col,
                0 <= c2,
        ;
    } else {
        assert(r2 * col + c2 < r1 * col + c1) by (nonlinear_arith)
            requires
                r2 < r1,
                0 <= c2 < col,
                0 <= c1,
        ;
    }
}

/// A Smith-Waterman searcher with its score matrix and best-cell list kept between calls.
pub struct SmithWaterman {
    cache: Vec<i16>,
    pos: Vec<(usize, usize)>,
}

impl SmithWaterman {
    pub closed spec fn wf(&self) -> bool {
        self.cache@.len() == MAXDIMS
    }

    pub fn new() -> (r: SmithWaterman)
        ensures
            r.wf(),
    {
        SmithWaterman { cache: crate::util::filled_vec(0i16, MAXDIMS), pos: Vec::new() }
    }
}


/// The number of score-matrix cells a search of `p_len` pattern bytes over a window of
/// `w_len` bytes uses.
pub open spec fn cells_needed(p_len: int, w_len: int) -> int {
    (p_len + 1) * (w_len + 1)
}

/// The cells listed lie in the matrix body.
proof fn lemma_cells_with_range(p: Seq<u8>, t: Seq<u8>, v: int, i: nat, j: nat)
    requires
        1 <= i,
        j <= t.len(),
        i <= usize::MAX,
        t.len() <= usize::MAX,
    ensures
        forall|k: int|
            0 <= k < cells_with(p, t, v, i, j).len() ==> 1 <= (#[trigger] cells_with(p, t, v, i, j)[k]).0
                <= i && 1 <= cells_with(p, t, v, i, j)[k].1 <= t.len(),
    decreases i, j,
{
    if i <= 1 && j == 0 {
    } else if j == 0 {
        lemma_cells_with_range(p, t, v, (i - 1) as nat, t.len());
        assert(cells_with(p, t, v, i, j) == cells_with(p, t, v, (i - 1) as nat, t.len()));
    } else {
        lemma_cells_with_range(p, t, v, i, (j - 1) as nat);
        let prev = cells_with(p, t, v, i, (j - 1) as nat);
        let all = cells_with(p, t, v, i, j);
        assert(all == prev + (if cell(p, t, i, j) == v {
            seq![(i as usize, j as usize)]
        } else {
            Seq::<(usize, usize)>::empty()
        }));
        assert forall|k: int| 0 <= k < all.len() implies 1 <= (#[trigger] all[k]).0 <= i && 1
            <= all[k].1 <= t.len() by {
            if k < prev.len() {
                assert(all[k] == prev[k]);
            } else {
                assert(all[k] == (i as usize, j as usize));
            }
        }
    }
}

impl SmithWaterman {
    /// Best-scoring local alignments of `pattern` within the window `[range_start,
    /// range_end)` of the parts laid end to end, with start and end counted in the whole
    /// text.
    fn find_parts_in_range(
        &mut self,
        pattern: &[u8],
        parts: &[&[u8]],
        range_start: usize,
        range_end: usize,
    ) -> (r: Vec<Match>)
        requires
            old(self).wf(),
            joined(parts@).len() <= usize::MAX,
            window(parts@, range_start as int, range_end as int).len() > 0 && pattern@.len() > 0
                ==> cells_needed(
                pattern@.len() as int,
                window(parts@, range_start as int, range_end as int).len() as int,
            ) <= MAXDIMS,
        ensures
            final(self).wf(),
            matches_are(
                r@,
                alignments(
                    pattern@,
                    window(parts@, range_start as int, range_end as int),
                    range_start as int,
                ),
            ),
    {
        let ghost p = pattern@;
        let ghost all = joined(parts@);
        let text_len = parts_len(parts);
        let len1 = pattern.len();
        let range_end = if range_end < text_len { range_end } else { text_len };
        if range_start >= range_end {
            proof {
                assert(triples(Seq::<Match>::empty()) =~= Seq::<(int, int, int)>::empty());
            }
            return Vec::new();
        }
        let len2 = range_end - range_start;
        let ghost t = all.subrange(range_start as int, range_end as int);
        proof {
            assert(window(parts@, range_start as int, range_end as int) == t);
        }
        if len1 == 0 || len2 == 0 {
            proof {
                assert(triples(Seq::<Match>::empty()) =~= Seq::<(int, int, int)>::empty());
            }
            return Vec::new();
        }
        proof {
            assert((len1 + 1) * (len2 + 1) <= MAXDIMS);
            assert(len1 + 1 <= MAXDIMS) by (nonlinear_arith)
                requires
                    (len1 + 1) * (len2 + 1) <= MAXDIMS,
                    len2 >= 1,
            ;
            assert(len2 + 1 <= MAXDIMS) by (nonlinear_arith)
                requires
                    (len1 + 1) * (len2 + 1) <= MAXDIMS,
                    len1 >= 1,
            ;
        }
        let col = len2 + 1;
        let m = (len1 + 1) * col;
        let mut z: usize = 0;
        while z < m
            invariant
                self.wf(),
                m <= MAXDIMS,
                z <= m,
                forall|k: int| 0 <= k < z ==> self.cache@[k] == 0,
            decreases m - z,
        {
            self.cache.set(z, 0);
            z = z + 1;
        }
        let mut max_score: i16 = 0;
        self.pos.clear();
        let mut i: usize = 0;
        proof {
            assert forall|r: int, c: int| 0 <= r <= 0 && 0 <= c < col implies #[trigger] self.cache@[idx(
                r,
                c,
                col as int,
            )] == cell(p, t, r as nat, c as nat) by {
                lemma_idx(r, c, col as int, (len1 + 1) as int);
            }
            lemma_idx(1, 0, col as int, (len1 + 1) as int);
            assert(self.pos@ =~= Seq::<(usize, usize)>::empty());
        }
        while i < len1
            invariant
                self.wf(),
                p == pattern@,
                len1 == p.len(),
                t.len() == len2,
                t == all.subrange(range_start as int, range_end as int),
                all == joined(parts@),
                all.len() <= usize::MAX,
                range_start < range_end <= all.len(),
                len2 == range_end - range_start,
                col == len2 + 1,
                m == (len1 + 1) * col,
                m <= MAXDIMS,
                i <= len1,
                forall|r: int, c: int|
                    0 <= r <= i && 0 <= c < col ==> #[trigger] self.cache@[idx(r, c, col as int)] == cell(
                        p,
                        t,
                        r as nat,
                        c as nat,
                    ),
                forall|k: int| idx(i + 1, 0, col as int) <= k < m ==> #[trigger] self.cache@[k] == 0,
                max_score == best_upto(p, t, (i + 1) as nat, 0),
                0 <= max_score,
                self.pos@ == (if max_score > 0 {
                    cells_with(p, t, max_score as int, (i + 1) as nat, 0)
                } else {
                    Seq::empty()
                }),
            decreases len1 - i,
        {
            let b1 = pattern[i];
            proof {
                lemma_idx(i as int, 0, col as int, (len1 + 1) as int);
                lemma_idx((i + 1) as int, 0, col as int, (len1 + 1) as int);
            }
            let row_i = i * col;
            let row_i1 = row_i + col;
            let mut j: usize = 0;
            let mut base: usize = 0;
            let mut pi: usize = 0;
            while pi < parts.len() && base < range_end
                invariant
                    self.wf(),
                    p == pattern@,
                    len1 == p.len(),
                    i < len1,
                    b1 == p[i as int],
                    t.len() == len2,
                    t == all.subrange(range_start as int, range_end as int),
                    all == joined(parts@),
                    all.len() <= usize::MAX,
                    range_start < range_end <= all.len(),
                    len2 == range_end - range_start,
                    col == len2 + 1,
                    m == (len1 + 1) * col,
                    m <= MAXDIMS,
                    row_i == idx(i as int, 0, col as int),
                    row_i1 == idx(i + 1, 0, col as int),
                    pi <= parts@.len(),
                    base == joined(parts@.take(pi as int)).len(),
                    j == (if base < range_start {
                        0
                    } else if base < range_end {
                        base - range_start
                    } else {
                        len2 as int
                    }),
                    j <= len2,
                    forall|r: int, c: int|
                        0 <= r <= i && 0 <= c < col ==> #[trigger] self.cache@[idx(r, c, col as int)]
                            == cell(p, t, r as nat, c as nat),
                    forall|c: int|
                        0 <= c <= j ==> #[trigger] self.cache@[idx(i + 1, c, col as int)] == cell(
                            p,
                            t,
                            (i + 1) as nat,
                            c as nat,
                        ),
                    forall|k: int| idx(i + 1, j + 1, col as int) <= k < m ==> #[trigger] self.cache@[k]
                        == 0,
                    max_score == best_upto(p, t, (i + 1) as nat, j as nat),
                    0 <= max_score,
                    self.pos@ == (if max_score > 0 {
                        cells_with(p, t, max_score as int, (i + 1) as nat, j as nat)
                    } else {
                        Seq::empty()
                    }),
                decreases parts@.len() - pi,
            {
                let part = parts[pi];
                proof {
                    lemma_joined_part(parts@, pi as int);
                    lemma_joined_take_step(parts@, pi as int);
                }
                let part_start = base;
                let part_end = base + part.len();
                base = part_end;
                if part_end > range_start {
                    let local_start = if range_start > part_start {
                        range_start - part_start
                    } else {
                        0
                    };
                    let local_end = if range_end - part_start < part.len() {
                        range_end - part_start
                    } else {
                        part.len()
                    };
                    let mut x = local_start;
                    while x < local_end
                        invariant
                            self.wf(),
                            p == pattern@,
                            len1 == p.len(),
                            i < len1,
                            b1 == p[i as int],
                            t.len() == len2,
                            t == all.subrange(range_start as int, range_end as int),
                            all == joined(parts@),
                            range_start < range_end <= all.len(),
                            len2 == range_end - range_start,
                            col == len2 + 1,
                            m == (len1 + 1) * col,
                            m <= MAXDIMS,
                            row_i == idx(i as int, 0, col as int),
                            row_i1 == idx(i + 1, 0, col as int),
                            part_start < range_end,
                            part_start + part@.len() == part_end,
                            part@ == all.subrange(part_start as int, part_end as int),
                            part_end <= all.len(),
                            all.len() <= usize::MAX,
                            local_start <= x <= local_end <= part@.len(),
                            part_start + local_start >= range_start,
                            part_start + local_end <= range_end,
                            j == part_start + x - range_start,
                            forall|r: int, c: int|
                                0 <= r <= i && 0 <= c < col ==> #[trigger] self.cache@[idx(
                                    r,
                                    c,
                                    col as int,
                                )] == cell(p, t, r as nat, c as nat),
                            forall|c: int|
                                0 <= c <= j ==> #[trigger] self.cache@[idx(i + 1, c, col as int)] == cell(
                                    p,
                                    t,
                                    (i + 1) as nat,
                                    c as nat,
                                ),
                            forall|k: int| idx(i + 1, j + 1, col as int) <= k < m ==> #[trigger] self.cache@[k]
                                == 0,
                            max_score == best_upto(p, t, (i + 1) as nat, j as nat),
                            0 <= max_score,
                    0 <= max_score,
                            self.pos@ == (if max_score > 0 {
                                cells_with(p, t, max_score as int, (i + 1) as nat, j as nat)
                            } else {
                                Seq::empty()
                            }),
                        decreases local_end - x,
                    {
                        let b2 = part[x];
                        proof {
                            assert(b2 == part@[x as int]);
                            assert(part@[x as int] == all.subrange(part_start as int, part_end as int)[x as int]);
                            assert(all.subrange(part_start as int, part_end as int)[x as int] == all[part_start + x]);
                            assert(b2 == all[part_start + x]);
                            lemma_idx(i + 1, j + 1, col as int, (len1 + 1) as int);
                            assert(t[j as int] == all[range_start + j]);
                            lemma_idx(i as int, j as int, col as int, (len1 + 1) as int);
                            lemma_idx(i + 1, j as int, col as int, (len1 + 1) as int);
                            lemma_cell_bounds(p, t, i as nat, j as nat);
                            lemma_cell_bounds(p, t, i as nat, (j + 1) as nat);
                            lemma_cell_bounds(p, t, (i + 1) as nat, j as nat);
                            lemma_cell_bounds(p, t, (i + 1) as nat, (j + 1) as nat);
                            assert(3 * len1 < 32000) by (nonlinear_arith)
                                requires
                                    (len1 + 1) * col <= MAXDIMS,
                                    col >= 2,
                            ;
                        }
                        let score: i16 = if b1 == b2 {
                            MATCH
                        } else {
                            MISMATCH
                        };
                        let a = self.cache[row_i + j];
                        let b = self.cache[row_i + j + 1];
                        let c = self.cache[row_i1 + j];
                        let d1 = a + score;
                        let d2 = b + GAP;
                        let d3 = c + GAP;
                        let inner = if d2 >= d3 {
                            d2
                        } else {
                            d3
                        };
                        let mid = if d1 >= inner {
                            d1
                        } else {
                            inner
                        };
                        let cur = if 0 >= mid {
                            0
                        } else {
                            mid
                        };
                        let ghost old_cache = self.cache@;
                        self.cache.set(row_i1 + j + 1, cur);
                        proof {
                            assert(cur == cell(p, t, (i + 1) as nat, (j + 1) as nat));
                            assert forall|r: int, c2: int|
                                0 <= r <= i && 0 <= c2 < col implies #[trigger] self.cache@[idx(
                                    r,
                                    c2,
                                    col as int,
                                )] == cell(p, t, r as nat, c2 as nat) by {
                                lemma_idx_distinct(r, c2, i + 1, j + 1, col as int);
                                lemma_idx(r, c2, col as int, (len1 + 1) as int);
                            }
                            assert forall|c2: int| 0 <= c2 <= j + 1 implies #[trigger] self.cache@[idx(
                                i + 1,
                                c2,
                                col as int,
                            )] == cell(p, t, (i + 1) as nat, c2 as nat) by {
                                if c2 <= j {
                                    lemma_idx_distinct(i + 1, c2, i + 1, j + 1, col as int);
                                    lemma_idx(i + 1, c2, col as int, (len1 + 1) as int);
                                }
                            }
                        }
                        if cur > max_score {
                            proof {
                                lemma_none_above_best(p, t, cur as int, (i + 1) as nat, j as nat);
                            }
                            max_score = cur;
                            self.pos.clear();
                            self.pos.push(((i + 1), (j + 1)));
                            proof {
                                assert(self.pos@ =~= cells_with(
                                    p,
                                    t,
                                    max_score as int,
                                    (i + 1) as nat,
                                    (j + 1) as nat,
                                ));
                            }
                        } else if cur == max_score && max_score > 0 {
                            self.pos.push(((i + 1), (j + 1)));
                            proof {
                                assert(self.pos@ =~= cells_with(
                                    p,
                                    t,
                                    max_score as int,
                                    (i + 1) as nat,
                                    (j + 1) as nat,
                                ));
                            }
                        } else {
                            proof {
                                if max_score > 0 {
                                    assert(self.pos@ =~= cells_with(
                                        p,
                                        t,
                                        max_score as int,
                                        (i + 1) as nat,
                                        (j + 1) as nat,
                                    ));
                                }
                            }
                        }
                        j = j + 1;
                        x = x + 1;
                        proof {
                            if max_score > 0 {
                                assert(self.pos@ == cells_with(p, t, max_score as int, (i + 1) as nat, j as nat));
                            } else {
                                assert(self.pos@ == Seq::<(usize, usize)>::empty());
                            }
                        }
                    }
                }
                pi = pi + 1;
            }
            proof {
                if base < range_end {
                    lemma_joined_take_all(parts@);
                    assert(pi == parts@.len());
                }
                assert(j == len2);
                assert(best_upto(p, t, (i + 2) as nat, 0) == best_upto(p, t, (i + 1) as nat, len2 as nat));
                assert(cells_with(p, t, max_score as int, (i + 2) as nat, 0) == cells_with(
                    p,
                    t,
                    max_score as int,
                    (i + 1) as nat,
                    len2 as nat,
                ));
                lemma_idx(i + 1, len2 as int, col as int, (len1 + 1) as int);
                assert forall|k: int| idx(i + 2, 0, col as int) <= k < m implies #[trigger] self.cache@[k]
                    == 0 by {
                }
            }
            i = i + 1;
        }
        let ghost best = best_upto(p, t, len1 as nat, len2 as nat);
        let ghost cells = cells_with(p, t, max_score as int, len1 as nat, len2 as nat);
        let ghost unsorted = cells.map_values(
            |c: (usize, usize)| cell_match(p, t, best, range_start as int, c),
        );
        proof {
            assert(best_upto(p, t, (len1 + 1) as nat, 0) == best);
            lemma_best_nonneg(p, t, len1 as nat, len2 as nat);
            lemma_cells_with_range(p, t, max_score as int, len1 as nat, len2 as nat);
        }
        let mut matchs: Vec<Match> = Vec::new();
        proof {
            assert(triples(matchs@) =~= unsorted.take(0));
        }
        if max_score >= (2 * len1) as i16 {
            let mut q: usize = 0;
            while q < self.pos.len()
                invariant
                    self.wf(),
                    p == pattern@,
                    len1 == p.len(),
                    t.len() == len2,
                    col == len2 + 1,
                    m == (len1 + 1) * col,
                    m <= MAXDIMS,
                    t == all.subrange(range_start as int, range_end as int),
                    all == joined(parts@),
                    range_start < range_end <= all.len(),
                    len2 == range_end - range_start,
                    max_score == best,
                    max_score > 0,
                    self.pos@ == cells,
                    unsorted == cells.map_values(
                        |c: (usize, usize)| cell_match(p, t, best, range_start as int, c),
                    ),
                    forall|k: int|
                        0 <= k < cells.len() ==> 1 <= (#[trigger] cells[k]).0 <= len1 && 1
                            <= cells[k].1 <= len2,
                    forall|r: int, c: int|
                        0 <= r <= len1 && 0 <= c < col ==> #[trigger] self.cache@[idx(r, c, col as int)]
                            == cell(p, t, r as nat, c as nat),
                    q <= self.pos@.len(),
                    triples(matchs@) == unsorted.take(q as int),
                    full_ranges(matchs@),
                decreases self.pos@.len() - q,
            {
                let (max_i, max_j) = self.pos[q];
                proof {
                    assert(cells[q as int] == (max_i, max_j));
                }
                let mut ii = max_i;
                let mut jj = max_j;
                proof {
                    lemma_idx(ii as int, jj as int, col as int, (len1 + 1) as int);
                }
                while ii > 0 && jj > 0 && self.cache[ii * col + jj] != 0
                    invariant
                        self.wf(),
                        p == pattern@,
                        len1 == p.len(),
                        t.len() == len2,
                        col == len2 + 1,
                        m == (len1 + 1) * col,
                        m <= MAXDIMS,
                        t == all.subrange(range_start as int, range_end as int),
                        all == joined(parts@),
                        range_start < range_end <= all.len(),
                        len2 == range_end - range_start,
                        ii <= len1,
                        jj <= len2,
                        jj <= max_j,
                        ii * col + jj == idx(ii as int, jj as int, col as int),
                        idx(ii as int, jj as int, col as int) < m,
                        ii * col <= ii * col + jj,
                        forall|r: int, c: int|
                            0 <= r <= len1 && 0 <= c < col ==> #[trigger] self.cache@[idx(
                                r,
                                c,
                                col as int,
                            )] == cell(p, t, r as nat, c as nat),
                        trace_start(p, t, ii as nat, jj as nat) == trace_start(
                            p,
                            t,
                            max_i as nat,
                            max_j as nat,
                        ),
                    decreases ii + jj,
                {
                    proof {
                        lemma_idx(ii as int, jj as int, col as int, (len1 + 1) as int);
                        lemma_idx((ii - 1) as int, (jj - 1) as int, col as int, (len1 + 1) as int);
                        lemma_idx((ii - 1) as int, jj as int, col as int, (len1 + 1) as int);
                        lemma_cell_bounds(p, t, ii as nat, jj as nat);
                        lemma_cell_bounds(p, t, (ii - 1) as nat, (jj - 1) as nat);
                        lemma_cell_bounds(p, t, (ii - 1) as nat, jj as nat);
                        assert(3 * len1 < 32000) by (nonlinear_arith)
                            requires
                                (len1 + 1) * col <= MAXDIMS,
                                col >= 2,
                        ;
                        assert(t[jj - 1] == all[range_start + jj - 1]);
                    }
                    let cur = self.cache[ii * col + jj];
                    let diag: i16 = if pattern[ii - 1] == byte_at(parts, range_start + jj - 1) {
                        MATCH
                    } else {
                        MISMATCH
                    };
                    let diag_val = self.cache[(ii - 1) * col + (jj - 1)];
                    if cur == diag_val + diag {
                        ii = ii - 1;
                        jj = jj - 1;
                    } else {
                        let up_val = self.cache[(ii - 1) * col + jj];
                        if cur == up_val + GAP {
                            ii = ii - 1;
                        } else {
                            jj = jj - 1;
                        }
                    }
                    proof {
                        lemma_idx(ii as int, jj as int, col as int, (len1 + 1) as int);
                    }
                }
                proof {
                    if ii > 0 && jj > 0 {
                        lemma_idx(ii as int, jj as int, col as int, (len1 + 1) as int);
                    }
                    assert(trace_start(p, t, ii as nat, jj as nat) == jj);
                    lemma_trace_start_bound(p, t, max_i as nat, max_j as nat);
                }
                let start = range_start + jj;
                let end = range_start + max_j;
                let ghost before = matchs@;
                matchs.push(Match { score: max_score, start, end, positions: range_vec(start, end) });
                proof {
                    assert(unsorted[q as int] == cell_match(p, t, best, range_start as int, cells[q as int]));
                    assert(matchs@ == before.push(matchs@.last()));
                    assert(triple(matchs@.last()) == unsorted[q as int]);
                    assert(triples(matchs@) =~= triples(before).push(triple(matchs@.last())));
                    assert(unsorted.take(q + 1) =~= unsorted.take(q as int).push(unsorted[q as int]));
                    assert(triples(matchs@) =~= unsorted.take(q + 1));
                    assert forall|k: int| 0 <= k < matchs@.len() implies (#[trigger] matchs@[k]).positions@
                        == range_seq(matchs@[k].start as int, matchs@[k].end as int) by {
                        if k < before.len() {
                            assert(matchs@[k] == before[k]);
                        }
                    }
                }
                q = q + 1;
            }
            proof {
                assert(unsorted.take(self.pos@.len() as int) =~= unsorted);
            }
        } else {
            proof {
                assert(unsorted.take(0) =~= Seq::<(int, int, int)>::empty());
            }
        }
        sort_by_start(matchs)
    }
}


/// The score a prefiltered search needs: `MIN_SCORE_PERCENT` percent of the best possible
/// score for the pattern.
pub open spec fn threshold(p_len: int) -> int {
    (MATCH as int * p_len * MIN_SCORE_PERCENT as int) / 100
}

/// `(start, end)` of `a` comes before that of `b`.
pub open spec fn bounds_before(a: Match, b: Match) -> bool {
    a.start < b.start || (a.start == b.start && a.end < b.end)
}

/// A window of the text, with start and end, that a search may run in.
pub open spec fn window_ok(w: (usize, usize), text_len: int, max_len: int) -> bool {
    w.0 <= w.1 <= text_len && w.1 - w.0 <= max_len
}

/// `m` is a best-scoring alignment of `p` inside some window of the text.
pub open spec fn found_in_window(p: Seq<u8>, parts: Seq<&[u8]>, m: Match) -> bool {
    exists|ws: int, we: int|
        0 <= ws <= we && #[trigger] alignments(p, window(parts, ws, we), ws).contains(triple(m))
}

/// Sorts windows by start, then end.
fn sort_windows(v: Vec<(usize, usize)>, text_len: usize, max_len: usize) -> (r: Vec<(usize, usize)>)
    requires
        forall|k: int| 0 <= k < v@.len() ==> window_ok(#[trigger] v@[k], text_len as int, max_len as int),
    ensures
        r@.len() == v@.len(),
        forall|k: int| 0 <= k < r@.len() ==> window_ok(#[trigger] r@[k], text_len as int, max_len as int),
        forall|a: int, b: int|
            0 <= a < b < r@.len() ==> (#[trigger] r@[a]).0 < (#[trigger] r@[b]).0 || (r@[a].0 == r@[b].0
                && r@[a].1 <= r@[b].1),
        forall|k: int| 0 <= k < v@.len() ==> r@.contains(#[trigger] v@[k]),
{
    let mut out: Vec<(usize, usize)> = Vec::new();
    let mut k: usize = 0;
    while k < v.len()
        invariant
            k <= v@.len(),
            out@.len() == k,
            forall|q: int| 0 <= q < v@.len() ==> window_ok(#[trigger] v@[q], text_len as int, max_len as int),
            forall|q: int| 0 <= q < out@.len() ==> window_ok(#[trigger] out@[q], text_len as int, max_len as int),
            forall|a: int, b: int|
                0 <= a < b < out@.len() ==> (#[trigger] out@[a]).0 < (#[trigger] out@[b]).0 || (out@[a].0
                    == out@[b].0 && out@[a].1 <= out@[b].1),
            forall|q: int| 0 <= q < k ==> out@.contains(#[trigger] v@[q]),
        decreases v@.len() - k,
    {
        let w = v[k];
        let mut pos: usize = 0;
        while pos < out.len() && (out[pos].0 < w.0 || (out[pos].0 == w.0 && out[pos].1 <= w.1))
            invariant
                pos <= out@.len(),
                forall|q: int| 0 <= q < pos ==> (#[trigger] out@[q]).0 < w.0 || (out@[q].0 == w.0
                    && out@[q].1 <= w.1),
            decreases out@.len() - pos,
        {
            pos = pos + 1;
        }
        let ghost before = out@;
        out.insert(pos, w);
        proof {
            assert forall|q: int| 0 <= q < k + 1 implies out@.contains(#[trigger] v@[q]) by {
                if q == k {
                    assert(out@[pos as int] == w);
                } else {
                    let j = choose|j: int| 0 <= j < before.len() && before[j] == v@[q];
                    if j < pos {
                        assert(out@[j] == before[j]);
                    } else {
                        assert(out@[j + 1] == before[j]);
                    }
                }
            }
            assert forall|a: int, b: int| 0 <= a < b < out@.len() implies (#[trigger] out@[a]).0
                < (#[trigger] out@[b]).0 || (out@[a].0 == out@[b].0 && out@[a].1 <= out@[b].1) by {
                if b < pos {
                    assert(out@[a] == before[a] && out@[b] == before[b]);
                } else if b == pos {
                    assert(out@[a] == before[a]);
                } else if a < pos {
                    assert(out@[a] == before[a] && out@[b] == before[b - 1]);
                    assert(before[a].0 < before[b - 1].0 || (before[a].0 == before[b - 1].0 && before[a].1
                        <= before[b - 1].1));
                } else if a == pos {
                    assert(out@[b] == before[b - 1]);
                    if pos < before.len() {
                        assert(!(before[pos as int].0 < w.0 || (before[pos as int].0 == w.0
                            && before[pos as int].1 <= w.1)));
                        if b - 1 > pos {
                            assert(before[pos as int].0 < before[b - 1].0 || (before[pos as int].0
                                == before[b - 1].0 && before[pos as int].1 <= before[b - 1].1));
                        }
                    }
                } else {
                    assert(out@[a] == before[a - 1] && out@[b] == before[b - 1]);
                }
            }
        }
        k = k + 1;
    }
    out
}


/// Joins sorted windows that overlap into one, as long as the joined window stays within
/// `max_len`.
fn merge_windows(windows: &Vec<(usize, usize)>, text_len: usize, max_len: usize) -> (r: Vec<(usize, usize)>)
    requires
        forall|k: int| 0 <= k < windows@.len() ==> window_ok(#[trigger] windows@[k], text_len as int, max_len as int),
        forall|a: int, b: int| 0 <= a < b < windows@.len() ==> (#[trigger] windows@[a]).0 <= (#[trigger] windows@[b]).0,
    ensures
        forall|k: int| 0 <= k < r@.len() ==> window_ok(#[trigger] r@[k], text_len as int, max_len as int),
        windows@.len() > 0 ==> r@.len() > 0,
        forall|k: int| 0 <= k < windows@.len() ==> #[trigger] within_some(r@, windows@[k].0 as int, windows@[k].1 as int),
{
    let mut merged: Vec<(usize, usize)> = Vec::new();
    let mut k: usize = 0;
    while k < windows.len()
        invariant
            k <= windows@.len(),
            forall|q: int| 0 <= q < windows@.len() ==> window_ok(#[trigger] windows@[q], text_len as int, max_len as int),
            forall|q: int| 0 <= q < merged@.len() ==> window_ok(#[trigger] merged@[q], text_len as int, max_len as int),
            k > 0 ==> merged@.len() > 0,
            forall|a: int, b: int| 0 <= a < b < windows@.len() ==> (#[trigger] windows@[a]).0 <= (#[trigger] windows@[b]).0,
            k > 0 ==> merged@.last().0 <= windows@[k - 1].0,
            k == 0 ==> merged@.len() == 0,
            forall|q: int| 0 <= q < k ==> #[trigger] within_some(merged@, windows@[q].0 as int, windows@[q].1 as int),
        decreases windows@.len() - k,
    {
        let (start, end) = windows[k];
        let n = merged.len();
        let ghost before = merged@;
        if n > 0 {
            let last = merged[n - 1];
            let merged_end = if last.1 >= end { last.1 } else { end };
            if start <= last.1 && merged_end - last.0 <= max_len {
                merged.set(n - 1, (last.0, merged_end));
                proof {
                    assert(windows@[k - 1].0 <= windows@[k as int].0);
                    assert forall|q: int| 0 <= q < k + 1 implies #[trigger] within_some(merged@, windows@[q].0 as int, windows@[q].1 as int) by {
                        if q == k {
                            assert(merged@[n - 1] == (last.0, merged_end));
                        } else {
                            assert(within_some(before, windows@[q].0 as int, windows@[q].1 as int));
                            let j = choose|j: int| 0 <= j < before.len() && before[j].0 <= windows@[q].0 && windows@[q].1 <= before[j].1;
                            assert(merged@[j].0 <= before[j].0 && before[j].1 <= merged@[j].1);
                        }
                    }
                }
            } else {
                merged.push((start, end));
                proof {
                    assert forall|q: int| 0 <= q < k + 1 implies #[trigger] within_some(merged@, windows@[q].0 as int, windows@[q].1 as int) by {
                        if q == k {
                            assert(merged@[n as int] == (start, end));
                        } else {
                            assert(within_some(before, windows@[q].0 as int, windows@[q].1 as int));
                            let j = choose|j: int| 0 <= j < before.len() && before[j].0 <= windows@[q].0 && windows@[q].1 <= before[j].1;
                            assert(merged@[j] == before[j]);
                        }
                    }
                }
            }
        } else {
            merged.push((start, end));
            proof {
                assert forall|q: int| 0 <= q < k + 1 implies #[trigger] within_some(merged@, windows@[q].0 as int, windows@[q].1 as int) by {
                    assert(k == 0);
                    assert(merged@[0] == (start, end));
                }
            }
        }
        k = k + 1;
    }
    merged
}

/// Some window of `w` holds `[start, end)`.
pub open spec fn within_some(w: Seq<(usize, usize)>, start: int, end: int) -> bool {
    exists|j: int| 0 <= j < w.len() && w[j].0 <= start && end <= w[j].1
}

impl SmithWaterman {
    /// Best-scoring local alignments of `pattern` over the whole text.
    pub fn find_parts_full(&mut self, pattern: &[u8], parts: &[&[u8]]) -> (r: Vec<Match>)
        requires
            old(self).wf(),
            joined(parts@).len() <= usize::MAX,
            joined(parts@).len() > 0 && pattern@.len() > 0 ==> cells_needed(
                pattern@.len() as int,
                joined(parts@).len() as int,
            ) <= MAXDIMS,
        ensures
            final(self).wf(),
            matches_are(r@, alignments(pattern@, joined(parts@), 0)),
    {
        let text_len = parts_len(parts);
        let r = self.find_parts_in_range(pattern, parts, 0, text_len);
        proof {
            if text_len > 0 {
                assert(window(parts@, 0, text_len as int) =~= joined(parts@));
            } else {
                assert(window(parts@, 0, text_len as int) =~= joined(parts@));
            }
        }
        r
    }
}


/// The matches kept by a prefiltered search all score `score`, lie within some window,
/// and list their whole range.
pub open spec fn kept(p: Seq<u8>, parts: Seq<&[u8]>, m: Match, score: int) -> bool {
    &&& m.score == score
    &&& found_in_window(p, parts, m)
    &&& m.positions@ == range_seq(m.start as int, m.end as int)
}

/// The `(score, start, end)` entries of the best alignments found in each window of `w` in
/// turn, counted in the whole text.
pub open spec fn all_found(p: Seq<u8>, parts: Seq<&[u8]>, w: Seq<(usize, usize)>) -> Seq<(int, int, int)>
    decreases w.len(),
{
    if w.len() == 0 {
        Seq::empty()
    } else {
        all_found(p, parts, w.drop_last()) + alignments(p, window(parts, w.last().0 as int, w.last().1 as int), w.last().0 as int)
    }
}

/// The highest score among the entries of `s` (0 for none).
pub open spec fn top_score(s: Seq<(int, int, int)>) -> int
    decreases s.len(),
{
    if s.len() == 0 {
        0
    } else if s.len() == 1 {
        s[0].0
    } else {
        let t = top_score(s.drop_last());
        if s.last().0 > t { s.last().0 } else { t }
    }
}

/// `r` is the answer of a prefiltered search whose windows found the entries `s`: nothing
/// when there are none or the best score is below `th`; otherwise one match for each
/// distinct `(start, end)` among the entries with the best score, all taken from `s`,
/// sorted by `(start, end)`, each listing its whole range.
pub open spec fn best_of(r: Seq<Match>, s: Seq<(int, int, int)>, th: int) -> bool {
    if s.len() == 0 || top_score(s) < th {
        r.len() == 0
    } else {
        &&& full_ranges(r)
        &&& forall|k: int| 0 <= k < r.len() - 1 ==> bounds_before(#[trigger] r[k], r[k + 1])
        &&& forall|k: int| 0 <= k < r.len() ==> s.contains(triple(#[trigger] r[k])) && r[k].score == top_score(s)
        &&& forall|i: int| 0 <= i < s.len() && (#[trigger] s[i]).0 == top_score(s) ==> has_bounds(r, s[i].1, s[i].2)
    }
}

/// The longest window a pattern of `plen` bytes may be aligned in.
pub open spec fn sw_max_len(plen: int) -> int {
    (MAXDIMS as int) / (plen + 1) - 1
}

/// How far a window reaches on each side of a byte of the pattern found in the text.
pub open spec fn sw_radius(plen: int) -> int {
    let radius0 = if plen * 2 >= plen + 8 { plen * 2 } else { plen + 8 };
    let cap = if sw_max_len(plen) / 2 >= 1 { sw_max_len(plen) / 2 } else { 1 };
    if radius0 <= cap { radius0 } else { cap }
}

/// The window a prefiltered search opens around position `pos` of a text of `text_len`
/// bytes: `sw_radius` on each side, cut at the text's ends; when that is longer than
/// `sw_max_len`, a window of that length around `pos` instead, moved back from the end.
pub open spec fn prefilter_window(plen: int, text_len: int, pos: int) -> (int, int) {
    let max_len = sw_max_len(plen);
    let radius = sw_radius(plen);
    let start = if pos >= radius { pos - radius } else { 0 };
    let e0 = if pos + radius + 1 <= usize::MAX { pos + radius + 1 } else { usize::MAX as int };
    let end = if e0 < text_len { e0 } else { text_len };
    if end - start > max_len {
        let s1 = if pos >= max_len / 2 { pos - max_len / 2 } else { 0 };
        let e1 = if s1 + max_len <= usize::MAX { s1 + max_len } else { usize::MAX as int };
        let end2 = if e1 < text_len { e1 } else { text_len };
        let s2 = if end2 >= max_len { end2 - max_len } else { 0 };
        (s2, end2)
    } else {
        (start, end)
    }
}

/// The cells the matrix needs to align a pattern of `plen` bytes in each window of `w`, added
/// up.
pub open spec fn window_cost(plen: int, w: Seq<(usize, usize)>) -> int
    decreases w.len(),
{
    if w.len() == 0 {
        0
    } else {
        window_cost(plen, w.drop_last()) + (plen + 1) * (w.last().1 - w.last().0 + 1)
    }
}

/// A prefiltered search over the windows `w` aligns in the whole text instead: when the
/// whole text fits the matrix and the windows would cost at least as many cells.
pub open spec fn full_search_taken(plen: int, text_len: int, w: Seq<(usize, usize)>) -> bool {
    (plen + 1) * (text_len + 1) <= MAXDIMS && window_cost(plen, w) >= (plen + 1) * (text_len + 1)
}

/// Every window a prefiltered search opens around a byte of `p` found in `t` lies within
/// some window of `w`.
pub open spec fn windows_cover(w: Seq<(usize, usize)>, p: Seq<u8>, t: Seq<u8>) -> bool {
    forall|pos: int|
        0 <= pos < t.len() && p.contains(#[trigger] t[pos]) ==> within_some(
            w,
            prefilter_window(p.len() as int, t.len() as int, pos).0,
            prefilter_window(p.len() as int, t.len() as int, pos).1,
        )
}

/// `w` holds the window `x`.
pub open spec fn has_window(w: Seq<(usize, usize)>, x: (int, int)) -> bool {
    exists|j: int| 0 <= j < w.len() && w[j].0 == x.0 && w[j].1 == x.1
}

proof fn lemma_has_window_push(w: Seq<(usize, usize)>, y: (usize, usize), x: (int, int))
    ensures
        has_window(w, x) ==> has_window(w.push(y), x),
        has_window(w.push(y), (y.0 as int, y.1 as int)),
{
    if has_window(w, x) {
        let j = choose|j: int| 0 <= j < w.len() && w[j].0 == x.0 && w[j].1 == x.1;
        assert(w.push(y)[j] == w[j]);
    }
    assert(w.push(y)[w.len() as int] == y);
}

proof fn lemma_take_contains(p: Seq<u8>, ai: int, b: u8)
    requires
        0 <= ai < p.len(),
    ensures
        p.take(ai + 1).contains(b) <==> (p.take(ai).contains(b) || p[ai] == b),
{
    assert(p.take(ai + 1) =~= p.take(ai).push(p[ai]));
    if p.take(ai + 1).contains(b) {
        let j = choose|j: int| 0 <= j < ai + 1 && #[trigger] p.take(ai + 1)[j] == b;
        if j < ai {
            assert(p.take(ai)[j] == b);
        }
    }
    if p.take(ai).contains(b) {
        let j = choose|j: int| 0 <= j < ai && #[trigger] p.take(ai)[j] == b;
        assert(p.take(ai + 1)[j] == b);
    }
    if p[ai] == b {
        assert(p.take(ai + 1)[ai] == b);
    }
}

/// Sorts matches by `(start, end)`.
fn sort_by_bounds(v: Vec<Match>, Ghost(p): Ghost<Seq<u8>>, Ghost(parts): Ghost<Seq<&[u8]>>, Ghost(score): Ghost<int>) -> (r: Vec<Match>)
    requires
        forall|k: int| 0 <= k < v@.len() ==> kept(p, parts, #[trigger] v@[k], score),
    ensures
        r@.len() == v@.len(),
        forall|k: int| 0 <= k < r@.len() ==> kept(p, parts, #[trigger] r@[k], score),
        forall|a: int, b: int|
            0 <= a < b < r@.len() ==> (#[trigger] r@[a]).start < (#[trigger] r@[b]).start || (r@[a].start
                == r@[b].start && r@[a].end <= r@[b].end),
        forall|k: int| 0 <= k < v@.len() ==> r@.contains(#[trigger] v@[k]),
        forall|j: int| 0 <= j < r@.len() ==> v@.contains(#[trigger] r@[j]),
{
    let ghost orig = v@;
    let mut v = v;
    let mut out: Vec<Match> = Vec::new();
    let ghost total = v@.len();
    proof {
        assert(v@ =~= orig.take(total as int));
    }
    while v.len() > 0
        invariant
            out@.len() + v@.len() == total,
            total == orig.len(),
            v@ == orig.take(v@.len() as int),
            forall|q: int| v@.len() <= q < total ==> out@.contains(#[trigger] orig[q]),
            forall|j: int| 0 <= j < out@.len() ==> orig.contains(#[trigger] out@[j]),
            forall|q: int| 0 <= q < v@.len() ==> kept(p, parts, #[trigger] v@[q], score),
            forall|q: int| 0 <= q < out@.len() ==> kept(p, parts, #[trigger] out@[q], score),
            forall|a: int, b: int|
                0 <= a < b < out@.len() ==> (#[trigger] out@[a]).start < (#[trigger] out@[b]).start
                    || (out@[a].start == out@[b].start && out@[a].end <= out@[b].end),
        decreases v@.len(),
    {
        let ghost vb = v@;
        let m = v.pop().unwrap();
        proof {
            assert(m == vb.last());
            assert forall|q: int| 0 <= q < v@.len() implies kept(p, parts, #[trigger] v@[q], score) by {
                assert(v@[q] == vb[q]);
            }
        }
        let mut pos: usize = 0;
        while pos < out.len() && (out[pos].start < m.start || (out[pos].start == m.start
            && out[pos].end <= m.end))
            invariant
                pos <= out@.len(),
                forall|q: int| 0 <= q < pos ==> (#[trigger] out@[q]).start < m.start || (out@[q].start
                    == m.start && out@[q].end <= m.end),
            decreases out@.len() - pos,
        {
            pos = pos + 1;
        }
        let ghost before = out@;
        out.insert(pos, m);
        proof {
            assert(v@ =~= orig.take(v@.len() as int)) by {
                assert forall|q: int| 0 <= q < v@.len() implies v@[q] == orig[q] by {
                    assert(vb[q] == orig.take(vb.len() as int)[q]);
                }
            }
            assert(orig[v@.len() as int] == m) by {
                assert(vb[v@.len() as int] == orig.take(vb.len() as int)[v@.len() as int]);
            }
            assert forall|q: int| v@.len() <= q < total implies out@.contains(#[trigger] orig[q]) by {
                if q == v@.len() {
                    assert(out@[pos as int] == m);
                } else {
                    assert(before.contains(orig[q]));
                    let j = choose|j: int| 0 <= j < before.len() && before[j] == orig[q];
                    if j < pos {
                        assert(out@[j] == before[j]);
                    } else {
                        assert(out@[j + 1] == before[j]);
                    }
                }
            }
            assert forall|j: int| 0 <= j < out@.len() implies orig.contains(#[trigger] out@[j]) by {
                if j < pos {
                    assert(out@[j] == before[j]);
                } else if j == pos {
                    assert(orig[v@.len() as int] == out@[j]);
                } else {
                    assert(out@[j] == before[j - 1]);
                }
            }
            assert forall|q: int| 0 <= q < out@.len() implies kept(p, parts, #[trigger] out@[q], score) by {
                if q < pos {
                    assert(out@[q] == before[q]);
                } else if q > pos {
                    assert(out@[q] == before[q - 1]);
                }
            }
            assert forall|a: int, b: int| 0 <= a < b < out@.len() implies (#[trigger] out@[a]).start
                < (#[trigger] out@[b]).start || (out@[a].start == out@[b].start && out@[a].end
                <= out@[b].end) by {
                if b < pos {
                    assert(out@[a] == before[a] && out@[b] == before[b]);
                } else if b == pos {
                    assert(out@[a] == before[a]);
                } else if a < pos {
                    assert(out@[a] == before[a] && out@[b] == before[b - 1]);
                } else if a == pos {
                    assert(out@[b] == before[b - 1]);
                    assert(!(before[pos as int].start < m.start || (before[pos as int].start == m.start
                        && before[pos as int].end <= m.end)));
                    if b - 1 > pos {
                        assert(before[pos as int].start < before[b - 1].start || (before[pos as int].start
                            == before[b - 1].start && before[pos as int].end <= before[b - 1].end));
                    }
                } else {
                    assert(out@[a] == before[a - 1] && out@[b] == before[b - 1]);
                }
            }
        }
    }
    proof {
        assert forall|k: int| 0 <= k < orig.len() implies out@.contains(#[trigger] orig[k]) by {
            assert(out@.contains(orig[k]));
        }
    }
    out
}

/// Some match of `r` spans `[start, end)`.
pub open spec fn has_bounds(r: Seq<Match>, start: int, end: int) -> bool {
    exists|j: int| 0 <= j < r.len() && r[j].start == start && r[j].end == end
}

/// Drops each match whose `(start, end)` repeats the one before it, leaving sorted input
/// strictly increasing.
fn dedup_bounds(v: Vec<Match>, Ghost(p): Ghost<Seq<u8>>, Ghost(parts): Ghost<Seq<&[u8]>>, Ghost(score): Ghost<int>) -> (r: Vec<Match>)
    requires
        forall|k: int| 0 <= k < v@.len() ==> kept(p, parts, #[trigger] v@[k], score),
        forall|a: int, b: int|
            0 <= a < b < v@.len() ==> (#[trigger] v@[a]).start < (#[trigger] v@[b]).start || (v@[a].start
                == v@[b].start && v@[a].end <= v@[b].end),
    ensures
        v@.len() > 0 ==> r@.len() > 0,
        forall|k: int| 0 <= k < r@.len() ==> kept(p, parts, #[trigger] r@[k], score),
        forall|k: int| 0 <= k < r@.len() - 1 ==> bounds_before(#[trigger] r@[k], r@[k + 1]),
        forall|k: int| 0 <= k < v@.len() ==> #[trigger] has_bounds(r@, v@[k].start as int, v@[k].end as int),
        forall|j: int| 0 <= j < r@.len() ==> v@.contains(#[trigger] r@[j]),
{
    let ghost orig = v@;
    let mut v = v;
    let mut out: Vec<Match> = Vec::new();
    let ghost mut k: int = 0;
    let ghost mut li: int = 0;
    proof {
        assert(v@ =~= orig.skip(0));
    }
    while v.len() > 0
        invariant
            0 <= k <= orig.len(),
            v@ == orig.skip(k),
            forall|q: int| 0 <= q < orig.len() ==> kept(p, parts, #[trigger] orig[q], score),
            forall|a: int, b: int|
                0 <= a < b < orig.len() ==> (#[trigger] orig[a]).start < (#[trigger] orig[b]).start
                    || (orig[a].start == orig[b].start && orig[a].end <= orig[b].end),
            forall|q: int| 0 <= q < out@.len() ==> kept(p, parts, #[trigger] out@[q], score),
            forall|q: int| 0 <= q < out@.len() - 1 ==> bounds_before(#[trigger] out@[q], out@[q + 1]),
            out@.len() > 0 ==> 0 <= li < k && out@.last().start == orig[li].start && out@.last().end
                == orig[li].end,
            k > 0 ==> out@.len() > 0,
            forall|q: int| 0 <= q < k ==> #[trigger] has_bounds(out@, orig[q].start as int, orig[q].end as int),
            forall|j: int| 0 <= j < out@.len() ==> orig.contains(#[trigger] out@[j]),
        decreases v@.len(),
    {
        let m = v.remove(0);
        proof {
            assert(m == orig[k]);
            assert(v@ =~= orig.skip(k + 1));
        }
        let n = out.len();
        let push = n == 0 || out[n - 1].start < m.start || (out[n - 1].start == m.start && out[n
            - 1].end < m.end);
        let ghost before0 = out@;
        if push {
            let ghost before = out@;
            out.push(m);
            proof {
                assert forall|q: int| 0 <= q < k + 1 implies #[trigger] has_bounds(out@, orig[q].start as int, orig[q].end as int) by {
                    if q == k {
                        assert(out@[n as int] == m);
                    } else {
                        assert(has_bounds(before, orig[q].start as int, orig[q].end as int));
                        let j = choose|j: int| 0 <= j < before.len() && before[j].start == orig[q].start && before[j].end == orig[q].end;
                        assert(out@[j] == before[j]);
                    }
                }
                assert forall|j: int| 0 <= j < out@.len() implies orig.contains(#[trigger] out@[j]) by {
                    if j < before.len() {
                        assert(out@[j] == before[j]);
                    } else {
                        assert(orig[k] == out@[j]);
                    }
                }
                assert forall|q: int| 0 <= q < out@.len() implies kept(p, parts, #[trigger] out@[q], score) by {
                    if q < before.len() {
                        assert(out@[q] == before[q]);
                    }
                }
                assert forall|q: int| 0 <= q < out@.len() - 1 implies bounds_before(#[trigger] out@[q], out@[q + 1]) by {
                    if q < before.len() - 1 {
                        assert(out@[q] == before[q] && out@[q + 1] == before[q + 1]);
                    } else {
                        assert(out@[q] == before.last());
                    }
                }
                li = k;
            }
        }
        proof {
            if !push {
                assert(orig[li].start < orig[k].start || (orig[li].start == orig[k].start && orig[li].end <= orig[k].end));
                assert(out@[n - 1].start == m.start && out@[n - 1].end == m.end);
                assert forall|q: int| 0 <= q < k + 1 implies #[trigger] has_bounds(out@, orig[q].start as int, orig[q].end as int) by {
                    if q == k {
                        assert(out@[n - 1].start == orig[q].start);
                    }
                }
            }
            k = k + 1;
        }
    }
    proof {
        assert(k == orig.len()) by {
            assert(orig.skip(k).len() == 0);
        }
    }
    out
}


/// Some byte of `p` occurs in `t`.
pub open spec fn shares_byte(p: Seq<u8>, t: Seq<u8>) -> bool {
    exists|i: int, k: int| 0 <= i < p.len() && 0 <= k < t.len() && #[trigger] p[i] == #[trigger] t[k]
}

proof fn lemma_window_fits(p_len: int, max_len: int, w_len: int)
    requires
        p_len >= 1,
        max_len == (MAXDIMS as int) / (p_len + 1) - 1,
        max_len >= 1,
        0 <= w_len <= max_len,
    ensures
        cells_needed(p_len, w_len) <= MAXDIMS,
{
    assert((p_len + 1) * (w_len + 1) <= (p_len + 1) * (max_len + 1)) by (nonlinear_arith)
        requires
            p_len >= 1,
            0 <= w_len <= max_len,
    ;
    assert((p_len + 1) * ((MAXDIMS as int) / (p_len + 1)) <= MAXDIMS) by (nonlinear_arith)
        requires
            p_len >= 1,
    ;
}

impl SmithWaterman {
    /// Smith-Waterman over windows around the occurrences of the pattern's bytes: each
    /// distinct byte of the pattern anchors a window around every place it occurs, overlapping
    /// windows are joined while they stay small enough for the matrix, and the
    /// best-scoring alignments over all windows that reach the score threshold are returned,
    /// sorted and without repeats. When the windows would cost at least as much as the whole
    /// text, the whole text is searched instead.
    pub fn find_parts_prefiltered(&mut self, pattern: &[u8], parts: &[&[u8]]) -> (r: Vec<Match>)
        requires
            old(self).wf(),
            joined(parts@).len() <= usize::MAX,
            pattern@.len() <= 198,
        ensures
            final(self).wf(),
            pattern@.len() == 0 || joined(parts@).len() == 0 ==> r@.len() == 0,
            !shares_byte(pattern@, joined(parts@)) ==> r@.len() == 0,
            matches_are(r@, alignments(pattern@, joined(parts@), 0)) || ({
                &&& r@.len() > 0 ==> r@[0].score >= threshold(pattern@.len() as int)
                &&& forall|k: int| 0 <= k < r@.len() ==> kept(pattern@, parts@, #[trigger] r@[k], r@[0].score as int)
                &&& forall|k: int| 0 <= k < r@.len() - 1 ==> bounds_before(#[trigger] r@[k], r@[k + 1])
            }),
            exists|w: Seq<(usize, usize)>| #[trigger] windows_cover(w, pattern@, joined(parts@)) && (if full_search_taken(
                pattern@.len() as int, joined(parts@).len() as int, w) { matches_are(r@, alignments(pattern@, joined(parts@), 0)) }
                else { best_of(r@, all_found(pattern@, parts@, w), threshold(pattern@.len() as int)) }),
    {
        let text_len = parts_len(parts);
        let plen = pattern.len();
        if plen == 0 || text_len == 0 {
            proof {
                assert(triples(Seq::<Match>::empty()) =~= Seq::<(int, int, int)>::empty());
                assert(windows_cover(Seq::<(usize, usize)>::empty(), pattern@, joined(parts@)));
                assert(all_found(pattern@, parts@, Seq::<(usize, usize)>::empty()) == Seq::<(int, int, int)>::empty());
                assert(window_cost(plen as int, Seq::<(usize, usize)>::empty()) == 0);
                assert((plen + 1) * (text_len + 1) >= 1) by (nonlinear_arith)
                    requires plen >= 0, text_len >= 0;
                assert(!full_search_taken(plen as int, text_len as int, Seq::<(usize, usize)>::empty()));
            }
            return Vec::new();
        }
        proof {
            assert((MAXDIMS as int) / (plen + 1) >= 46) by (nonlinear_arith)
                requires
                    1 <= plen <= 198,
            ;
        }
        let max_text_len = MAXDIMS / (plen + 1) - 1;
        let radius0 = if plen * 2 >= plen + 8 { plen * 2 } else { plen + 8 };
        let cap = if max_text_len / 2 >= 1 { max_text_len / 2 } else { 1 };
        let radius = if radius0 <= cap { radius0 } else { cap };
        let mut seen: Vec<bool> = crate::util::filled_vec(false, 256);
        let mut windows: Vec<(usize, usize)> = Vec::new();
        let mut ai: usize = 0;
        let ghost tt = joined(parts@);
        proof {
            assert(pattern@.take(0) =~= Seq::<u8>::empty());
            assert forall|b: u8| #[trigger] seen@[b as int] == pattern@.take(0).contains(b) by {
                assert(seen@[b as int] == false);
            }
        }
        while ai < plen
            invariant
                tt == joined(parts@),
                max_text_len == sw_max_len(plen as int),
                radius == sw_radius(plen as int),
                forall|b: u8| #[trigger] seen@[b as int] == pattern@.take(ai as int).contains(b),
                forall|pos: int| 0 <= pos < text_len && pattern@.take(ai as int).contains(#[trigger] tt[pos]) ==> has_window(
                    windows@, prefilter_window(plen as int, text_len as int, pos)),
                plen == pattern@.len(),
                1 <= plen <= 198,
                text_len == joined(parts@).len(),
                text_len <= usize::MAX,
                max_text_len >= 45,
                radius <= max_text_len,
                seen@.len() == 256,
                ai <= plen,
                forall|k: int| 0 <= k < windows@.len() ==> window_ok(#[trigger] windows@[k], text_len as int, max_text_len as int),
                windows@.len() > 0 ==> shares_byte(pattern@, joined(parts@)),
            decreases plen - ai,
        {
            let anchor = pattern[ai];
            let ghost w_start = windows@;
            if !seen[anchor as usize] {
                seen.set(anchor as usize, true);
                proof {
                    assert forall|b: u8| #[trigger] seen@[b as int] == pattern@.take(ai + 1).contains(b) by {
                        lemma_take_contains(pattern@, ai as int, b);
                    }
                }
                let mut base: usize = 0;
                let mut pi: usize = 0;
                while pi < parts.len()
                    invariant
                        tt == joined(parts@),
                        max_text_len == sw_max_len(plen as int),
                        radius == sw_radius(plen as int),
                        forall|b: u8| #[trigger] seen@[b as int] == pattern@.take(ai + 1).contains(b),
                        forall|pos: int| 0 <= pos < text_len && pattern@.take(ai as int).contains(#[trigger] tt[pos]) ==> has_window(
                            windows@, prefilter_window(plen as int, text_len as int, pos)),
                        forall|pos: int| 0 <= pos < base && #[trigger] tt[pos] == anchor ==> has_window(
                            windows@, prefilter_window(plen as int, text_len as int, pos)),
                        plen == pattern@.len(),
                        1 <= plen <= 198,
                        text_len == joined(parts@).len(),
                        text_len <= usize::MAX,
                        max_text_len >= 45,
                        radius <= max_text_len,
                        ai < plen,
                        anchor == pattern@[ai as int],
                        pi <= parts@.len(),
                        base == joined(parts@.take(pi as int)).len(),
                        forall|k: int| 0 <= k < windows@.len() ==> window_ok(#[trigger] windows@[k], text_len as int, max_text_len as int),
                        windows@.len() > 0 ==> shares_byte(pattern@, joined(parts@)),
                    decreases parts@.len() - pi,
                {
                    let part = parts[pi];
                    proof {
                        lemma_joined_part(parts@, pi as int);
                        lemma_joined_take_step(parts@, pi as int);
                    }
                    let mut offset: usize = 0;
                    let mut done = false;
                    while !done && offset < part.len()
                        invariant
                            tt == joined(parts@),
                            max_text_len == sw_max_len(plen as int),
                            radius == sw_radius(plen as int),
                            plen >= 1,
                            forall|pos: int| 0 <= pos < text_len && pattern@.take(ai as int).contains(#[trigger] tt[pos]) ==> has_window(
                                windows@, prefilter_window(plen as int, text_len as int, pos)),
                            forall|pos: int| 0 <= pos < base + offset && #[trigger] tt[pos] == anchor ==> has_window(
                                windows@, prefilter_window(plen as int, text_len as int, pos)),
                            done ==> forall|pos: int| base + offset <= pos < base + part@.len() ==> #[trigger] tt[pos] != anchor,
                            plen == pattern@.len(),
                            text_len == joined(parts@).len(),
                            text_len <= usize::MAX,
                            max_text_len >= 45,
                            radius <= max_text_len,
                            ai < plen,
                            anchor == pattern@[ai as int],
                            base + part@.len() <= text_len,
                            part@ == joined(parts@).subrange(base as int, base + part@.len()),
                            offset <= part@.len(),
                            forall|k: int| 0 <= k < windows@.len() ==> window_ok(#[trigger] windows@[k], text_len as int, max_text_len as int),
                            windows@.len() > 0 ==> shares_byte(pattern@, joined(parts@)),
                        decreases part@.len() - offset + (if done { 0int } else { 1int }),
                    {
                        let rest = &part[offset..part.len()];
                        match crate::searcher::memchr::memchr(rest, anchor) {
                            None => {
                                proof {
                                    assert forall|pos: int| base + offset <= pos < base + part@.len() implies #[trigger] tt[pos] != anchor by {
                                        assert(rest@[pos - base - offset] == part@[pos - base]);
                                    }
                                }
                                done = true;
                            },
                            Some(found) => {
                                proof {
                                    assert(rest@[found as int] == part@[offset + found]);
                                    assert(part@[offset + found] == joined(parts@)[base + offset + found]);
                                    assert(shares_byte(pattern@, joined(parts@)));
                                }
                                let pos = base + offset + found;
                                let mut start = pos.saturating_sub(radius);
                                let e0 = pos.saturating_add(radius).saturating_add(1);
                                let mut end = if e0 < text_len { e0 } else { text_len };
                                if end - start > max_text_len {
                                    start = pos.saturating_sub(max_text_len / 2);
                                    let e1 = start.saturating_add(max_text_len);
                                    end = if e1 < text_len { e1 } else { text_len };
                                    start = end.saturating_sub(max_text_len);
                                }
                                let ghost wb = windows@;
                                proof {
                                    assert(start as int == prefilter_window(plen as int, text_len as int, pos as int).0);
                                    assert(end as int == prefilter_window(plen as int, text_len as int, pos as int).1);
                                }
                                windows.push((start, end));
                                proof {
                                    assert forall|q: int| 0 <= q < text_len && pattern@.take(ai as int).contains(#[trigger] tt[q]) implies has_window(
                                        windows@, prefilter_window(plen as int, text_len as int, q)) by {
                                        lemma_has_window_push(wb, (start, end), prefilter_window(plen as int, text_len as int, q));
                                    }
                                    assert forall|q: int| 0 <= q < base + offset + found + 1 && #[trigger] tt[q] == anchor implies has_window(
                                        windows@, prefilter_window(plen as int, text_len as int, q)) by {
                                        lemma_has_window_push(wb, (start, end), prefilter_window(plen as int, text_len as int, q));
                                        if q >= base + offset && q < pos {
                                            assert(rest@[q - base - offset] == part@[q - base]);
                                        }
                                    }
                                }
                                offset = offset + found + 1;
                            },
                        }
                    }
                    proof {
                        assert forall|pos: int| 0 <= pos < base + part@.len() && #[trigger] tt[pos] == anchor implies has_window(
                            windows@, prefilter_window(plen as int, text_len as int, pos)) by {
                            if pos >= base + offset {
                                assert(done);
                            }
                        }
                    }
                    base = base + part.len();
                    pi = pi + 1;
                }
                proof {
                    lemma_joined_take_all(parts@);
                    assert forall|pos: int| 0 <= pos < text_len && pattern@.take(ai + 1).contains(#[trigger] tt[pos]) implies has_window(
                        windows@, prefilter_window(plen as int, text_len as int, pos)) by {
                        lemma_take_contains(pattern@, ai as int, tt[pos]);
                    }
                }
            } else {
                proof {
                    assert(pattern@.take(ai as int).contains(anchor));
                    assert forall|b: u8| #[trigger] seen@[b as int] == pattern@.take(ai + 1).contains(b) by {
                        lemma_take_contains(pattern@, ai as int, b);
                    }
                    assert forall|pos: int| 0 <= pos < text_len && pattern@.take(ai + 1).contains(#[trigger] tt[pos]) implies has_window(
                        windows@, prefilter_window(plen as int, text_len as int, pos)) by {
                        lemma_take_contains(pattern@, ai as int, tt[pos]);
                    }
                }
            }
            ai = ai + 1;
        }
        proof {
            assert(pattern@.take(plen as int) =~= pattern@);
        }
        if windows.len() == 0 {
            proof {
                assert(triples(Seq::<Match>::empty()) =~= Seq::<(int, int, int)>::empty());
                assert forall|pos: int| 0 <= pos < tt.len() && pattern@.contains(#[trigger] tt[pos]) implies within_some(
                    Seq::<(usize, usize)>::empty(),
                    prefilter_window(pattern@.len() as int, tt.len() as int, pos).0,
                    prefilter_window(pattern@.len() as int, tt.len() as int, pos).1,
                ) by {
                    assert(has_window(windows@, prefilter_window(plen as int, text_len as int, pos)));
                }
                assert(windows_cover(Seq::<(usize, usize)>::empty(), pattern@, joined(parts@)));
                assert(all_found(pattern@, parts@, Seq::<(usize, usize)>::empty()) == Seq::<(int, int, int)>::empty());
                assert(window_cost(plen as int, Seq::<(usize, usize)>::empty()) == 0);
                assert((plen + 1) * (text_len + 1) >= 1) by (nonlinear_arith)
                    requires plen >= 0, text_len >= 0;
                assert(!full_search_taken(plen as int, text_len as int, Seq::<(usize, usize)>::empty()));
            }
            return Vec::new();
        }
        let ghost raw = windows@;
        let windows = sort_windows(windows, text_len, max_text_len);
        let merged = merge_windows(&windows, text_len, max_text_len);
        proof {
            assert forall|pos: int| 0 <= pos < tt.len() && pattern@.contains(#[trigger] tt[pos]) implies within_some(
                merged@,
                prefilter_window(pattern@.len() as int, tt.len() as int, pos).0,
                prefilter_window(pattern@.len() as int, tt.len() as int, pos).1,
            ) by {
                let x = prefilter_window(plen as int, text_len as int, pos);
                assert(has_window(raw, x));
                let j = choose|j: int| 0 <= j < raw.len() && raw[j].0 == x.0 && raw[j].1 == x.1;
                assert(windows@.contains(raw[j]));
                let i = choose|i: int| 0 <= i < windows@.len() && windows@[i] == raw[j];
                assert(within_some(merged@, windows@[i].0 as int, windows@[i].1 as int));
            }
            assert(windows_cover(merged@, pattern@, joined(parts@)));
        }
        let text_len1 = text_len.saturating_add(1);
        let full_cells = match (plen + 1).checked_mul(text_len1) {
            Some(c) => c,
            None => usize::MAX,
        };
        if full_cells <= MAXDIMS {
            proof {
                assert(full_cells == (plen + 1) * text_len1);
                if text_len1 != text_len + 1 {
                    assert(text_len1 == usize::MAX);
                    assert((plen + 1) * text_len1 >= text_len1) by (nonlinear_arith)
                        requires
                            plen >= 1,
                            text_len1 >= 0,
                    ;
                }
            }
            let mut candidate: u64 = 0;
            let mut k: usize = 0;
            proof {
                assert(merged@.take(0) =~= Seq::<(usize, usize)>::empty());
            }
            while k < merged.len()
                invariant
                    k <= merged@.len(),
                    plen <= 198,
                    max_text_len <= MAXDIMS,
                    forall|q: int| 0 <= q < merged@.len() ==> window_ok(#[trigger] merged@[q], text_len as int, max_text_len as int),
                    candidate == (if window_cost(plen as int, merged@.take(k as int)) <= u64::MAX {
                        window_cost(plen as int, merged@.take(k as int))
                    } else {
                        u64::MAX as int
                    }),
                    window_cost(plen as int, merged@.take(k as int)) >= 0,
                decreases merged@.len() - k,
            {
                let (ws, we) = merged[k];
                proof {
                    assert((plen + 1) * (we - ws + 1) <= 199 * (max_text_len + 1)) by (nonlinear_arith)
                        requires
                            plen <= 198,
                            we - ws <= max_text_len,
                            ws <= we,
                    ;
                }
                let cells = ((plen + 1) as u64) * (((we - ws) + 1) as u64);
                proof {
                    assert(merged@.take(k + 1).drop_last() =~= merged@.take(k as int));
                    assert(merged@.take(k + 1).last() == merged@[k as int]);
                    assert(cells == (plen + 1) * (we - ws + 1));
                    assert(cells >= 0);
                }
                candidate = candidate.saturating_add(cells);
                k = k + 1;
            }
            proof {
                assert(merged@.take(merged@.len() as int) =~= merged@);
            }
            if candidate >= full_cells as u64 {
                proof {
                    assert((plen + 1) * (text_len + 1) <= MAXDIMS);
                    assert(full_search_taken(plen as int, text_len as int, merged@));
                }
                return self.find_parts_full(pattern, parts);
            }
            proof {
                assert(!full_search_taken(plen as int, text_len as int, merged@));
            }
        } else {
            proof {
                if (plen + 1) * (text_len + 1) <= MAXDIMS {
                    assert(text_len + 1 <= (plen + 1) * (text_len + 1)) by (nonlinear_arith)
                        requires plen >= 1, text_len >= 0;
                    assert(text_len1 == text_len + 1);
                    assert(full_cells == (plen + 1) * text_len1);
                }
                assert(!full_search_taken(plen as int, text_len as int, merged@));
            }
        }
        let mut matches: Vec<Match> = Vec::new();
        let mut k: usize = 0;
        while k < merged.len()
            invariant
                self.wf(),
                plen == pattern@.len(),
                1 <= plen <= 198,
                text_len == joined(parts@).len(),
                text_len <= usize::MAX,
                max_text_len == (MAXDIMS as int) / (plen + 1) - 1,
                max_text_len >= 45,
                k <= merged@.len(),
                forall|q: int| 0 <= q < merged@.len() ==> window_ok(#[trigger] merged@[q], text_len as int, max_text_len as int),
                forall|q: int| 0 <= q < matches@.len() ==> found_in_window(pattern@, parts@, #[trigger] matches@[q]),
                full_ranges(matches@),
                triples(matches@) == all_found(pattern@, parts@, merged@.take(k as int)),
            decreases merged@.len() - k,
        {
            let (ws, we) = merged[k];
            proof {
                lemma_window_fits(plen as int, max_text_len as int, window(parts@, ws as int, we as int).len() as int);
            }
            let mut chunk = self.find_parts_in_range(pattern, parts, ws, we);
            let ghost before = matches@;
            let ghost c = chunk@;
            proof {
                assert forall|q: int| 0 <= q < c.len() implies found_in_window(pattern@, parts@, #[trigger] c[q]) by {
                    assert(triples(c)[q] == triple(c[q]));
                    assert(alignments(pattern@, window(parts@, ws as int, we as int), ws as int).contains(triple(c[q])));
                }
            }
            matches.append(&mut chunk);
            proof {
                assert(merged@.take(k + 1).drop_last() =~= merged@.take(k as int));
                assert(merged@.take(k + 1).last() == merged@[k as int]);
                assert(triples(matches@) =~= triples(before) + triples(c));
                assert forall|q: int| 0 <= q < matches@.len() implies found_in_window(pattern@, parts@, #[trigger] matches@[q]) by {
                    if q < before.len() {
                        assert(matches@[q] == before[q]);
                    } else {
                        assert(matches@[q] == c[q - before.len()]);
                    }
                }
                assert forall|q: int| 0 <= q < matches@.len() implies (#[trigger] matches@[q]).positions@
                    == range_seq(matches@[q].start as int, matches@[q].end as int) by {
                    if q < before.len() {
                        assert(matches@[q] == before[q]);
                    } else {
                        assert(matches@[q] == c[q - before.len()]);
                    }
                }
            }
            k = k + 1;
        }
        let ghost found = all_found(pattern@, parts@, merged@);
        proof {
            assert(merged@.take(merged@.len() as int) =~= merged@);
            assert(triples(matches@) == found);
        }
        if matches.len() == 0 {
            proof {
                assert(triples(Seq::<Match>::empty()) =~= Seq::<(int, int, int)>::empty());
                assert(best_of(Seq::<Match>::empty(), found, threshold(pattern@.len() as int)));
            }
            return Vec::new();
        }
        let mut max_score = matches[0].score;
        let mut q: usize = 1;
        proof {
            assert(triples(matches@).take(1) =~= seq![triple(matches@[0])]);
        }
        while q < matches.len()
            invariant
                1 <= q <= matches@.len(),
                max_score == top_score(triples(matches@).take(q as int)),
            decreases matches@.len() - q,
        {
            proof {
                assert(triples(matches@).take(q + 1).drop_last() =~= triples(matches@).take(q as int));
                assert(triples(matches@).take(q + 1).last() == triple(matches@[q as int]));
            }
            if matches[q].score > max_score {
                max_score = matches[q].score;
            }
            q = q + 1;
        }
        proof {
            assert(triples(matches@).take(matches@.len() as int) =~= triples(matches@));
            assert(max_score == top_score(found));
        }
        let max_possible_score = MATCH * (plen as i16);
        let threshold_score = max_possible_score * MIN_SCORE_PERCENT / 100;
        proof {
            assert(threshold_score == threshold(plen as int));
        }
        if max_score < threshold_score {
            proof {
                assert(triples(Seq::<Match>::empty()) =~= Seq::<(int, int, int)>::empty());
                assert(best_of(Seq::<Match>::empty(), found, threshold(pattern@.len() as int)));
            }
            return Vec::new();
        }
        let ghost orig = matches@;
        let mut best: Vec<Match> = Vec::new();
        proof {
            assert(orig.take(orig.len() as int) =~= orig);
        }
        while matches.len() > 0
            invariant
                forall|q: int| 0 <= q < matches@.len() ==> found_in_window(pattern@, parts@, #[trigger] matches@[q]),
                full_ranges(matches@),
                forall|q: int| 0 <= q < best@.len() ==> kept(pattern@, parts@, #[trigger] best@[q], max_score as int),
                matches@.len() <= orig.len(),
                matches@ == orig.take(matches@.len() as int),
                forall|q: int| 0 <= q < best@.len() ==> orig.contains(#[trigger] best@[q]),
                forall|i: int| matches@.len() <= i < orig.len() && (#[trigger] orig[i]).score == max_score ==> best@.contains(orig[i]),
            decreases matches@.len(),
        {
            let ghost mb = matches@;
            let m = matches.pop().unwrap();
            proof {
                assert(m == mb.last());
                assert forall|q: int| 0 <= q < matches@.len() implies found_in_window(pattern@, parts@, #[trigger] matches@[q]) by {
                    assert(matches@[q] == mb[q]);
                }
                assert forall|q: int| 0 <= q < matches@.len() implies (#[trigger] matches@[q]).positions@
                    == range_seq(matches@[q].start as int, matches@[q].end as int) by {
                    assert(matches@[q] == mb[q]);
                }
            }
            proof {
                assert(m == orig[matches@.len() as int]) by {
                    assert(mb[matches@.len() as int] == orig.take(mb.len() as int)[matches@.len() as int]);
                }
                assert(matches@ =~= orig.take(matches@.len() as int)) by {
                    assert forall|q: int| 0 <= q < matches@.len() implies matches@[q] == orig[q] by {
                        assert(mb[q] == orig.take(mb.len() as int)[q]);
                    }
                }
            }
            let ghost bb = best@;
            if m.score == max_score {
                best.push(m);
                proof {
                    assert(best@[bb.len() as int] == m);
                    assert forall|q: int| 0 <= q < best@.len() implies orig.contains(#[trigger] best@[q]) by {
                        if q < bb.len() {
                            assert(best@[q] == bb[q]);
                        }
                    }
                    assert forall|i: int| matches@.len() <= i < orig.len() && (#[trigger] orig[i]).score == max_score implies best@.contains(orig[i]) by {
                        if i > matches@.len() {
                            assert(bb.contains(orig[i]));
                            let j = choose|j: int| 0 <= j < bb.len() && bb[j] == orig[i];
                            assert(best@[j] == bb[j]);
                        }
                    }
                }
            }
        }
        let sorted = sort_by_bounds(best, Ghost(pattern@), Ghost(parts@), Ghost(max_score as int));
        let r = dedup_bounds(sorted, Ghost(pattern@), Ghost(parts@), Ghost(max_score as int));
        proof {
            if r@.len() > 0 {
                assert(kept(pattern@, parts@, r@[0], max_score as int));
            }
            assert(found == triples(orig));
            assert forall|k: int| 0 <= k < r@.len() implies found.contains(triple(#[trigger] r@[k])) && r@[k].score == top_score(found) by {
                assert(kept(pattern@, parts@, r@[k], max_score as int));
                assert(sorted@.contains(r@[k]));
                let a = choose|a: int| 0 <= a < sorted@.len() && sorted@[a] == r@[k];
                assert(best@.contains(sorted@[a]));
                let b = choose|b: int| 0 <= b < best@.len() && best@[b] == sorted@[a];
                assert(orig.contains(best@[b]));
                let i = choose|i: int| 0 <= i < orig.len() && orig[i] == best@[b];
                assert(found[i] == triple(orig[i]));
            }
            assert forall|i: int| 0 <= i < found.len() && (#[trigger] found[i]).0 == top_score(found) implies has_bounds(r@, found[i].1, found[i].2) by {
                assert(found[i] == triple(orig[i]));
                assert(best@.contains(orig[i]));
                let b = choose|b: int| 0 <= b < best@.len() && best@[b] == orig[i];
                assert(sorted@.contains(best@[b]));
                let a = choose|a: int| 0 <= a < sorted@.len() && sorted@[a] == best@[b];
                assert(has_bounds(r@, sorted@[a].start as int, sorted@[a].end as int));
            }
            assert forall|k: int| 0 <= k < r@.len() implies (#[trigger] r@[k]).positions@ == range_seq(r@[k].start as int, r@[k].end as int) by {
                assert(kept(pattern@, parts@, r@[k], max_score as int));
            }
            assert(best_of(r@, found, threshold(pattern@.len() as int)));
        }
        r
    }

    /// The default search: `find_parts_prefiltered`.
    pub fn find_parts(&mut self, pattern: &[u8], parts: &[&[u8]]) -> (r: Vec<Match>)
        requires
            old(self).wf(),
            joined(parts@).len() <= usize::MAX,
            pattern@.len() <= 198,
        ensures
            final(self).wf(),
            pattern@.len() == 0 || joined(parts@).len() == 0 ==> r@.len() == 0,
            !shares_byte(pattern@, joined(parts@)) ==> r@.len() == 0,
            matches_are(r@, alignments(pattern@, joined(parts@), 0)) || ({
                &&& r@.len() > 0 ==> r@[0].score >= threshold(pattern@.len() as int)
                &&& forall|k: int| 0 <= k < r@.len() ==> kept(pattern@, parts@, #[trigger] r@[k], r@[0].score as int)
                &&& forall|k: int| 0 <= k < r@.len() - 1 ==> bounds_before(#[trigger] r@[k], r@[k + 1])
            }),
            exists|w: Seq<(usize, usize)>| #[trigger] windows_cover(w, pattern@, joined(parts@)) && (if full_search_taken(
                pattern@.len() as int, joined(parts@).len() as int, w) { matches_are(r@, alignments(pattern@, joined(parts@), 0)) }
                else { best_of(r@, all_found(pattern@, parts@, w), threshold(pattern@.len() as int)) }),
    {
        self.find_parts_prefiltered(pattern, parts)
    }
}


impl SmithWaterman {
    /// `find_parts` on a single slice of text.
    pub fn find(&mut self, pattern: &[u8], text: &[u8]) -> (r: Vec<Match>)
        requires
            old(self).wf(),
            pattern@.len() <= 198,
        ensures
            final(self).wf(),
            pattern@.len() == 0 || text@.len() == 0 ==> r@.len() == 0,
            !shares_byte(pattern@, text@) ==> r@.len() == 0,
            matches_are(r@, alignments(pattern@, text@, 0)) || ({
                &&& r@.len() > 0 ==> r@[0].score >= threshold(pattern@.len() as int)
                &&& forall|k: int| 0 <= k < r@.len() ==> kept(pattern@, seq![text], #[trigger] r@[k], r@[0].score as int)
                &&& forall|k: int| 0 <= k < r@.len() - 1 ==> bounds_before(#[trigger] r@[k], r@[k + 1])
            }),
            exists|w: Seq<(usize, usize)>| #[trigger] windows_cover(w, pattern@, text@) && (if full_search_taken(
                pattern@.len() as int, text@.len() as int, w) { matches_are(r@, alignments(pattern@, text@, 0)) }
                else { best_of(r@, all_found(pattern@, seq![text], w), threshold(pattern@.len() as int)) }),
    {
        let parts: [&[u8]; 1] = [text];
        let ps: &[&[u8]] = &parts;
        proof {
            assert(text@.len() == text.len());
            assert(ps@ =~= seq![text]);
            assert(ps@.drop_last() =~= Seq::<&[u8]>::empty());
            assert(joined(ps@.drop_last()) =~= Seq::<u8>::empty());
            assert(ps@.last() == text);
            assert(joined(ps@) == joined(ps@.drop_last()) + ps@.last()@);
            assert(joined(ps@) =~= text@);
        }
        self.find_parts(pattern, ps)
    }
}

/// Text held as several byte slices, read as one.
pub struct SliceParts<'a, 'b> {
    parts: &'a [&'b [u8]],
    len: usize,
}

impl<'a, 'b> SliceParts<'a, 'b> {
    /// The bytes of all the slices in order.
    pub closed spec fn view(&self) -> Seq<u8> {
        joined(self.parts@)
    }

    pub closed spec fn wf(&self) -> bool {
        self.len == joined(self.parts@).len()
    }

    pub fn new(parts: &'a [&'b [u8]]) -> (r: Self)
        requires
            joined(parts@).len() <= usize::MAX,
        ensures
            r.wf(),
            r.view() == joined(parts@),
    {
        SliceParts { len: parts_len(parts), parts }
    }

    pub fn len(&self) -> (r: usize)
        requires
            self.wf(),
        ensures
            r == self.view().len(),
    {
        self.len
    }

    pub fn byte_at(&self, index: usize) -> (r: u8)
        requires
            self.wf(),
            index < self.view().len(),
        ensures
            r == self.view()[index as int],
    {
        byte_at(self.parts, index)
    }
}

} // verus!
