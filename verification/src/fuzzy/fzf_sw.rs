use vstd::prelude::*;
use crate::fuzzy::fzf::{
    ascii_lower, backward_from, backward_positions, find_next, folded, forward_end, forward_from,
    is_upper, lemma_backward_decreasing, lemma_backward_len, lemma_forward_last,
    lemma_next_hit_is_hit, lower, next_hit, norm, FzfMatcher, forward_hits, lemma_forward_hits,
    lemma_backward_complete, embeds,
    BONUS_BOUNDARY, BONUS_BOUNDARY_DELIMITER, BONUS_BOUNDARY_WHITE, BONUS_CAMEL123,
    BONUS_CONSECUTIVE, BONUS_FIRST_CHAR_MULTIPLIER, BONUS_NON_WORD, SCORE_GAP_EXT,
    SCORE_GAP_START, SCORE_MATCH,
};
use crate::fuzzy::{byte_at, parts_len, CompiledPattern, Match, MatchBounds};
use crate::searcher::memmem::joined;
use crate::util::{bytes_to_vec, filled_vec};

verus! {

/// Largest `pattern length * text length` that the matrices are built for.
pub const V2_I16_SLAB_LIMIT: usize = 102400;

/// Longest pattern that the matrices are built for.
pub const V2_PATTERN_LIMIT: usize = 1000;

/// The kind of a byte, for boundary bonuses; listed in increasing order.
#[derive(Debug, Clone, Copy, PartialEq, Eq, Structural)]
pub enum CharClass {
    White,
    NonWord,
    Delimiter,
    Lower,
    Upper,
    Letter,
    Number,
}

pub open spec fn class_of(b: u8) -> CharClass {
    if 97 <= b <= 122 {
        CharClass::Lower
    } else if 65 <= b <= 90 {
        CharClass::Upper
    } else if 48 <= b <= 57 {
        CharClass::Number
    } else if b == 32 || b == 9 || b == 10 || b == 13 || b == 11 || b == 12 {
        CharClass::White
    } else if b == 47 || b == 92 || b == 58 || b == 59 || b == 44 {
        CharClass::Delimiter
    } else if b >= 128 {
        CharClass::Letter
    } else {
        CharClass::NonWord
    }
}

pub fn char_class(b: u8) -> (r: CharClass)
    ensures
        r == class_of(b),
{
    if 97 <= b && b <= 122 {
        CharClass::Lower
    } else if 65 <= b && b <= 90 {
        CharClass::Upper
    } else if 48 <= b && b <= 57 {
        CharClass::Number
    } else if b == 32 || b == 9 || b == 10 || b == 13 || b == 11 || b == 12 {
        CharClass::White
    } else if b == 47 || b == 92 || b == 58 || b == 59 || b == 44 {
        CharClass::Delimiter
    } else if b >= 128 {
        CharClass::Letter
    } else {
        CharClass::NonWord
    }
}

/// The bonus for a byte of class `class` after one of class `prev`: word boundaries after
/// white space, delimiters and other non-word bytes, camel-case and digit starts, and
/// non-word bytes themselves.
pub open spec fn class_bonus(prev: CharClass, class: CharClass) -> int {
    if class != CharClass::White && prev == CharClass::White {
        BONUS_BOUNDARY_WHITE as int
    } else if class != CharClass::White && prev == CharClass::Delimiter {
        BONUS_BOUNDARY_DELIMITER as int
    } else if class != CharClass::White && prev == CharClass::NonWord {
        BONUS_BOUNDARY as int
    } else if (prev == CharClass::Lower && class == CharClass::Upper) || (prev != CharClass::Number
        && class == CharClass::Number) {
        BONUS_CAMEL123 as int
    } else if class == CharClass::NonWord || class == CharClass::Delimiter {
        BONUS_NON_WORD as int
    } else if class == CharClass::White {
        BONUS_BOUNDARY_WHITE as int
    } else {
        0
    }
}

pub fn bonus_for(prev: CharClass, class: CharClass) -> (r: i16)
    ensures
        r == class_bonus(prev, class),
        0 <= r <= 10,
{
    if class != CharClass::White {
        match prev {
            CharClass::White => {
                return BONUS_BOUNDARY_WHITE;
            },
            CharClass::Delimiter => {
                return BONUS_BOUNDARY_DELIMITER;
            },
            CharClass::NonWord => {
                return BONUS_BOUNDARY;
            },
            _ => {},
        }
    }
    if (prev == CharClass::Lower && class == CharClass::Upper) || (prev != CharClass::Number
        && class == CharClass::Number) {
        return BONUS_CAMEL123;
    }
    match class {
        CharClass::NonWord | CharClass::Delimiter => BONUS_NON_WORD,
        CharClass::White => BONUS_BOUNDARY_WHITE,
        _ => 0,
    }
}

/// The last position in `[start, end)` whose byte matches `byte`.
pub fn find_last(parts: &[&[u8]], start: usize, end: usize, byte: u8, case_sensitive: bool) -> (r: Option<usize>)
    requires
        end <= joined(parts@).len(),
    ensures
        r matches Some(q) ==> start <= q < end && norm(joined(parts@)[q as int], case_sensitive) == byte
            && forall|k: int| q < k < end ==> norm(#[trigger] joined(parts@)[k], case_sensitive) != byte,
        r is None ==> forall|k: int| start <= k < end ==> norm(#[trigger] joined(parts@)[k], case_sensitive) != byte,
{
    let mut pos = end;
    while pos > start
        invariant
            end <= joined(parts@).len(),
            start <= pos <= end || (pos == end && end < start),
            forall|k: int| pos <= k < end ==> norm(#[trigger] joined(parts@)[k], case_sensitive) != byte,
        decreases pos,
    {
        pos = pos - 1;
        let current = byte_at(parts, pos);
        let cur = if case_sensitive {
            current
        } else {
            ascii_lower(current)
        };
        if cur == byte {
            return Some(pos);
        }
    }
    None
}

/// The window that can hold a match: from just before the first occurrence of the first
/// pattern byte, to just past the last occurrence of the last pattern byte after the
/// leftmost greedy match; `None` when the pattern is not a subsequence of the text.
pub fn ascii_fuzzy_index(parts: &[&[u8]], pattern: &[u8], case_sensitive: bool) -> (r: Option<(usize, usize)>)
    requires
        joined(parts@).len() <= usize::MAX,
        pattern@.len() >= 1,
        case_sensitive || folded(pattern@),
    ensures
        r is None <==> forward_from(joined(parts@), pattern@, case_sensitive, 0, 0, 0) is None,
        r matches Some(w) ==> w.0 < w.1 <= joined(parts@).len() && w.1 - w.0 >= pattern@.len(),
        r matches Some(w) ==> window_of(joined(parts@), pattern@, case_sensitive, w.0 as int, w.1 as int),
{
    let ghost t = joined(parts@);
    let mut first_idx: usize = 0;
    let mut idx: usize = 0;
    let mut last_idx: usize = 0;
    let mut last_byte: u8 = 0;
    let mut pidx: usize = 0;
    while pidx < pattern.len()
        invariant
            t == joined(parts@),
            t.len() <= usize::MAX,
            case_sensitive || folded(pattern@),
            pidx <= pattern@.len(),
            pidx == 0 ==> idx == 0 && first_idx == 0,
            pidx > 0 ==> idx == last_idx + 1 && last_idx < t.len() && first_idx + pidx <= idx,
            pidx > 0 ==> first_idx <= last_idx,
            forward_from(t, pattern@, case_sensitive, 0, 0, 0) == forward_from(t, pattern@, case_sensitive, pidx as int, idx as int, idx as int),
            pidx > 0 ==> (next_hit(t, 0, pattern@[0], case_sensitive) matches Some(f) && first_idx == (if f > 0 { f - 1 } else { 0 })),
            pidx > 0 ==> last_byte == pattern@[pidx - 1] && norm(t[last_idx as int], case_sensitive) == last_byte,
        decreases pattern@.len() - pidx,
    {
        let byte = pattern[pidx];
        match find_next(parts, idx, byte, case_sensitive) {
            None => {
                return None;
            },
            Some(pos) => {
                proof {
                    lemma_next_hit_is_hit(t, idx as int, byte, case_sensitive);
                }
                if pidx == 0 && pos > 0 {
                    first_idx = pos - 1;
                }
                last_idx = pos;
                last_byte = byte;
                idx = pos + 1;
            },
        }
        pidx = pidx + 1;
    }
    let total_len = parts_len(parts);
    if last_idx + 1 < total_len {
        if let Some(end) = find_last(parts, last_idx + 1, total_len, last_byte, case_sensitive) {
            return Some((first_idx, end + 1));
        }
    }
    Some((first_idx, last_idx + 1))
}


/// The window `[lo, hi)` for pattern `p` in text `t`: it opens one byte before the first
/// occurrence of the first pattern byte (or at 0), and closes just past the last occurrence of
/// the last pattern byte at or after where the leftmost greedy match ends.
pub open spec fn window_of(t: Seq<u8>, p: Seq<u8>, cs: bool, lo: int, hi: int) -> bool {
    &&& next_hit(t, 0, p[0], cs) matches Some(f) && lo == (if f > 0 { f - 1 } else { 0 })
    &&& forward_from(t, p, cs, 0, 0, 0) matches Some(e) && e <= hi <= t.len()
    &&& norm(t[hi - 1], cs) == p.last()
    &&& forall|k: int| hi <= k < t.len() ==> norm(#[trigger] t[k], cs) != p.last()
}

/// Positions strictly increasing and below `bound`.
pub open spec fn increasing_below(s: Seq<usize>, bound: int) -> bool {
    &&& forall|a: int, b: int| 0 <= a < b < s.len() ==> #[trigger] s[a] < #[trigger] s[b]
    &&& forall|a: int| 0 <= a < s.len() ==> #[trigger] s[a] < bound
}

/// A v2 result is a range of the text with its positions: the range runs from the first
/// matched position to just past the last one, and the positions are listed when asked for.
pub open spec fn well_placed(r: Option<Match>, text_len: int, with_positions: bool) -> bool {
    r matches Some(m) ==> {
        &&& m.start < m.end <= text_len
        &&& with_positions ==> increasing_below(m.positions@, text_len) && m.positions@.len() >= 1
            && m.positions@[0] == m.start && m.positions@.last() + 1 == m.end
        &&& !with_positions ==> m.positions@.len() == 0
    }
}

/// The fzf v2 matcher: a Smith-Waterman style score matrix with fzf's bonuses, and fast
/// paths for one- and two-byte patterns.
pub struct FzfV2Matcher {
    pattern: Vec<u8>,
    text: Vec<u8>,
    h0: Vec<i16>,
    c0: Vec<i16>,
    bonus: Vec<i16>,
    first: Vec<usize>,
    h: Vec<i16>,
    c: Vec<i16>,
    score_rows: Vec<Vec<i16>>,
    run_rows: Vec<Vec<i16>>,
    positions: Vec<usize>,
    fallback: FzfMatcher,
    with_positions: bool,
}

/// `v` resized to `n`: cut short, or lengthened with zeros.
fn resize_i16(v: &mut Vec<i16>, n: usize)
    ensures
        final(v)@.len() == n,
        forall|k: int| 0 <= k < n && k < old(v)@.len() ==> final(v)@[k] == old(v)@[k],
        forall|k: int| old(v)@.len() <= k < n ==> final(v)@[k] == 0,
{
    if v.len() > n {
        v.truncate(n);
    } else {
        let ghost start = v@;
        while v.len() < n
            invariant
                v@.len() <= n,
                start.len() <= v@.len(),
                forall|k: int| 0 <= k < start.len() ==> v@[k] == start[k],
                forall|k: int| start.len() <= k < v@.len() ==> v@[k] == 0,
            decreases n - v@.len(),
        {
            v.push(0);
        }
    }
}

fn resize_usize(v: &mut Vec<usize>, n: usize)
    ensures
        final(v)@.len() == n,
{
    if v.len() > n {
        v.truncate(n);
    } else {
        while v.len() < n
            invariant
                v@.len() <= n,
            decreases n - v@.len(),
        {
            v.push(0);
        }
    }
}

/// The score rows and consecutive-run rows of the general matrix: `width` cells each, scores
/// in row `r` between 0 and `36 + 26 r`, runs in row `r` at most `r + 1` and at most one more
/// than the cell's column.
pub open spec fn rows_bounded(hs: Seq<Vec<i16>>, cs: Seq<Vec<i16>>, width: int) -> bool {
    &&& cs.len() == hs.len()
    &&& forall|r: int| 0 <= r < hs.len() ==> (#[trigger] hs[r])@.len() == width
    &&& forall|r: int| 0 <= r < cs.len() ==> (#[trigger] cs[r])@.len() == width
    &&& forall|r: int, x: int| 0 <= r < hs.len() && 0 <= x < width ==> 0 <= #[trigger] hs[r]@[x]
        <= 36 + 26 * r
    &&& forall|r: int, x: int| 0 <= r < cs.len() && 0 <= x < width ==> 0 <= #[trigger] cs[r]@[x]
        <= r + 1 && cs[r]@[x] <= x + 1
}

/// The class of the byte before `idx` (white space before the text).
pub open spec fn class_before(t: Seq<u8>, idx: int) -> CharClass {
    if idx > 0 {
        class_of(t[idx - 1])
    } else {
        CharClass::White
    }
}

/// The running state of scoring a window against given positions. Sums wrap at the `i16`
/// bounds.
pub struct WindowScore {
    pub score: i16,
    pub in_gap: bool,
    pub consecutive: i16,
    pub first_bonus: i16,
    pub pidx: int,
}

/// One step of window scoring at `idx`: a listed position scores a match with its boundary
/// bonus (doubled for the first position, raised within a run of consecutive positions);
/// any other byte opens or extends a gap.
pub open spec fn window_step(t: Seq<u8>, ps: Seq<usize>, idx: int, s: WindowScore) -> WindowScore {
    let b = class_bonus(class_before(t, idx), class_of(t[idx]));
    if 0 <= s.pidx < ps.len() && ps[s.pidx] == idx {
        let first_bonus = if s.consecutive == 0 {
            b
        } else if b >= BONUS_BOUNDARY && b > s.first_bonus {
            b
        } else {
            s.first_bonus as int
        };
        let b2 = if s.consecutive == 0 {
            b
        } else {
            let m = if b >= first_bonus { b } else { first_bonus };
            if m >= BONUS_CONSECUTIVE { m } else { BONUS_CONSECUTIVE as int }
        };
        let gain = if s.pidx == 0 { b2 * 2 } else { b2 };
        WindowScore {
            score: s.score.wrapping_add(SCORE_MATCH).wrapping_add(gain as i16),
            in_gap: false,
            consecutive: s.consecutive.wrapping_add(1),
            first_bonus: first_bonus as i16,
            pidx: s.pidx + 1,
        }
    } else {
        WindowScore {
            score: s.score.wrapping_add(if s.in_gap { SCORE_GAP_EXT } else { SCORE_GAP_START }),
            in_gap: true,
            consecutive: 0,
            first_bonus: 0,
            pidx: s.pidx,
        }
    }
}

/// The scoring state after `t[start..idx]`.
pub open spec fn window_upto(t: Seq<u8>, ps: Seq<usize>, start: int, idx: int) -> WindowScore
    decreases idx - start,
{
    if idx <= start {
        WindowScore { score: 0, in_gap: false, consecutive: 0, first_bonus: 0, pidx: 0 }
    } else {
        window_step(t, ps, idx - 1, window_upto(t, ps, start, idx - 1))
    }
}

/// The score of the window spanned by the positions `ps`.
pub open spec fn window_score(t: Seq<u8>, ps: Seq<usize>) -> i16 {
    window_upto(t, ps, ps[0] as int, ps.last() + 1).score
}

/// The score of the window from the first to the last of `positions`, those positions
/// counting as matches.
pub fn score_window(parts: &[&[u8]], positions: &[usize]) -> (r: i16)
    requires
        joined(parts@).len() <= usize::MAX,
        positions@.len() >= 1,
        increasing_below(positions@, joined(parts@).len() as int),
    ensures
        r == window_score(joined(parts@), positions@),
{
    let ghost t = joined(parts@);
    let ghost ps = positions@;
    let mut score: i16 = 0;
    let mut in_gap = false;
    let mut consecutive: i16 = 0;
    let mut first_bonus: i16 = 0;
    let mut pidx: usize = 0;
    let start = positions[0];
    let end = positions[positions.len() - 1] + 1;
    let mut prev_class = if start > 0 {
        char_class(byte_at(parts, start - 1))
    } else {
        CharClass::White
    };
    proof {
        if ps.len() > 1 {
            assert(ps[0] < ps[ps.len() - 1]);
        }
    }
    let mut idx = start;
    while idx < end
        invariant
            t == joined(parts@),
            t.len() <= usize::MAX,
            ps == positions@,
            start == ps[0],
            start <= idx <= end,
            end == ps.last() + 1,
            end <= t.len(),
            prev_class == class_before(t, idx as int),
            0 <= pidx <= ps.len(),
            (WindowScore { score, in_gap, consecutive, first_bonus, pidx: pidx as int }) == window_upto(
                t,
                ps,
                start as int,
                idx as int,
            ),
        decreases end - idx,
    {
        let class = char_class(byte_at(parts, idx));
        let is_next = pidx < positions.len() && positions[pidx] == idx;
        if is_next {
            score = score.wrapping_add(SCORE_MATCH);
            let mut bonus = bonus_for(prev_class, class);
            if consecutive == 0 {
                first_bonus = bonus;
            } else {
                if bonus >= BONUS_BOUNDARY && bonus > first_bonus {
                    first_bonus = bonus;
                }
                bonus = max_i16(max_i16(bonus, first_bonus), BONUS_CONSECUTIVE);
            }
            if pidx == 0 {
                score = score.wrapping_add(bonus * BONUS_FIRST_CHAR_MULTIPLIER);
            } else {
                score = score.wrapping_add(bonus);
            }
            in_gap = false;
            consecutive = consecutive.wrapping_add(1);
            pidx = pidx + 1;
        } else {
            if in_gap {
                score = score.wrapping_add(SCORE_GAP_EXT);
            } else {
                score = score.wrapping_add(SCORE_GAP_START);
            }
            in_gap = true;
            consecutive = 0;
            first_bonus = 0;
        }
        prev_class = class;
        idx = idx + 1;
    }
    score
}

/// The positions of the greedy match: the leftmost greedy occurrence fixes the end, and
/// matching backwards from there gives the positions (in increasing order).
pub open spec fn greedy_positions(t: Seq<u8>, p: Seq<u8>, cs: bool) -> Option<Seq<usize>> {
    match forward_from(t, p, cs, 0, 0, 0) {
        None => None,
        Some(e) => Some(backward_from(t, p, cs, p.len() as int, e).reverse()),
    }
}

/// Too big for the score matrices: a pattern over the length limit, or a pattern and text
/// whose product is over the cell limit.
pub open spec fn too_big(m: int, tl: int) -> bool {
    m > V2_PATTERN_LIMIT || m * tl > V2_I16_SLAB_LIMIT
}

/// What the prepared search gives for text `t` and pattern `p`: always a well-placed
/// range; nothing for an empty pattern or one longer than the text; past the matrix
/// limits, the greedy match scored over its window when case matters and nothing
/// otherwise; for one byte, its best occurrence, present exactly when the byte occurs;
/// otherwise scored by the matrix over the pattern's window of the text.
pub open spec fn prepared_result(r: Option<Match>, t: Seq<u8>, p: Seq<u8>, cs: bool, with_positions: bool) -> bool {
    &&& well_placed(r, t.len() as int, with_positions)
    &&& (p.len() == 0 || p.len() > t.len()) ==> r is None
    &&& (1 <= p.len() <= t.len() && too_big(p.len() as int, t.len() as int) && !cs) ==> r is None
    &&& (1 <= p.len() <= t.len() && too_big(p.len() as int, t.len() as int) && cs) ==> match greedy_positions(t, p, cs) {
        None => r is None,
        Some(ps) => r matches Some(m) && m.score == window_score(t, ps) && m.start == ps[0] && m.end
            == ps.last() + 1 && (with_positions ==> m.positions@ == ps),
    }
    &&& (p.len() == 1 && 1 <= t.len() && !too_big(1, t.len() as int)) ==> (r is None <==> next_hit(t, 0, p[0], cs) is None)
        && (r matches Some(m) ==> m.end == m.start + 1 && norm(t[m.start as int], cs) == p[0])
    &&& r matches Some(m) ==> (with_positions ==> embeds(t, p, cs, m.positions@))
    &&& (p.len() >= 1 && !(p.len() <= t.len() && too_big(p.len() as int, t.len() as int) && !cs)) ==> (r is Some
        <==> forward_from(t, p, cs, 0, 0, 0) is Some)
    &&& (p.len() == 1 && 1 <= t.len() && !too_big(1, t.len() as int)) ==> (r matches Some(m) ==> m.score == single_scan(t, p[0],
        cs, 0, 0, None).0 && single_scan(t, p[0], cs, 0, 0, None).1 == Some(m.start as int))
    &&& (p.len() == 2 && 2 <= t.len() && !too_big(2, t.len() as int)) ==> (r matches Some(m) ==> exists|lo: int, hi: int|
        #[trigger] window_of(t, p, cs, lo, hi) && m.score == two_rows(t, lo, p[0], p[1], cs, hi - lo).best && two_match_at(m, t,
        lo, hi, p, cs, with_positions))
    &&& (3 <= p.len() <= t.len() && !too_big(p.len() as int, t.len() as int)) ==> (r matches Some(m) ==> exists|lo: int, hi: int|
        #[trigger] window_of(t, p, cs, lo, hi) && m.score == gen_score(t, lo, hi - lo, p, cs) && gen_match_at(m, t, lo, hi, p, cs,
        with_positions))
}

/// The two-byte match `m` is the walk back from the best second-row cell of the window
/// `[lo, hi)`.
pub open spec fn two_match_at(m: Match, t: Seq<u8>, lo: int, hi: int, p: Seq<u8>, cs: bool, with_positions: bool) -> bool {
    let rows = two_rows(t, lo, p[0], p[1], cs, hi - lo);
    let walk = two_walk(t, lo, p[0], p[1], cs, hi - lo, rows.f0->0, rows.f1->0, 1, rows.best_pos, true);
    &&& walk.len() == 2
    &&& m.start == walk[1]
    &&& m.end == walk[0] + 1
    &&& with_positions ==> m.positions@ == walk.reverse()
}

/// The match `m` is the walk back from the best last-row cell of the matrix over the window
/// `[lo, hi)`.
pub open spec fn gen_match_at(m: Match, t: Seq<u8>, lo: int, hi: int, p: Seq<u8>, cs: bool, with_positions: bool) -> bool {
    let tx = win_text(t, lo, hi - lo, cs);
    let bn = win_bonuses(t, lo, hi - lo);
    let firsts = win_firsts(tx, p);
    let last = gen_last(tx, p[p.len() - 1], hi - lo);
    let walk = gen_walk(tx, bn, p, firsts, firsts[0], last, p.len() - 1, gen_best(tx, bn, p, firsts, last).1, true);
    &&& walk.len() == p.len()
    &&& m.start == lo + walk.last()
    &&& m.end == lo + walk[0] + 1
    &&& with_positions ==> m.positions@ == walk.reverse().map_values(|c: int| (lo + c) as usize)
}

/// Bytes with ASCII upper case lowered.
pub open spec fn lowered(p: Seq<u8>) -> Seq<u8> {
    p.map_values(|b: u8| lower(b))
}

/// The score and range of a match.
pub open spec fn bounds_of(m: Option<Match>) -> Option<MatchBounds> {
    match m {
        Some(x) => Some(MatchBounds { score: x.score, start: x.start, end: x.end }),
        None => None,
    }
}

/// A list of the match, if there is one.
pub open spec fn option_seq(m: Option<Match>) -> Seq<Match> {
    match m {
        Some(x) => seq![x],
        None => Seq::empty(),
    }
}

/// A score row drops where its byte does not match: such a cell (from column `from` on)
/// holds nothing, or less than the cell before it.
pub open spec fn row_drops(row: Seq<i16>, text: Seq<u8>, f0: int, from: int, byte: u8, upto: int) -> bool {
    forall|x: int| from <= x < upto && text[f0 + x] != byte ==> #[trigger] row[x] == 0 || (x > from && row[x] < row[x - 1])
}

/// The score rows can be walked back: each drops where its pattern byte does not match,
/// the first row starts high, and each later row starts above the cell before it in the
/// row above.
#[verifier::opaque]
pub open spec fn rows_sound(hs: Seq<Vec<i16>>, text: Seq<u8>, p: Seq<u8>, first: Seq<usize>, f0: int, width: int) -> bool {
    &&& forall|r: int| 0 <= r < hs.len() ==> row_drops((#[trigger] hs[r])@, text, f0, first[r] - f0, p[r], width)
    &&& hs.len() >= 1 ==> hs[0]@[0] >= 16
    &&& forall|r: int| 1 <= r < hs.len() ==> (#[trigger] hs[r])@[first[r] - f0] >= hs[r - 1]@[first[r] - f0 - 1] + 16
}

/// The state of the two-byte score rows after the first `k` columns of the window from `lo`:
/// the first-byte score, run and bonus of the last column and its class, whether the
/// first-byte row is in a gap, the first column holding the first byte and the first later
/// one holding the second, the second-byte score of the last column scored and whether that
/// row is in a gap, its run length, and the best second-byte score so far with its first
/// column.
pub struct TwoRows {
    pub h0: int,
    pub c0: int,
    pub bonus: int,
    pub class: CharClass,
    pub in_gap0: bool,
    pub f0: Option<int>,
    pub f1: Option<int>,
    pub h1: int,
    pub c1: int,
    pub in_gap1: bool,
    pub best: int,
    pub best_pos: int,
}

/// The second-byte score of a column holding the second byte, after a first-byte score
/// `h0`, run `c0` and bonus `bonus_prev` in the column before, with this column's bonus, and
/// `s2` the score of continuing a gap: the match with its first-byte or run bonus, the
/// column's own bonus alone where that beats the gap.
pub open spec fn two_match_score(h0: int, c0: int, bonus_prev: int, bonus: int, s2: int) -> int {
    let consecutive = c0 + 1;
    let b = if consecutive > 1 && !(bonus >= BONUS_BOUNDARY && bonus > bonus_prev) {
        let m = if bonus >= BONUS_CONSECUTIVE { bonus } else { BONUS_CONSECUTIVE as int };
        if m >= bonus_prev { m } else { bonus_prev }
    } else {
        bonus
    };
    let s1 = h0 + SCORE_MATCH;
    if s1 + b < s2 { s1 + bonus } else { s1 + b }
}

/// The run length recorded with `two_match_score`: one more than the run before, restarted
/// at a stronger boundary, and none where the gap wins.
pub open spec fn two_match_run(h0: int, c0: int, bonus_prev: int, bonus: int, s2: int) -> int {
    let consecutive = c0 + 1;
    let restart = consecutive > 1 && bonus >= BONUS_BOUNDARY && bonus > bonus_prev;
    let b = if consecutive > 1 && !restart {
        let m = if bonus >= BONUS_CONSECUTIVE { bonus } else { BONUS_CONSECUTIVE as int };
        if m >= bonus_prev { m } else { bonus_prev }
    } else {
        bonus
    };
    let s1 = h0 + SCORE_MATCH;
    if s1 + b < s2 { 0 } else if restart { 1 } else { consecutive }
}

/// The state of the two-byte score rows after the first `k` columns of the window.
#[verifier::opaque]
pub open spec fn two_rows(t: Seq<u8>, lo: int, p0: u8, p1: u8, cs: bool, k: int) -> TwoRows
    decreases k,
{
    if k <= 0 {
        TwoRows { h0: 0, c0: 0, bonus: 0, class: CharClass::White, in_gap0: false, f0: None, f1: None, h1: 0, c1: 0,
            in_gap1: false, best: 0, best_pos: 0 }
    } else {
        two_rows_next(two_rows(t, lo, p0, p1, cs, k - 1), t, lo, p0, p1, cs, k - 1)
    }
}

/// The state after column `off` of the window, from the state `s` before it.
pub open spec fn two_rows_next(s: TwoRows, t: Seq<u8>, lo: int, p0: u8, p1: u8, cs: bool, off: int) -> TwoRows {
    let byte = t[lo + off];
    let class = class_of(byte);
    let lw = norm(byte, cs);
    let bonus = class_bonus(s.class, class);
    let f0 = if s.f0 is None && lw == p0 { Some(off) } else { s.f0 };
    let f1 = if s.f0 is Some && s.f1 is None && lw == p1 { Some(off) } else { s.f1 };
    let h0 = if lw == p0 {
        SCORE_MATCH + bonus * BONUS_FIRST_CHAR_MULTIPLIER
    } else {
        let g = s.h0 + (if s.in_gap0 { SCORE_GAP_EXT as int } else { SCORE_GAP_START as int });
        if g >= 0 { g } else { 0 }
    };
    let c0 = if lw == p0 { 1int } else { 0int };
    let scored = f1 matches Some(f) && off >= f;
    let hleft = if f1 == Some(off) { 0 } else { s.h1 };
    let s2 = hleft + (if s.in_gap1 { SCORE_GAP_EXT as int } else { SCORE_GAP_START as int });
    let s1 = if lw == p1 { two_match_score(s.h0, s.c0, s.bonus, bonus, s2) } else { 0 };
    let run = if lw == p1 { two_match_run(s.h0, s.c0, s.bonus, bonus, s2) } else { 0 };
    let m12 = if s1 >= s2 { s1 } else { s2 };
    let score = if m12 >= 0 { m12 } else { 0 };
    TwoRows {
        h0,
        c0,
        bonus,
        class,
        in_gap0: lw != p0,
        f0,
        f1,
        h1: if scored { score } else { s.h1 },
        c1: if scored { run } else { s.c1 },
        in_gap1: if scored { s1 < s2 } else { s.in_gap1 },
        best: if scored && score > s.best { score } else { s.best },
        best_pos: if scored && score > s.best { off } else { s.best_pos },
    }
}

proof fn lemma_two_rows_step(t: Seq<u8>, lo: int, p0: u8, p1: u8, cs: bool, k: int)
    ensures
        k <= 0 ==> two_rows(t, lo, p0, p1, cs, k) == (TwoRows { h0: 0, c0: 0, bonus: 0, class: CharClass::White, in_gap0: false,
            f0: None, f1: None, h1: 0, c1: 0, in_gap1: false, best: 0, best_pos: 0 }),
        k > 0 ==> two_rows(t, lo, p0, p1, cs, k) == two_rows_next(two_rows(t, lo, p0, p1, cs, k - 1), t, lo, p0, p1, cs, k - 1),
{
    reveal(two_rows);
}

/// The walk back over the two-byte score rows of the window from `lo` (`n` columns, the
/// first byte first found at column `f0`, the second after it at `f1`): from column `j` of
/// row `row`, a position is kept where the cell beats its diagonal and its left neighbour
/// (or ties the left one while a run is preferred); after a kept second byte the walk moves
/// to the first-byte row, and it ends at the kept first byte or at column 0. The kept
/// positions, in the order kept (last first).
#[verifier::opaque]
pub open spec fn two_walk(t: Seq<u8>, lo: int, p0: u8, p1: u8, cs: bool, n: int, f0: int, f1: int, row: int, j: int, prefer: bool) -> Seq<usize>
    decreases j,
{
    if j < 0 {
        Seq::empty()
    } else {
        let here = two_rows(t, lo, p0, p1, cs, j + 1);
        let back = two_rows(t, lo, p0, p1, cs, j);
        let score = if row == 1 { here.h1 } else { here.h0 };
        let diagonal = if row == 1 && j >= f1 { back.h0 } else { 0 };
        let left = if row == 1 { if j > f1 { back.h1 } else { 0 } } else { if j > f0 { back.h0 } else { 0 } };
        let run = if row == 1 { here.c1 } else { here.c0 };
        let pushed = score > diagonal && (score > left || score == left && prefer);
        let kept: Seq<usize> = if pushed { seq![(j + lo) as usize] } else { Seq::empty() };
        if pushed && row == 0 {
            kept
        } else {
            let next_row = if pushed { 0 } else { row };
            let next_prefer = run > 1 || (row == 0 && j + 1 < n && j + 1 >= f1 && two_rows(t, lo, p0, p1, cs, j + 2).c1 > 0);
            if j == 0 {
                kept
            } else {
                kept + two_walk(t, lo, p0, p1, cs, n, f0, f1, next_row, j - 1, next_prefer)
            }
        }
    }
}

proof fn lemma_two_walk_step(t: Seq<u8>, lo: int, p0: u8, p1: u8, cs: bool, n: int, f0: int, f1: int, row: int, j: int, prefer: bool)
    requires
        j >= 0,
    ensures
        ({
            let here = two_rows(t, lo, p0, p1, cs, j + 1);
            let back = two_rows(t, lo, p0, p1, cs, j);
            let score = if row == 1 { here.h1 } else { here.h0 };
            let diagonal = if row == 1 && j >= f1 { back.h0 } else { 0 };
            let left = if row == 1 { if j > f1 { back.h1 } else { 0 } } else { if j > f0 { back.h0 } else { 0 } };
            let run = if row == 1 { here.c1 } else { here.c0 };
            let pushed = score > diagonal && (score > left || score == left && prefer);
            let kept: Seq<usize> = if pushed { seq![(j + lo) as usize] } else { Seq::empty() };
            let next_row = if pushed { 0 } else { row };
            let next_prefer = run > 1 || (row == 0 && j + 1 < n && j + 1 >= f1 && two_rows(t, lo, p0, p1, cs, j + 2).c1 > 0);
            two_walk(t, lo, p0, p1, cs, n, f0, f1, row, j, prefer) == if pushed && row == 0 || j == 0 {
                kept
            } else {
                kept + two_walk(t, lo, p0, p1, cs, n, f0, f1, next_row, j - 1, next_prefer)
            }
        }),
{
    reveal(two_walk);
}

/// The stored first-byte rows hold the first `off` columns of the two-byte score rows, and
/// the second-byte rows hold them from the first column holding the second byte.
#[verifier::opaque]
pub open spec fn two_arrays(h0: Seq<i16>, c0: Seq<i16>, h: Seq<i16>, c: Seq<i16>, t: Seq<u8>, lo: int, p0: u8, p1: u8, cs: bool, off: int, f1: Option<usize>) -> bool {
    &&& forall|k: int| 0 <= k < off ==> #[trigger] h0[k] == two_rows(t, lo, p0, p1, cs, k + 1).h0 && c0[k] == two_rows(t, lo, p0, p1, cs, k + 1).c0
    &&& f1 matches Some(x) ==> forall|k: int| x <= k < off ==> #[trigger] h[k] == two_rows(t, lo, p0, p1, cs, k + 1).h1 && c[k] == two_rows(t, lo, p0, p1, cs, k + 1).c1
}

proof fn lemma_two_arrays_step(h0s: Seq<i16>, c0s: Seq<i16>, hs: Seq<i16>, cs1: Seq<i16>, h0n: Seq<i16>, c0n: Seq<i16>, hn: Seq<i16>, cn: Seq<i16>,
    t: Seq<u8>, lo: int, p0: u8, p1: u8, cs: bool, off: int, f1_old: Option<usize>, f1_new: Option<usize>)
    requires
        two_arrays(h0s, c0s, hs, cs1, t, lo, p0, p1, cs, off, f1_old),
        0 <= off < h0s.len(),
        off < c0s.len(),
        off < hs.len(),
        off < cs1.len(),
        h0n == h0s.update(off, h0n[off]),
        c0n == c0s.update(off, c0n[off]),
        h0n[off] == two_rows(t, lo, p0, p1, cs, off + 1).h0,
        c0n[off] == two_rows(t, lo, p0, p1, cs, off + 1).c0,
        f1_old matches Some(x) ==> f1_new == f1_old,
        f1_old is None ==> (f1_new matches Some(x) ==> x == off),
        f1_new matches Some(x) ==> x <= off && hn == hs.update(off, hn[off]) && cn == cs1.update(off, cn[off])
            && hn[off] == two_rows(t, lo, p0, p1, cs, off + 1).h1 && cn[off] == two_rows(t, lo, p0, p1, cs, off + 1).c1,
    ensures
        two_arrays(h0n, c0n, hn, cn, t, lo, p0, p1, cs, off + 1, f1_new),
{
    reveal(two_arrays);
    assert forall|k: int| 0 <= k < off + 1 implies #[trigger] h0n[k] == two_rows(t, lo, p0, p1, cs, k + 1).h0 && c0n[k] == two_rows(t, lo, p0, p1, cs, k + 1).c0 by {
        if k < off {
            assert(h0n[k] == h0s[k] && c0n[k] == c0s[k]);
            assert(h0s[k] == two_rows(t, lo, p0, p1, cs, k + 1).h0);
        }
    }
    if f1_new is Some {
        let x = f1_new->0;
        assert forall|k: int| x <= k < off + 1 implies #[trigger] hn[k] == two_rows(t, lo, p0, p1, cs, k + 1).h1 && cn[k] == two_rows(t, lo, p0, p1, cs, k + 1).c1 by {
            if k < off {
                assert(f1_old == f1_new || f1_old is None);
                if f1_old is None {
                    assert(x == off);
                } else {
                    assert(hn[k] == hs[k] && cn[k] == cs1[k]);
                    assert(hs[k] == two_rows(t, lo, p0, p1, cs, k + 1).h1);
                }
            }
        }
    }
    assert(two_arrays(h0n, c0n, hn, cn, t, lo, p0, p1, cs, off + 1, f1_new));
}

/// Reading one column of `two_arrays`.
proof fn lemma_two_arrays_at(h0: Seq<i16>, c0: Seq<i16>, h: Seq<i16>, c: Seq<i16>, t: Seq<u8>, lo: int, p0: u8, p1: u8, cs: bool, off: int, f1: usize, k: int)
    requires
        two_arrays(h0, c0, h, c, t, lo, p0, p1, cs, off, Some(f1)),
        0 <= k < off,
    ensures
        h0[k] == two_rows(t, lo, p0, p1, cs, k + 1).h0,
        c0[k] == two_rows(t, lo, p0, p1, cs, k + 1).c0,
        f1 <= k ==> h[k] == two_rows(t, lo, p0, p1, cs, k + 1).h1 && c[k] == two_rows(t, lo, p0, p1, cs, k + 1).c1,
{
    reveal(two_arrays);
    assert(h0[k] == h0[k]);
    if f1 <= k {
        assert(h[k] == h[k]);
    }
}

/// The boundary bonus of column `k` of the window from `lo` (white space before the window).
pub open spec fn win_bonus(t: Seq<u8>, lo: int, k: int) -> int {
    class_bonus(if k == 0 { CharClass::White } else { class_of(t[lo + k - 1]) }, class_of(t[lo + k]))
}

/// The window's bytes as the matcher compares them.
pub open spec fn win_text(t: Seq<u8>, lo: int, n: int, cs: bool) -> Seq<u8> {
    Seq::new(n as nat, |k: int| norm(t[lo + k], cs))
}

/// The window's boundary bonuses.
pub open spec fn win_bonuses(t: Seq<u8>, lo: int, n: int) -> Seq<int> {
    Seq::new(n as nat, |k: int| win_bonus(t, lo, k))
}

/// The first-byte score of column `k` of the window `tx` with bonuses `bn`: the match with
/// twice its bonus where the byte is `p0`, else the score before less the gap penalty (a
/// larger one where the gap opens), never below 0.
pub open spec fn gen_h0(tx: Seq<u8>, bn: Seq<int>, p0: u8, k: int) -> int
    decreases k + 1,
{
    if k < 0 {
        0
    } else if tx[k] == p0 {
        SCORE_MATCH + bn[k] * BONUS_FIRST_CHAR_MULTIPLIER
    } else {
        let g = gen_h0(tx, bn, p0, k - 1) + (if k > 0 && tx[k - 1] != p0 { SCORE_GAP_EXT as int } else { SCORE_GAP_START as int });
        if g >= 0 { g } else { 0 }
    }
}

/// The first column from `from` on holding `c` (the window's length when none does).
pub open spec fn win_hit(tx: Seq<u8>, c: u8, from: int) -> int
    decreases tx.len() - from,
{
    if from < 0 || from >= tx.len() {
        tx.len() as int
    } else if tx[from] == c {
        from
    } else {
        win_hit(tx, c, from + 1)
    }
}

/// Where byte `i` of the pattern is first found, each after the one before.
pub open spec fn gen_first(tx: Seq<u8>, pat: Seq<u8>, i: int) -> int
    decreases i,
{
    if i <= 0 {
        win_hit(tx, pat[0], 0)
    } else {
        win_hit(tx, pat[i], gen_first(tx, pat, i - 1) + 1)
    }
}

/// The last column below `k` holding `c` (-1 when none does).
pub open spec fn gen_last(tx: Seq<u8>, c: u8, k: int) -> int
    decreases k,
{
    if k <= 0 {
        -1
    } else if tx[k - 1] == c {
        k - 1
    } else {
        gen_last(tx, c, k - 1)
    }
}

/// The cell of row `p` (from 1) at column `col` of the score matrix: score, run length,
/// and whether the row is in a gap after it. Columns before the row's first one are empty.
#[verifier::opaque]
pub open spec fn gen_cell(tx: Seq<u8>, bn: Seq<int>, pat: Seq<u8>, first: Seq<int>, p: int, col: int) -> (int, int, bool)
    decreases p, col + 1,
{
    if p <= 0 || col < 0 || col < first[p] {
        (0, 0, false)
    } else {
        gen_cell_next(tx, bn, pat, first, p, col, gen_cell(tx, bn, pat, first, p, col - 1), if p == 1 {
            (gen_h0(tx, bn, pat[0], col - 1), if col >= 1 && tx[col - 1] == pat[0] { 1int } else { 0int })
        } else {
            let c = gen_cell(tx, bn, pat, first, p - 1, col - 1);
            (c.0, c.1)
        })
    }
}

/// A cell from the one to its left and the one diagonally above (score and run).
pub open spec fn gen_cell_next(tx: Seq<u8>, bn: Seq<int>, pat: Seq<u8>, first: Seq<int>, p: int, col: int, left: (int, int, bool), prev: (int, int)) -> (int, int, bool) {
    let s2 = left.0 + (if left.2 { SCORE_GAP_EXT as int } else { SCORE_GAP_START as int });
    if pat[p] == tx[col] {
        let s1 = prev.0 + SCORE_MATCH;
        let cons = prev.1 + 1;
        let restart = cons > 1 && bn[col] >= BONUS_BOUNDARY && bn[col] > bn[col + 1 - cons];
        let b = if cons > 1 && !restart {
            let m1 = if bn[col] >= BONUS_CONSECUTIVE { bn[col] } else { BONUS_CONSECUTIVE as int };
            if m1 >= bn[col + 1 - cons] { m1 } else { bn[col + 1 - cons] }
        } else {
            bn[col]
        };
        let s1f = if s1 + b < s2 { s1 + bn[col] } else { s1 + b };
        let consf = if s1 + b < s2 { 0 } else if restart { 1 } else { cons };
        let m12 = if s1f >= s2 { s1f } else { s2 };
        (if m12 >= 0 { m12 } else { 0 }, consf, s1f < s2)
    } else {
        (if s2 >= 0 { s2 } else { 0 }, 0, 0 < s2)
    }
}

proof fn lemma_gen_cell_step(tx: Seq<u8>, bn: Seq<int>, pat: Seq<u8>, first: Seq<int>, p: int, col: int)
    ensures
        (p <= 0 || col < 0 || col < first[p]) ==> gen_cell(tx, bn, pat, first, p, col) == (0int, 0int, false),
        !(p <= 0 || col < 0 || col < first[p]) ==> gen_cell(tx, bn, pat, first, p, col) == gen_cell_next(tx, bn, pat, first, p, col,
            gen_cell(tx, bn, pat, first, p, col - 1), if p == 1 {
                (gen_h0(tx, bn, pat[0], col - 1), if col >= 1 && tx[col - 1] == pat[0] { 1int } else { 0int })
            } else {
                let c = gen_cell(tx, bn, pat, first, p - 1, col - 1);
                (c.0, c.1)
            }),
{
    reveal(gen_cell);
}

/// The best score in the last row over its columns up to `col`, with the first column
/// reaching it.
pub open spec fn gen_best(tx: Seq<u8>, bn: Seq<int>, pat: Seq<u8>, first: Seq<int>, col: int) -> (int, int)
    decreases col + 1,
{
    let last = pat.len() - 1;
    if col < 0 || col < first[last] {
        (0, 0)
    } else {
        let prev = gen_best(tx, bn, pat, first, col - 1);
        let sc = gen_cell(tx, bn, pat, first, last, col).0;
        if sc > prev.0 { (sc, col) } else { prev }
    }
}

/// The window's bytes as the matcher compares them, its bonuses and the pattern's first
/// columns, and the best score of the matrix over columns up to the last one holding the
/// pattern's last byte.
pub open spec fn gen_score(t: Seq<u8>, lo: int, n: int, pat: Seq<u8>, cs: bool) -> int {
    let tx = win_text(t, lo, n, cs);
    gen_best(tx, win_bonuses(t, lo, n), pat, win_firsts(tx, pat), gen_last(tx, pat[pat.len() - 1], n)).0
}

/// Where each pattern byte is first found in order in the window.
pub open spec fn win_firsts(tx: Seq<u8>, pat: Seq<u8>) -> Seq<int> {
    Seq::new(pat.len(), |i: int| gen_first(tx, pat, i))
}

/// The arrays the window scan leaves agree with the window: its bytes as compared, their
/// bonuses, the first-byte row and runs, where each pattern byte is first found in order,
/// and the last column holding the last pattern byte.
#[verifier::opaque]
pub open spec fn window_exact(text: Seq<u8>, bonus: Seq<i16>, h0: Seq<i16>, c0: Seq<i16>, first: Seq<usize>, last: int, t: Seq<u8>, lo: int, n: int, pat: Seq<u8>, cs: bool) -> bool {
    let tx = win_text(t, lo, n, cs);
    let bn = win_bonuses(t, lo, n);
    &&& text == tx
    &&& forall|k: int| 0 <= k < n ==> #[trigger] bonus[k] == bn[k]
    &&& forall|k: int| 0 <= k < n ==> #[trigger] h0[k] == gen_h0(tx, bn, pat[0], k) && c0[k] == (if tx[k] == pat[0] { 1int } else { 0int })
    &&& forall|a: int| 0 <= a < pat.len() ==> #[trigger] first[a] == gen_first(tx, pat, a)
    &&& last == gen_last(tx, pat[pat.len() - 1], n)
}

/// The stored score and run rows agree with the matrix: the first row with the first-byte
/// row over the columns from `f0`, each later row from its first column on.
#[verifier::opaque]
pub open spec fn rows_exact(hs: Seq<Vec<i16>>, cs: Seq<Vec<i16>>, tx: Seq<u8>, bn: Seq<int>, pat: Seq<u8>, first: Seq<int>, f0: int, width: int) -> bool {
    &&& hs.len() >= 1
    &&& cs.len() == hs.len()
    &&& forall|x: int| 0 <= x < width ==> #[trigger] hs[0]@[x] == gen_h0(tx, bn, pat[0], f0 + x) && cs[0]@[x] == (if tx[f0 + x] == pat[0] { 1int } else { 0int })
    &&& forall|q: int, x: int| 1 <= q < hs.len() && first[q] - f0 <= x < width ==> #[trigger] hs[q]@[x] == gen_cell(tx, bn, pat, first, q, f0 + x).0
        && cs[q]@[x] == gen_cell(tx, bn, pat, first, q, f0 + x).1
}

proof fn lemma_rows_exact_at(hs: Seq<Vec<i16>>, cs: Seq<Vec<i16>>, tx: Seq<u8>, bn: Seq<int>, pat: Seq<u8>, first: Seq<int>, f0: int, width: int, q: int, x: int)
    requires
        rows_exact(hs, cs, tx, bn, pat, first, f0, width),
        0 <= q < hs.len(),
        0 <= x < width,
        q >= 1 ==> first[q] - f0 <= x,
    ensures
        q == 0 ==> hs[0]@[x] == gen_h0(tx, bn, pat[0], f0 + x) && cs[0]@[x] == (if tx[f0 + x] == pat[0] { 1int } else { 0int }),
        q >= 1 ==> hs[q]@[x] == gen_cell(tx, bn, pat, first, q, f0 + x).0 && cs[q]@[x] == gen_cell(tx, bn, pat, first, q, f0 + x).1,
{
    reveal(rows_exact);
    if q == 0 {
        assert(hs[0]@[x] == hs[0]@[x]);
    } else {
        assert(hs[q]@[x] == hs[q]@[x]);
    }
}

/// Columns `[from, upto)` of a row being filled agree with row `p` of the matrix.
#[verifier::opaque]
pub open spec fn row_part(h: Seq<i16>, c: Seq<i16>, tx: Seq<u8>, bn: Seq<int>, pat: Seq<u8>, first: Seq<int>, p: int, f0: int, from: int, upto: int) -> bool {
    forall|x: int| from <= x < upto ==> #[trigger] h[x] == gen_cell(tx, bn, pat, first, p, f0 + x).0 && c[x] == gen_cell(tx, bn, pat, first, p, f0 + x).1
}

proof fn lemma_row_part_at(h: Seq<i16>, c: Seq<i16>, tx: Seq<u8>, bn: Seq<int>, pat: Seq<u8>, first: Seq<int>, p: int, f0: int, from: int, upto: int, x: int)
    requires
        row_part(h, c, tx, bn, pat, first, p, f0, from, upto),
        0 <= from <= x < upto,
    ensures
        h[x] == gen_cell(tx, bn, pat, first, p, f0 + x).0,
        c[x] == gen_cell(tx, bn, pat, first, p, f0 + x).1,
{
    reveal(row_part);
    assert(h[x] == gen_cell(tx, bn, pat, first, p, f0 + x).0 && c[x] == gen_cell(tx, bn, pat, first, p, f0 + x).1);
}

proof fn lemma_row_part_extend(h: Seq<i16>, c: Seq<i16>, hn: Seq<i16>, cn: Seq<i16>, tx: Seq<u8>, bn: Seq<int>, pat: Seq<u8>, first: Seq<int>, p: int, f0: int, from: int, upto: int)
    requires
        row_part(h, c, tx, bn, pat, first, p, f0, from, upto),
        0 <= from,
        0 <= upto < h.len(),
        upto < c.len(),
        hn == h.update(upto, hn[upto]),
        cn == c.update(upto, cn[upto]),
        hn[upto] == gen_cell(tx, bn, pat, first, p, f0 + upto).0,
        cn[upto] == gen_cell(tx, bn, pat, first, p, f0 + upto).1,
    ensures
        row_part(hn, cn, tx, bn, pat, first, p, f0, from, upto + 1),
{
    reveal(row_part);
    assert forall|x: int| from <= x < upto + 1 implies #[trigger] hn[x] == gen_cell(tx, bn, pat, first, p, f0 + x).0 && cn[x] == gen_cell(tx, bn, pat, first, p, f0 + x).1 by {
        if x < upto {
            assert(hn[x] == h[x] && cn[x] == c[x]);
            assert(h[x] == gen_cell(tx, bn, pat, first, p, f0 + x).0 && c[x] == gen_cell(tx, bn, pat, first, p, f0 + x).1);
        }
    }
}

proof fn lemma_rows_exact_push(hs: Seq<Vec<i16>>, cs: Seq<Vec<i16>>, h: Vec<i16>, c: Vec<i16>, tx: Seq<u8>, bn: Seq<int>, pat: Seq<u8>, first: Seq<int>, f0: int, width: int)
    requires
        rows_exact(hs, cs, tx, bn, pat, first, f0, width),
        row_part(h@, c@, tx, bn, pat, first, hs.len() as int, f0, first[hs.len() as int] - f0, width),
    ensures
        rows_exact(hs.push(h), cs.push(c), tx, bn, pat, first, f0, width),
{
    reveal(rows_exact);
    reveal(row_part);
    let p = hs.len() as int;
    assert(hs.push(h)[0] == hs[0] && cs.push(c)[0] == cs[0]);
    assert forall|x: int| 0 <= x < width implies #[trigger] hs.push(h)[0]@[x] == gen_h0(tx, bn, pat[0], f0 + x) && cs.push(c)[0]@[x] == (
    if tx[f0 + x] == pat[0] { 1int } else { 0int }) by {
        assert(hs[0]@[x] == gen_h0(tx, bn, pat[0], f0 + x));
        assert(cs[0]@[x] == (if tx[f0 + x] == pat[0] { 1int } else { 0int }));
    }
    assert forall|q: int, x: int| 1 <= q < p + 1 && first[q] - f0 <= x < width implies #[trigger] hs.push(h)[q]@[x] == gen_cell(tx, bn, pat, first, q, f0 + x).0
        && cs.push(c)[q]@[x] == gen_cell(tx, bn, pat, first, q, f0 + x).1 by {
        if q < p {
            assert(hs.push(h)[q] == hs[q] && cs.push(c)[q] == cs[q]);
            assert(hs[q]@[x] == gen_cell(tx, bn, pat, first, q, f0 + x).0);
            assert(cs[q]@[x] == gen_cell(tx, bn, pat, first, q, f0 + x).1);
        } else {
            assert(hs.push(h)[q] == h && cs.push(c)[q] == c);
            assert(h@[x] == gen_cell(tx, bn, pat, first, q, f0 + x).0);
            assert(c@[x] == gen_cell(tx, bn, pat, first, q, f0 + x).1);
        }
    }
}

proof fn lemma_window_exact_at(text: Seq<u8>, bonus: Seq<i16>, h0: Seq<i16>, c0: Seq<i16>, first: Seq<usize>, last: int, t: Seq<u8>, lo: int, n: int, pat: Seq<u8>, cs: bool)
    requires
        window_exact(text, bonus, h0, c0, first, last, t, lo, n, pat, cs),
    ensures
        text == win_text(t, lo, n, cs),
        forall|k: int| 0 <= k < n ==> #[trigger] bonus[k] == win_bonuses(t, lo, n)[k],
        forall|k: int| 0 <= k < n ==> #[trigger] h0[k] == gen_h0(win_text(t, lo, n, cs), win_bonuses(t, lo, n), pat[0], k),
        forall|k: int| 0 <= k < n ==> #[trigger] c0[k] == (if win_text(t, lo, n, cs)[k] == pat[0] { 1int } else { 0int }),
        forall|a: int| 0 <= a < pat.len() ==> #[trigger] first[a] == gen_first(win_text(t, lo, n, cs), pat, a),
        last == gen_last(win_text(t, lo, n, cs), pat[pat.len() - 1], n),
{
    reveal(window_exact);
    assert forall|k: int| 0 <= k < n implies #[trigger] c0[k] == (if win_text(t, lo, n, cs)[k] == pat[0] { 1int } else { 0int }) by {
        assert(h0[k] == gen_h0(win_text(t, lo, n, cs), win_bonuses(t, lo, n), pat[0], k));
    }
}

/// Score and run of the matrix cell in row `row` at column `j` (row 0 the first-byte row).
pub open spec fn gen_val(tx: Seq<u8>, bn: Seq<int>, pat: Seq<u8>, first: Seq<int>, row: int, j: int) -> (int, int) {
    if row == 0 {
        (gen_h0(tx, bn, pat[0], j), if tx[j] == pat[0] { 1int } else { 0int })
    } else {
        let c = gen_cell(tx, bn, pat, first, row, j);
        (c.0, c.1)
    }
}

/// The walk back over the score matrix from column `j` of row `row`, down to column `f0`:
/// a column is kept where the cell beats its diagonal and its left neighbour (or ties the
/// left one while a run is preferred), and the walk then moves one row up; it ends at a
/// kept column of the first row or at `f0`. The kept columns, last first.
#[verifier::opaque]
pub open spec fn gen_walk(tx: Seq<u8>, bn: Seq<int>, pat: Seq<u8>, first: Seq<int>, f0: int, last: int, row: int, j: int, prefer: bool) -> Seq<int>
    decreases j - f0,
{
    if j < f0 || row < 0 {
        Seq::empty()
    } else {
        let score = gen_val(tx, bn, pat, first, row, j).0;
        let diagonal = if row > 0 && j >= first[row] { gen_val(tx, bn, pat, first, row - 1, j - 1).0 } else { 0 };
        let left = if j > first[row] { gen_val(tx, bn, pat, first, row, j - 1).0 } else { 0 };
        let run = gen_val(tx, bn, pat, first, row, j).1;
        let pushed = score > diagonal && (score > left || score == left && prefer);
        let kept: Seq<int> = if pushed { seq![j] } else { Seq::empty() };
        if pushed && row == 0 || j == f0 {
            kept
        } else {
            let next_prefer = run > 1 || (row + 1 < pat.len() && j < last && j + 1 >= first[row + 1] && gen_val(tx, bn, pat, first, row + 1,
                j + 1).1 > 0);
            kept + gen_walk(tx, bn, pat, first, f0, last, if pushed { row - 1 } else { row }, j - 1, next_prefer)
        }
    }
}

proof fn lemma_gen_walk_step(tx: Seq<u8>, bn: Seq<int>, pat: Seq<u8>, first: Seq<int>, f0: int, last: int, row: int, j: int, prefer: bool)
    requires
        f0 <= j,
        0 <= row,
    ensures
        ({
            let score = gen_val(tx, bn, pat, first, row, j).0;
            let diagonal = if row > 0 && j >= first[row] { gen_val(tx, bn, pat, first, row - 1, j - 1).0 } else { 0 };
            let left = if j > first[row] { gen_val(tx, bn, pat, first, row, j - 1).0 } else { 0 };
            let run = gen_val(tx, bn, pat, first, row, j).1;
            let pushed = score > diagonal && (score > left || score == left && prefer);
            let kept: Seq<int> = if pushed { seq![j] } else { Seq::empty() };
            let next_prefer = run > 1 || (row + 1 < pat.len() && j < last && j + 1 >= first[row + 1] && gen_val(tx, bn, pat, first, row + 1,
                j + 1).1 > 0);
            gen_walk(tx, bn, pat, first, f0, last, row, j, prefer) == if pushed && row == 0 || j == f0 {
                kept
            } else {
                kept + gen_walk(tx, bn, pat, first, f0, last, if pushed { row - 1 } else { row }, j - 1, next_prefer)
            }
        }),
{
    reveal(gen_walk);
}

/// The one-byte search from `idx`: each hit of `c` scores its match with twice its boundary
/// bonus; a hit beating the best so far becomes the best, and one on a boundary ends the
/// search. The best score and its position.
pub open spec fn single_scan(t: Seq<u8>, c: u8, cs: bool, idx: int, best: int, best_pos: Option<int>) -> (int, Option<int>)
    decreases t.len() - idx,
{
    match next_hit(t, idx, c, cs) {
        None => (best, best_pos),
        Some(pos) => {
            if pos < idx || pos >= t.len() {
                (best, best_pos)
            } else {
                let bonus = win_bonus(t, 0, pos);
                let score = SCORE_MATCH + bonus * BONUS_FIRST_CHAR_MULTIPLIER;
                if score > best && bonus >= BONUS_BOUNDARY {
                    (score, Some(pos))
                } else if score > best {
                    single_scan(t, c, cs, pos + 1, score, Some(pos))
                } else {
                    single_scan(t, c, cs, pos + 1, best, best_pos)
                }
            }
        },
    }
}

/// What a one-byte pattern scores at position `q` of `t`: the match with twice the bonus of
/// the boundary between byte `q - 1` (white space before the text) and byte `q`.
pub open spec fn one_byte_score(t: Seq<u8>, q: int) -> int {
    16 + 2 * class_bonus(if q == 0 { CharClass::White } else { class_of(t[q - 1]) }, class_of(t[q]))
}

proof fn lemma_next_hit_first(t: Seq<u8>, from: int, c: u8, cs: bool)
    requires
        0 <= from,
    ensures
        next_hit(t, from, c, cs) matches Some(q) ==> from <= q < t.len() && norm(t[q], cs) == c && forall|k: int| from <= k < q
            ==> norm(#[trigger] t[k], cs) != c,
        next_hit(t, from, c, cs) is None ==> forall|k: int| from <= k < t.len() ==> norm(#[trigger] t[k], cs) != c,
    decreases t.len() - from,
{
    if from < t.len() && norm(t[from], cs) != c {
        lemma_next_hit_first(t, from + 1, c, cs);
    }
}

/// The boundary bonus of position `q` of `t` (white space before the text).
pub open spec fn one_byte_bonus(t: Seq<u8>, q: int) -> int {
    class_bonus(if q == 0 { CharClass::White } else { class_of(t[q - 1]) }, class_of(t[q]))
}

/// `q` holds the byte `c`.
pub open spec fn holds_byte(t: Seq<u8>, c: u8, cs: bool, q: int) -> bool {
    0 <= q < t.len() && norm(t[q], cs) == c
}

/// What the one-byte search has seen before `idx`: no hit yet, or the best hit so far, not
/// on a boundary, beating every earlier hit and not beaten by a later one.
#[verifier::opaque]
pub open spec fn single_seen(t: Seq<u8>, c: u8, cs: bool, idx: int, best: int, best_pos: Option<int>) -> bool {
    &&& best_pos is None ==> best == 0 && forall|q: int| 0 <= q < idx ==> !#[trigger] holds_byte(t, c, cs, q)
    &&& best_pos matches Some(b) ==> {
        &&& 0 <= b < idx
        &&& holds_byte(t, c, cs, b)
        &&& best == one_byte_score(t, b)
        &&& one_byte_bonus(t, b) < BONUS_BOUNDARY
        &&& forall|q: int| 0 <= q < b && #[trigger] holds_byte(t, c, cs, q) ==> one_byte_score(t, q) < best
        &&& forall|q: int| b < q < idx && #[trigger] holds_byte(t, c, cs, q) ==> one_byte_score(t, q) <= best
    }
}

/// The law's statement about a one-byte search's result `r` on `t`.
#[verifier::opaque]
pub open spec fn single_best(t: Seq<u8>, c: u8, cs: bool, r: (int, Option<int>)) -> bool {
    &&& r.1 is None <==> forall|q: int| 0 <= q < t.len() ==> !#[trigger] holds_byte(t, c, cs, q)
    &&& r.1 matches Some(p) ==> {
        &&& holds_byte(t, c, cs, p)
        &&& r.0 == one_byte_score(t, p)
        &&& forall|q: int| 0 <= q < p && #[trigger] holds_byte(t, c, cs, q) ==> one_byte_score(t, q) < r.0
        &&& one_byte_bonus(t, p) < BONUS_BOUNDARY ==> forall|q: int| p < q < t.len() && #[trigger] holds_byte(t, c, cs, q)
            ==> one_byte_score(t, q) <= r.0
    }
}

proof fn lemma_single_scan_best(t: Seq<u8>, c: u8, cs: bool, idx: int, best: int, best_pos: Option<int>)
    requires
        0 <= idx <= t.len(),
        single_seen(t, c, cs, idx, best, best_pos),
    ensures
        single_best(t, c, cs, single_scan(t, c, cs, idx, best, best_pos)),
    decreases t.len() - idx,
{
    lemma_next_hit_first(t, idx, c, cs);
    reveal(single_seen);
    match next_hit(t, idx, c, cs) {
        None => {
            reveal(single_best);
            if best_pos is Some {
                let b = best_pos->0;
                assert(holds_byte(t, c, cs, b));
            }
            assert forall|q: int| idx <= q < t.len() implies !#[trigger] holds_byte(t, c, cs, q) by {
                assert(norm(t[q], cs) != c);
            }
        },
        Some(pos) => {
            let bonus = win_bonus(t, 0, pos);
            let score = SCORE_MATCH + bonus * BONUS_FIRST_CHAR_MULTIPLIER;
            assert(score == one_byte_score(t, pos));
            assert(bonus == one_byte_bonus(t, pos));
            assert(holds_byte(t, c, cs, pos));
            assert forall|q: int| idx <= q < pos implies !#[trigger] holds_byte(t, c, cs, q) by {
                assert(norm(t[q], cs) != c);
            }
            if score > best && bonus >= BONUS_BOUNDARY {
                reveal(single_best);
                assert(single_scan(t, c, cs, idx, best, best_pos) == (score, Some(pos)));
            } else if score > best {
                assert(single_seen(t, c, cs, pos + 1, score, Some(pos)));
                lemma_single_scan_best(t, c, cs, pos + 1, score, Some(pos));
            } else {
                assert(best_pos is Some) by {
                    if best_pos is None {
                        assert(score > 0);
                    }
                }
                assert(single_seen(t, c, cs, pos + 1, best, best_pos));
                lemma_single_scan_best(t, c, cs, pos + 1, best, best_pos);
            }
        },
    }
}

/// A one-byte search returns the best-scoring occurrence of the byte in the order it meets
/// them: none exactly when the byte does not occur; otherwise an occurrence, scored as the
/// match with twice its boundary bonus (16 + 2 * bonus), that no earlier occurrence scores
/// as high as and, unless it sits on a word boundary (where the search stops), no later one
/// beats.
pub proof fn lemma_single_byte_best(t: Seq<u8>, c: u8, cs: bool)
    ensures
        ({
            let r = single_scan(t, c, cs, 0, 0, None);
            &&& r.1 is None <==> forall|q: int| 0 <= q < t.len() ==> norm(#[trigger] t[q], cs) != c
            &&& r.1 matches Some(p) ==> {
                &&& 0 <= p < t.len()
                &&& norm(t[p], cs) == c
                &&& r.0 == 16 + 2 * class_bonus(if p == 0 { CharClass::White } else { class_of(t[p - 1]) }, class_of(t[p]))
                &&& forall|q: int| 0 <= q < p && norm(#[trigger] t[q], cs) == c ==> 16 + 2 * class_bonus(
                    if q == 0 { CharClass::White } else { class_of(t[q - 1]) }, class_of(t[q])) < r.0
                &&& class_bonus(if p == 0 { CharClass::White } else { class_of(t[p - 1]) }, class_of(t[p])) < BONUS_BOUNDARY
                    ==> forall|q: int| p < q < t.len() && norm(#[trigger] t[q], cs) == c ==> 16 + 2 * class_bonus(
                    if q == 0 { CharClass::White } else { class_of(t[q - 1]) }, class_of(t[q])) <= r.0
            }
        }),
{
    reveal(single_seen);
    lemma_single_scan_best(t, c, cs, 0, 0, None);
    reveal(single_best);
    let r = single_scan(t, c, cs, 0, 0, None);
    assert forall|q: int| 0 <= q < t.len() && norm(#[trigger] t[q], cs) == c implies holds_byte(t, c, cs, q) by {}
}

proof fn lemma_win_hit(tx: Seq<u8>, c: u8, from: int, k: int)
    requires
        0 <= from <= k < tx.len(),
        forall|j: int| from <= j < k ==> #[trigger] tx[j] != c,
        tx[k] == c,
    ensures
        win_hit(tx, c, from) == k,
    decreases k - from,
{
    if from < k {
        lemma_win_hit(tx, c, from + 1, k);
    }
}

/// The first `off` columns of the first-byte row, its runs and the bonuses agree with the
/// window.
#[verifier::opaque]
pub open spec fn h0_prefix(h0: Seq<i16>, c0: Seq<i16>, b0: Seq<i16>, tx: Seq<u8>, bn: Seq<int>, p0: u8, off: int) -> bool {
    &&& forall|k: int| 0 <= k < off ==> #[trigger] h0[k] == gen_h0(tx, bn, p0, k) && c0[k] == (if tx[k] == p0 { 1int } else { 0int })
    &&& forall|k: int| 0 <= k < off ==> #[trigger] b0[k] == bn[k]
}

proof fn lemma_h0_at(h0: Seq<i16>, c0: Seq<i16>, b0: Seq<i16>, tx: Seq<u8>, bn: Seq<int>, p0: u8, off: int, k: int)
    requires
        h0_prefix(h0, c0, b0, tx, bn, p0, off),
        0 <= k < off,
    ensures
        h0[k] == gen_h0(tx, bn, p0, k),
        c0[k] == (if tx[k] == p0 { 1int } else { 0int }),
        b0[k] == bn[k],
{
    reveal(h0_prefix);
    assert(h0[k] == h0[k]);
    assert(b0[k] == b0[k]);
}

proof fn lemma_h0_extend(h00: Seq<i16>, c00: Seq<i16>, b00: Seq<i16>, h0n: Seq<i16>, c0n: Seq<i16>, b0n: Seq<i16>, tx: Seq<u8>, bn: Seq<int>, p0: u8, off: int)
    requires
        0 <= off < h00.len(),
        off < c00.len(),
        off < b00.len(),
        h0_prefix(h00, c00, b00, tx, bn, p0, off),
        h0n == h00.update(off, h0n[off]),
        c0n == c00.update(off, c0n[off]),
        b0n == b00.update(off, b0n[off]),
        h0n[off] == gen_h0(tx, bn, p0, off),
        c0n[off] == (if tx[off] == p0 { 1int } else { 0int }),
        b0n[off] == bn[off],
    ensures
        h0_prefix(h0n, c0n, b0n, tx, bn, p0, off + 1),
{
    reveal(h0_prefix);
    assert forall|k: int| 0 <= k < off + 1 implies #[trigger] h0n[k] == gen_h0(tx, bn, p0, k) && c0n[k] == (if tx[k] == p0 { 1int } else { 0int }) by {
        if k < off {
            assert(h0n[k] == h00[k] && c0n[k] == c00[k]);
        }
    }
    assert forall|k: int| 0 <= k < off + 1 implies #[trigger] b0n[k] == bn[k] by {
        if k < off {
            assert(b0n[k] == b00[k]);
        }
    }
}

/// The greedy positions spell the pattern.
pub proof fn lemma_greedy_embeds(t: Seq<u8>, p: Seq<u8>, cs: bool)
    requires
        t.len() <= usize::MAX,
    ensures
        greedy_positions(t, p, cs) matches Some(ps) ==> embeds(t, p, cs, ps),
{
    if let Some(e) = forward_from(t, p, cs, 0, 0, 0) {
        lemma_forward_hits(t, p, cs, 0, 0, 0);
        let w = forward_hits(t, p, cs, 0, 0);
        if p.len() > 0 {
            lemma_forward_last(t, p, cs, 0, 0, 0);
        }
        lemma_backward_complete(t, p, cs, p.len() as int, e, w);
        let b = backward_from(t, p, cs, p.len() as int, e);
        let ps = b.reverse();
        assert forall|i: int| 0 <= i < ps.len() implies #[trigger] ps[i] < t.len() && norm(t[ps[i] as int], cs)
            == p[i] by {
            assert(ps[i] == b[b.len() - 1 - i]);
        }
    }
}

/// Positions strictly decreasing, all in `[lo, hi)`.
pub open spec fn decreasing_within(s: Seq<usize>, lo: int, hi: int) -> bool {
    &&& forall|a: int, b: int| 0 <= a < b < s.len() ==> #[trigger] s[a] > #[trigger] s[b]
    &&& forall|a: int| 0 <= a < s.len() ==> lo <= #[trigger] s[a] < hi
}

/// Strictly increasing naturals are at least their index.
proof fn lemma_increasing_at_least_index(w: Seq<int>, k: int)
    requires
        0 <= k < w.len(),
        w[0] >= 0,
        forall|a: int, b: int| 0 <= a < b < w.len() ==> #[trigger] w[a] < #[trigger] w[b],
    ensures
        w[k] >= k,
    decreases k,
{
    if k > 0 {
        lemma_increasing_at_least_index(w, k - 1);
        assert(w[k - 1] < w[k]);
    }
}

/// A pattern that occurs in order in a text is no longer than it.
proof fn lemma_forward_fits(t: Seq<u8>, p: Seq<u8>, cs: bool)
    ensures
        forward_from(t, p, cs, 0, 0, 0) is Some ==> p.len() <= t.len(),
{
    if forward_from(t, p, cs, 0, 0, 0) is Some && p.len() > 0 {
        lemma_forward_hits(t, p, cs, 0, 0, 0);
        let w = forward_hits(t, p, cs, 0, 0);
        lemma_increasing_at_least_index(w, p.len() - 1);
    }
}

/// What the walk back reads of one cell of sound score rows.
proof fn lemma_sound_cell(hs: Seq<Vec<i16>>, text: Seq<u8>, p: Seq<u8>, first: Seq<usize>, f0: int, width: int, row: int, j: int)
    requires
        rows_sound(hs, text, p, first, f0, width),
        0 <= row < hs.len(),
        first[row] <= j < f0 + width,
    ensures
        text[j] != p[row] ==> hs[row]@[j - f0] == 0 || (j > first[row] && hs[row]@[j - f0] < hs[row]@[j - f0 - 1]),
        row == 0 ==> hs[0]@[0] >= 16,
        row > 0 ==> hs[row]@[first[row] - f0] >= hs[row - 1]@[first[row] - f0 - 1] + 16,
{
    reveal(rows_sound);
    assert(row_drops(hs[row]@, text, f0, first[row] - f0, p[row], width));
    assert(f0 + (j - f0) == j);
}

/// `v` in reverse order.
fn reversed(v: &Vec<usize>) -> (r: Vec<usize>)
    ensures
        r@.len() == v@.len(),
        forall|a: int| 0 <= a < v@.len() ==> #[trigger] r@[a] == v@[v@.len() - 1 - a],
{
    let len = v.len();
    let mut out: Vec<usize> = Vec::new();
    let mut i: usize = 0;
    while i < len
        invariant
            len == v@.len(),
            i <= len,
            out@.len() == i,
            forall|a: int| 0 <= a < i ==> #[trigger] out@[a] == v@[len - 1 - a],
        decreases len - i,
    {
        out.push(v[len - 1 - i]);
        i = i + 1;
    }
    out
}

/// The bigger of two scores.
fn max_i16(a: i16, b: i16) -> (r: i16)
    ensures
        r == if a >= b { a } else { b },
{
    if a >= b {
        a
    } else {
        b
    }
}

impl FzfV2Matcher {
    pub closed spec fn pattern_view(&self) -> Seq<u8> {
        self.pattern@
    }

    pub closed spec fn wants_positions(&self) -> bool {
        self.with_positions
    }

    /// The fallback matcher is never given a pattern.
    pub closed spec fn wf(&self) -> bool {
        self.fallback.pattern_view().len() == 0
    }

    pub fn new() -> (r: FzfV2Matcher)
        ensures
            r.wf(),
            r.pattern_view() == Seq::<u8>::empty(),
            r.wants_positions(),
    {
        FzfV2Matcher {
            pattern: Vec::new(),
            text: Vec::new(),
            h0: Vec::new(),
            c0: Vec::new(),
            bonus: Vec::new(),
            first: Vec::new(),
            h: Vec::new(),
            c: Vec::new(),
            score_rows: Vec::new(),
            run_rows: Vec::new(),
            positions: Vec::new(),
            fallback: FzfMatcher::new(),
            with_positions: true,
        }
    }

    /// Stores a compiled pattern for the prepared searches.
    pub fn prepare(&mut self, pattern: &CompiledPattern)
        requires
            old(self).wf(),
        ensures
            final(self).wf(),
            final(self).pattern_view() == pattern.bytes@,
            final(self).wants_positions() == old(self).wants_positions(),
    {
        self.pattern.clear();
        let mut i: usize = 0;
        while i < pattern.bytes.len()
            invariant
                i <= pattern.bytes@.len(),
                self.fallback == old(self).fallback,
                self.with_positions == old(self).with_positions,
                self.pattern@ == pattern.bytes@.take(i as int),
            decreases pattern.bytes@.len() - i,
        {
            self.pattern.push(pattern.bytes[i]);
            i = i + 1;
            proof {
                assert(self.pattern@ =~= pattern.bytes@.take(i as int));
            }
        }
        proof {
            assert(pattern.bytes@.take(i as int) =~= pattern.bytes@);
        }
    }

    /// The match the stored positions describe, scored `score`.
    fn match_from_positions(&self, score: i16, Ghost(text_len): Ghost<int>) -> (r: Option<Match>)
        requires
            text_len <= usize::MAX,
            increasing_below(self.positions@, text_len),
        ensures
            self.positions@.len() == 0 ==> r is None,
            self.positions@.len() > 0 ==> r is Some,
            well_placed(r, text_len, self.with_positions),
            r matches Some(m) ==> m.score == score && m.start == self.positions@[0] && m.end
                == self.positions@.last() + 1 && (self.with_positions ==> m.positions@ == self.positions@),
    {
        let n = self.positions.len();
        if n == 0 {
            return None;
        }
        let start = self.positions[0];
        let end = self.positions[n - 1] + 1;
        let positions = if self.with_positions {
            let mut v: Vec<usize> = Vec::new();
            let mut k: usize = 0;
            while k < n
                invariant
                    n == self.positions@.len(),
                    k <= n,
                    v@ == self.positions@.take(k as int),
                decreases n - k,
            {
                v.push(self.positions[k]);
                k = k + 1;
                proof {
                    assert(v@ =~= self.positions@.take(k as int));
                }
            }
            proof {
                assert(self.positions@.take(n as int) =~= self.positions@);
            }
            v
        } else {
            Vec::new()
        };
        proof {
            if n > 1 {
                assert(self.positions@[0] < self.positions@[n - 1]);
            }
        }
        Some(Match { score, start, end, positions })
    }

    /// The stored positions, found from the end backwards, put in increasing order.
    fn reverse_positions(&mut self, Ghost(lo): Ghost<int>, Ghost(hi): Ghost<int>)
        requires
            decreasing_within(old(self).positions@, lo, hi),
        ensures
            final(self).pattern@ == old(self).pattern@,
            final(self).with_positions == old(self).with_positions,
            final(self).fallback == old(self).fallback,
            final(self).text@ == old(self).text@,
            increasing_below(final(self).positions@, hi),
            forall|a: int| 0 <= a < final(self).positions@.len() ==> lo <= #[trigger] final(self).positions@[a],
            final(self).positions@.len() == old(self).positions@.len(),
            forall|a: int| 0 <= a < final(self).positions@.len() ==> #[trigger] final(self).positions@[a]
                == old(self).positions@[old(self).positions@.len() - 1 - a],
    {
        let r = reversed(&self.positions);
        proof {
            let s = self.positions@;
            assert forall|a: int, b: int| 0 <= a < b < r@.len() implies #[trigger] r@[a] < #[trigger] r@[b] by {
                assert(r@[a] == s[s.len() - 1 - a]);
                assert(r@[b] == s[s.len() - 1 - b]);
            }
            assert forall|a: int| 0 <= a < r@.len() implies lo <= #[trigger] r@[a] < hi by {
                assert(r@[a] == s[s.len() - 1 - a]);
            }
        }
        self.positions = r;
    }

    /// A two-byte pattern: one row of first-byte scores and one of second-byte scores over
    /// the window `[min_idx, max_idx)`, then a walk back from the best second-row cell.
    #[verifier::rlimit(100)]
    #[verifier::spinoff_prover]
    fn find_two(&mut self, parts: &[&[u8]], min_idx: usize, max_idx: usize, case_sensitive: bool) -> (r: Option<Match>)
        requires
            joined(parts@).len() <= usize::MAX,
            min_idx < max_idx <= joined(parts@).len(),
            old(self).pattern@.len() == 2,
            window_of(joined(parts@), old(self).pattern@, case_sensitive, min_idx as int, max_idx as int),
        ensures
            r is Some,
            final(self).pattern@ == old(self).pattern@,
            final(self).with_positions == old(self).with_positions,
            final(self).fallback == old(self).fallback,
            well_placed(r, joined(parts@).len() as int, old(self).with_positions),
            r matches Some(m) ==> min_idx <= m.start,
            r matches Some(m) ==> m.end <= max_idx && m.score > 0,
            r matches Some(m) ==> m.score == two_rows(joined(parts@), min_idx as int, old(self).pattern@[0], old(self).pattern@[1],
                case_sensitive, max_idx - min_idx).best,
            r matches Some(m) ==> (old(self).with_positions ==> embeds(joined(parts@), old(self).pattern@, case_sensitive, m.positions@)),
            r matches Some(m) ==> ({
                let rows = two_rows(joined(parts@), min_idx as int, old(self).pattern@[0], old(self).pattern@[1], case_sensitive,
                    max_idx - min_idx);
                let walk = two_walk(joined(parts@), min_idx as int, old(self).pattern@[0], old(self).pattern@[1], case_sensitive,
                    max_idx - min_idx, rows.f0->0, rows.f1->0, 1, rows.best_pos, true);
                &&& walk.len() == 2
                &&& m.start == walk[1]
                &&& m.end == walk[0] + 1
                &&& old(self).with_positions ==> m.positions@ == walk.reverse()
            }),
    {
        let ghost tl = joined(parts@).len() as int;
        let ghost t = joined(parts@);
        let ghost w = forward_hits(t, self.pattern@, case_sensitive, 0, 0);
        proof {
            lemma_forward_hits(t, self.pattern@, case_sensitive, 0, 0, 0);
        }
        let n = max_idx - min_idx;
        resize_i16(&mut self.h0, n);
        resize_i16(&mut self.c0, n);
        resize_i16(&mut self.h, n);
        resize_i16(&mut self.c, n);
        let pchar0 = self.pattern[0];
        let pchar1 = self.pattern[1];
        let mut max_score: i16 = 0;
        let mut max_score_pos: usize = 0;
        let mut prev_class = CharClass::White;
        let mut f0: Option<usize> = None;
        let mut f1: Option<usize> = None;
        let mut h0_prev: i16 = 0;
        let mut c0_prev: i16 = 0;
        let mut bonus_prev: i16 = 0;
        let mut in_gap0 = false;
        let mut h1_prev: i16 = 0;
        let mut in_gap1 = false;
        let mut off: usize = 0;
        proof {
            lemma_two_rows_step(t, min_idx as int, pchar0, pchar1, case_sensitive, 0);
            reveal(two_arrays);
        }
        while off < n
            invariant
                joined(parts@).len() <= usize::MAX,
                n == max_idx - min_idx,
                min_idx < max_idx <= joined(parts@).len(),
                self.pattern@ == old(self).pattern@,
                self.with_positions == old(self).with_positions,
                self.fallback == old(self).fallback,
                self.h0@.len() == n,
                self.c0@.len() == n,
                self.h@.len() == n,
                self.c@.len() == n,
                off <= n,
                0 <= h0_prev <= 36,
                0 <= c0_prev <= 1,
                0 <= bonus_prev <= 10,
                0 <= h1_prev <= 62,
                0 <= max_score,
                max_score_pos < n,
                f0 matches Some(y) ==> y < off,
                f1 matches Some(x) ==> x < off && (f0 matches Some(y) && y < x),
                t == joined(parts@),
                forall|k: int| 0 <= k < off ==> 0 <= #[trigger] self.h0@[k],
                forall|k: int| 0 <= k < off && norm(t[min_idx + k], case_sensitive) != pchar0 ==> #[trigger] self.h0@[k]
                    == 0 || (k > 0 && self.h0@[k] < self.h0@[k - 1]),
                forall|k: int| 0 <= k < off && norm(t[min_idx + k], case_sensitive) == pchar0 ==> #[trigger] self.h0@[k]
                    >= 16,
                off > 0 ==> h0_prev == self.h0@[off - 1],
                off == 0 ==> h0_prev == 0,
                f0 matches Some(y) ==> norm(t[min_idx + y], case_sensitive) == pchar0,
                f1 matches Some(x) ==> norm(t[min_idx + x], case_sensitive) == pchar1 && 0 < max_score && x
                    <= max_score_pos < off && self.h@[x as int] >= self.h0@[x - 1] + 16 && h1_prev == self.h@[off - 1],
                f1 is None ==> max_score == 0,
                f1 matches Some(x) ==> forall|k: int| x <= k < off ==> 0 <= #[trigger] self.h@[k],
                f1 matches Some(x) ==> forall|k: int| x <= k < off && norm(t[min_idx + k], case_sensitive) != pchar1
                    ==> #[trigger] self.h@[k] == 0 || (k > x && self.h@[k] < self.h@[k - 1]),
                pchar0 == self.pattern@[0],
                pchar1 == self.pattern@[1],
                min_idx <= w[0] < w[1] < max_idx,
                norm(t[w[0]], case_sensitive) == pchar0,
                norm(t[w[1]], case_sensitive) == pchar1,
                f0 is None ==> min_idx + off <= w[0],
                f1 is None ==> min_idx + off <= w[1],
                ({
                    let st = two_rows(t, min_idx as int, pchar0, pchar1, case_sensitive, off as int);
                    &&& st.h0 == h0_prev
                    &&& st.c0 == c0_prev
                    &&& st.bonus == bonus_prev
                    &&& st.class == prev_class
                    &&& st.in_gap0 == in_gap0
                    &&& (st.f0 is None <==> f0 is None)
                    &&& (f0 matches Some(y) ==> st.f0 == Some(y as int))
                    &&& (st.f1 is None <==> f1 is None)
                    &&& (f1 matches Some(x) ==> st.f1 == Some(x as int))
                    &&& st.h1 == h1_prev
                    &&& st.in_gap1 == in_gap1
                    &&& st.best == max_score
                    &&& st.best_pos == max_score_pos
                }),
                two_arrays(self.h0@, self.c0@, self.h@, self.c@, t, min_idx as int, pchar0, pchar1, case_sensitive, off as int, f1),
            decreases n - off,
        {
            proof {
                lemma_two_rows_step(t, min_idx as int, pchar0, pchar1, case_sensitive, off + 1);
            }
            let ghost h0s = self.h0@;
            let ghost c0s = self.c0@;
            let ghost h1s = self.h@;
            let ghost c1s = self.c@;
            let ghost f1_old = f1;
            let pos = min_idx + off;
            let byte = byte_at(parts, pos);
            let class = char_class(byte);
            let lower = if case_sensitive {
                byte
            } else {
                ascii_lower(byte)
            };
            let bonus = bonus_for(prev_class, class);
            prev_class = class;
            if f0.is_none() {
                if lower == pchar0 {
                    f0 = Some(off);
                }
            } else if f1.is_none() && lower == pchar1 {
                f1 = Some(off);
            }
            let h0_cur: i16;
            let c0_cur: i16;
            if lower == pchar0 {
                h0_cur = SCORE_MATCH + bonus * BONUS_FIRST_CHAR_MULTIPLIER;
                c0_cur = 1;
                in_gap0 = false;
            } else {
                let gap = if in_gap0 {
                    h0_prev + SCORE_GAP_EXT
                } else {
                    h0_prev + SCORE_GAP_START
                };
                h0_cur = max_i16(gap, 0);
                c0_cur = 0;
                in_gap0 = true;
            }
            self.h0.set(off, h0_cur);
            self.c0.set(off, c0_cur);
            if let Some(f1_pos) = f1 {
                if off >= f1_pos {
                    let hleft = if off == f1_pos {
                        0
                    } else {
                        h1_prev
                    };
                    let s2 = if in_gap1 {
                        hleft + SCORE_GAP_EXT
                    } else {
                        hleft + SCORE_GAP_START
                    };
                    let mut s1: i16 = 0;
                    let mut consecutive: i16 = 0;
                    if lower == pchar1 {
                        s1 = h0_prev + SCORE_MATCH;
                        let mut b = bonus;
                        consecutive = c0_prev + 1;
                        if consecutive > 1 {
                            if b >= BONUS_BOUNDARY && b > bonus_prev {
                                consecutive = 1;
                            } else {
                                b = max_i16(max_i16(b, BONUS_CONSECUTIVE), bonus_prev);
                            }
                        }
                        if s1 + b < s2 {
                            s1 = s1 + bonus;
                            consecutive = 0;
                        } else {
                            s1 = s1 + b;
                        }
                    }
                    in_gap1 = s1 < s2;
                    let score = max_i16(max_i16(s1, s2), 0);
                    if score > max_score {
                        max_score = score;
                        max_score_pos = off;
                    }
                    h1_prev = score;
                    self.h.set(off, score);
                    self.c.set(off, consecutive);
                    proof {
                        let nx = two_rows(t, min_idx as int, pchar0, pchar1, case_sensitive, off + 1);
                        assert(nx.h1 == score);
                        assert(nx.c1 == consecutive);
                    }
                }
            }
            h0_prev = h0_cur;
            c0_prev = c0_cur;
            bonus_prev = bonus;
            off = off + 1;
            proof {
                lemma_two_arrays_step(h0s, c0s, h1s, c1s, self.h0@, self.c0@, self.h@, self.c@, t, min_idx as int, pchar0, pchar1,
                    case_sensitive, off - 1, f1_old, f1);
            }
        }
        let f0 = match f0 {
            Some(x) => x,
            None => {
                return None;
            },
        };
        let f1 = match f1 {
            Some(x) => x,
            None => {
                return None;
            },
        };
        self.positions.clear();
        let mut row: usize = 1;
        let mut j = max_score_pos;
        let mut prefer_match = true;
        let mut done = false;
        let ghost full = two_walk(t, min_idx as int, pchar0, pchar1, case_sensitive, n as int, f0 as int, f1 as int, 1,
            max_score_pos as int, true);
        proof {
            assert(self.positions@ + full =~= full);
        }
        while !done
            invariant
                full == two_walk(t, min_idx as int, pchar0, pchar1, case_sensitive, n as int, f0 as int, f1 as int, 1,
                    max_score_pos as int, true),
                !done ==> self.positions@ + two_walk(t, min_idx as int, pchar0, pchar1, case_sensitive, n as int, f0 as int,
                    f1 as int, row as int, j as int, prefer_match) == full,
                done ==> self.positions@ == full,
                two_arrays(self.h0@, self.c0@, self.h@, self.c@, t, min_idx as int, pchar0, pchar1, case_sensitive, n as int, Some(f1)),
                n == max_idx - min_idx,
                min_idx < max_idx <= joined(parts@).len(),
                self.pattern@ == old(self).pattern@,
                self.with_positions == old(self).with_positions,
                self.fallback == old(self).fallback,
                self.h0@.len() == n,
                self.c0@.len() == n,
                self.h@.len() == n,
                self.c@.len() == n,
                f0 < f1 < n,
                j < n,
                row <= 1,
                decreasing_within(self.positions@, min_idx + j, max_idx as int),
                !done ==> forall|a: int| 0 <= a < self.positions@.len() ==> #[trigger] self.positions@[a] > min_idx + j,
                t == joined(parts@),
                self.pattern@.len() == 2,
                pchar0 == self.pattern@[0],
                pchar1 == self.pattern@[1],
                forall|k: int| 0 <= k < n ==> 0 <= #[trigger] self.h0@[k],
                forall|k: int| 0 <= k < n && norm(t[min_idx + k], case_sensitive) != pchar0 ==> #[trigger] self.h0@[k]
                    == 0 || (k > 0 && self.h0@[k] < self.h0@[k - 1]),
                self.h0@[f0 as int] >= 16,
                norm(t[min_idx + f0], case_sensitive) == pchar0,
                self.h@[f1 as int] >= self.h0@[f1 - 1] + 16,
                forall|k: int| f1 <= k < n ==> 0 <= #[trigger] self.h@[k],
                forall|k: int| f1 <= k < n && norm(t[min_idx + k], case_sensitive) != pchar1 ==> #[trigger] self.h@[k]
                    == 0 || (k > f1 && self.h@[k] < self.h@[k - 1]),
                !done && row == 1 ==> f1 <= j && self.positions@.len() == 0,
                !done && row == 0 ==> f0 <= j && self.positions@.len() == 1,
                done ==> self.positions@.len() == 2,
                forall|a: int| 0 <= a < self.positions@.len() ==> norm(t[#[trigger] self.positions@[a] as int], case_sensitive)
                    == self.pattern@[1 - a],
            decreases 2 * j + (if done { 0int } else { 1int }),
        {
            let score: i16;
            let diagonal: i16;
            let left: i16;
            let consecutive: i16;
            if row == 1 {
                score = self.h[j];
                diagonal = if j >= f1 {
                    self.h0[j - 1]
                } else {
                    0
                };
                left = if j > f1 {
                    self.h[j - 1]
                } else {
                    0
                };
                consecutive = self.c[j];
            } else {
                score = self.h0[j];
                diagonal = 0;
                left = if j > f0 {
                    self.h0[j - 1]
                } else {
                    0
                };
                consecutive = self.c0[j];
            }
            let current_row = row;
            let ghost pos0 = self.positions@;
            let ghost prefer0 = prefer_match;
            let ghost j_0 = j as int;
            proof {
                if j > 0 {
                    lemma_two_arrays_at(self.h0@, self.c0@, self.h@, self.c@, t, min_idx as int, pchar0, pchar1, case_sensitive,
                        n as int, f1, j - 1);
                }
                lemma_two_arrays_at(self.h0@, self.c0@, self.h@, self.c@, t, min_idx as int, pchar0, pchar1, case_sensitive,
                    n as int, f1, j as int);
                if j + 1 < n {
                    lemma_two_arrays_at(self.h0@, self.c0@, self.h@, self.c@, t, min_idx as int, pchar0, pchar1, case_sensitive,
                        n as int, f1, j + 1);
                }
            }
            proof {
                lemma_two_walk_step(t, min_idx as int, pchar0, pchar1, case_sensitive, n as int, f0 as int, f1 as int,
                    current_row as int, j as int, prefer_match);
            }
            let mut pushed = false;
            if score > diagonal && (score > left || score == left && prefer_match) {
                proof {
                    if current_row == 1 {
                        assert(norm(t[min_idx + j], case_sensitive) == pchar1);
                    } else {
                        assert(norm(t[min_idx + j], case_sensitive) == pchar0);
                    }
                }
                self.positions.push(j + min_idx);
                pushed = true;
                if row == 0 {
                    done = true;
                } else {
                    row = row - 1;
                }
            }
            if !done {
                prefer_match = consecutive > 1 || current_row == 0 && j + 1 < n && j + 1 >= f1 && self.c[j + 1] > 0;
                if j == 0 {
                    done = true;
                } else {
                    j = j - 1;
                }
            }
            proof {
                let w0 = two_walk(t, min_idx as int, pchar0, pchar1, case_sensitive, n as int, f0 as int, f1 as int,
                    current_row as int, j_0, prefer0);
                if done {
                    assert(self.positions@ =~= pos0 + w0);
                } else {
                    assert(self.positions@ + two_walk(t, min_idx as int, pchar0, pchar1, case_sensitive, n as int, f0 as int,
                        f1 as int, row as int, j as int, prefer_match) =~= pos0 + w0);
                }
            }
        }
        let ghost found = self.positions@;
        self.reverse_positions(Ghost(min_idx as int), Ghost(tl));
        proof {
            assert forall|i: int| 0 <= i < self.positions@.len() implies #[trigger] self.positions@[i] < t.len()
                && norm(t[self.positions@[i] as int], case_sensitive) == self.pattern@[i] by {
                assert(self.positions@[i] == found[1 - i]);
            }
            assert(self.positions@[1] == found[0]);
            assert(self.positions@[0] == found[1]);
            assert(self.positions@ =~= full.reverse());
            assert(found[0] < max_idx);
            assert(0 < max_score);
        }
        self.match_from_positions(max_score, Ghost(tl))
    }

    /// The window's bytes as compared, their bonuses, the first-byte row, and where each
    /// pattern byte is first found in order; the last column holding the last pattern byte.
    #[verifier::rlimit(60)]
    #[verifier::spinoff_prover]
    fn scan_window(&mut self, parts: &[&[u8]], min_idx: usize, max_idx: usize, case_sensitive: bool) -> (r: Option<usize>)
        requires
            joined(parts@).len() <= usize::MAX,
            min_idx < max_idx <= joined(parts@).len(),
            2 <= old(self).pattern@.len() <= V2_PATTERN_LIMIT,
            old(self).pattern@.len() * joined(parts@).len() <= V2_I16_SLAB_LIMIT,
            window_of(joined(parts@), old(self).pattern@, case_sensitive, min_idx as int, max_idx as int),
        ensures
            r is Some,
            final(self).pattern@ == old(self).pattern@,
            final(self).with_positions == old(self).with_positions,
            final(self).fallback == old(self).fallback,
            r matches Some(last_idx) ==> ({
                let n = max_idx - min_idx;
                let m = old(self).pattern@.len();
                let pchar0 = old(self).pattern@[0];
                &&& final(self).h0@.len() == n
                &&& final(self).c0@.len() == n
                &&& final(self).bonus@.len() == n
                &&& final(self).first@.len() == m
                &&& final(self).text@.len() == n
                &&& forall|k: int| 0 <= k < n ==> 0 <= #[trigger] final(self).h0@[k] <= 36
                &&& forall|k: int| 0 <= k < n ==> 0 <= #[trigger] final(self).c0@[k] <= 1
                &&& forall|k: int| 0 <= k < n ==> 0 <= #[trigger] final(self).bonus@[k] <= 10
                &&& forall|a: int, b: int| 0 <= a < b < m ==> #[trigger] final(self).first@[a] < #[trigger] final(self).first@[b]
                &&& forall|a: int| 0 <= a < m ==> #[trigger] final(self).first@[a] < n
                &&& forall|a: int| 0 <= a < m ==> final(self).text@[#[trigger] final(self).first@[a] as int] == final(self).pattern@[a]
                &&& final(self).first@[m - 1] <= last_idx < n
                &&& forall|k: int| 0 <= k < n ==> #[trigger] final(self).text@[k] == norm(joined(parts@)[min_idx + k], case_sensitive)
                &&& forall|k: int| 0 <= k < n && final(self).text@[k] != pchar0 ==> #[trigger] final(self).h0@[k] == 0 || (k > 0
                    && final(self).h0@[k] < final(self).h0@[k - 1])
                &&& forall|k: int| 0 <= k < n && final(self).text@[k] == pchar0 ==> #[trigger] final(self).h0@[k] >= 16
                &&& window_exact(final(self).text@, final(self).bonus@, final(self).h0@, final(self).c0@, final(self).first@, last_idx as int,
                    joined(parts@), min_idx as int, n, old(self).pattern@, case_sensitive)
            }),
    {
        let ghost tl = joined(parts@).len() as int;
        let n = max_idx - min_idx;
        let m = self.pattern.len();
        proof {
            assert(m * n <= m * tl) by (nonlinear_arith)
                requires n <= tl, 0 <= m;
        }
        self.text.clear();
        resize_i16(&mut self.h0, n);
        resize_i16(&mut self.c0, n);
        resize_i16(&mut self.bonus, n);
        resize_usize(&mut self.first, m);
        let ghost w = forward_hits(joined(parts@), self.pattern@, case_sensitive, 0, 0);
        proof {
            lemma_forward_hits(joined(parts@), self.pattern@, case_sensitive, 0, 0, 0);
            assert forall|i: int| 0 <= i < m implies min_idx <= #[trigger] w[i] < max_idx by {
                if i > 0 {
                    assert(w[0] < w[i]);
                }
                if i < m - 1 {
                    assert(w[i] < w[m - 1]);
                }
            }
        }
        let mut pidx: usize = 0;
        let mut last_idx: usize = 0;
        let pchar0 = self.pattern[0];
        let mut pchar = pchar0;
        let mut prev_h0: i16 = 0;
        let mut prev_class = CharClass::White;
        let mut in_gap = false;
        let mut off: usize = 0;
        let ghost t = joined(parts@);
        let ghost tx = win_text(t, min_idx as int, n as int, case_sensitive);
        let ghost bn = win_bonuses(t, min_idx as int, n as int);
        let ghost pat = self.pattern@;
        proof {
            reveal(h0_prefix);
        }
        while off < n
            invariant
                t == joined(parts@),
                tx == win_text(t, min_idx as int, n as int, case_sensitive),
                bn == win_bonuses(t, min_idx as int, n as int),
                pat == self.pattern@,
                h0_prefix(self.h0@, self.c0@, self.bonus@, tx, bn, pchar0, off as int),
                prev_class == (if off == 0 { CharClass::White } else { class_of(t[min_idx + off - 1]) }),
                in_gap == (off > 0 && tx[off - 1] != pchar0),
                forall|a: int| 0 <= a < pidx ==> #[trigger] self.first@[a] == gen_first(tx, pat, a),
                pidx < m ==> forall|k: int| (if pidx == 0 { 0 } else { self.first@[pidx - 1] + 1 }) <= k < off ==> #[trigger] tx[k]
                    != pat[pidx as int],
                pidx == m ==> last_idx == gen_last(tx, pat[m - 1], off as int),
                joined(parts@).len() <= usize::MAX,
                n == max_idx - min_idx,
                min_idx < max_idx <= joined(parts@).len(),
                m == self.pattern@.len(),
                2 <= m <= V2_PATTERN_LIMIT,
                pchar0 == self.pattern@[0],
                self.pattern@ == old(self).pattern@,
                self.with_positions == old(self).with_positions,
                self.fallback == old(self).fallback,
                self.h0@.len() == n,
                self.c0@.len() == n,
                self.bonus@.len() == n,
                self.first@.len() == m,
                self.text@.len() == off,
                off <= n,
                pidx <= m,
                pchar == self.pattern@[if pidx < m { pidx as int } else { m - 1 }],
                0 <= prev_h0 <= 36,
                forall|k: int| 0 <= k < off ==> 0 <= #[trigger] self.h0@[k] <= 36,
                forall|k: int| 0 <= k < off ==> 0 <= #[trigger] self.c0@[k] <= 1,
                forall|k: int| 0 <= k < off ==> 0 <= #[trigger] self.bonus@[k] <= 10,
                forall|a: int, b: int| 0 <= a < b < pidx ==> #[trigger] self.first@[a] < #[trigger] self.first@[b],
                forall|a: int| 0 <= a < pidx ==> #[trigger] self.first@[a] < off,
                forall|a: int| 0 <= a < pidx ==> self.text@[#[trigger] self.first@[a] as int] == self.pattern@[a],
                pidx > 0 ==> self.first@[pidx - 1] <= last_idx < off,
                forall|k: int| 0 <= k < off ==> #[trigger] self.text@[k] == norm(joined(parts@)[min_idx + k], case_sensitive),
                forall|k: int| 0 <= k < off && self.text@[k] != pchar0 ==> #[trigger] self.h0@[k] == 0 || (k > 0 && self.h0@[k] < self.h0@[k - 1]),
                forall|k: int| 0 <= k < off && self.text@[k] == pchar0 ==> #[trigger] self.h0@[k] >= 16,
                off > 0 ==> prev_h0 == self.h0@[off - 1],
                off == 0 ==> prev_h0 == 0,
                w.len() == m,
                forall|i: int| 0 <= i < m ==> min_idx <= #[trigger] w[i] < max_idx && norm(joined(parts@)[w[i]], case_sensitive)
                    == self.pattern@[i],
                forall|a: int, b: int| 0 <= a < b < m ==> #[trigger] w[a] < #[trigger] w[b],
                forall|i: int| 0 <= i < m && #[trigger] w[i] < min_idx + off ==> i < pidx,
            decreases n - off,
        {
            let byte = byte_at(parts, min_idx + off);
            let ghost pidx0 = pidx as int;
            let ghost off0 = off as int;
            let ghost bonus0 = self.bonus@;
            let ghost h00 = self.h0@;
            let ghost c00 = self.c0@;
            let ghost first0 = self.first@;
            let ghost in_gap_before = in_gap;
            let ghost prev_h0_before = prev_h0;
            let class = char_class(byte);
            let lower = if case_sensitive {
                byte
            } else {
                ascii_lower(byte)
            };
            self.text.push(lower);
            let bonus = bonus_for(prev_class, class);
            self.bonus.set(off, bonus);
            prev_class = class;
            if lower == pchar {
                if pidx < m {
                    self.first.set(pidx, off);
                    pidx = pidx + 1;
                    let next = if pidx < m - 1 {
                        pidx
                    } else {
                        m - 1
                    };
                    pchar = self.pattern[next];
                }
                last_idx = off;
            }
            if lower == pchar0 {
                let score = SCORE_MATCH + bonus * BONUS_FIRST_CHAR_MULTIPLIER;
                self.h0.set(off, score);
                self.c0.set(off, 1);
                in_gap = false;
            } else {
                let gap = if in_gap {
                    prev_h0 + SCORE_GAP_EXT
                } else {
                    prev_h0 + SCORE_GAP_START
                };
                self.h0.set(off, max_i16(gap, 0));
                self.c0.set(off, 0);
                in_gap = true;
            }
            prev_h0 = self.h0[off];
            proof {
                assert(tx[off as int] == lower);
                assert(self.bonus@[off as int] == bonus);
                assert(bonus == bn[off as int]);
                if lower != pchar0 && off > 0 {
                    lemma_h0_at(h00, c00, bonus0, tx, bn, pchar0, off as int, off - 1);
                }
                if lower == pchar0 {
                    assert(self.h0@[off as int] == SCORE_MATCH + bonus * BONUS_FIRST_CHAR_MULTIPLIER);
                } else {
                    assert(in_gap_before == (off > 0 && tx[off - 1] != pchar0));
                    if off > 0 {
                        assert(prev_h0_before == gen_h0(tx, bn, pchar0, off - 1));
                    } else {
                        assert(prev_h0_before == 0);
                    }
                    assert(gen_h0(tx, bn, pchar0, off as int) == {
                        let g = gen_h0(tx, bn, pchar0, off - 1) + (if off > 0 && tx[off - 1] != pchar0 { SCORE_GAP_EXT as int } else { SCORE_GAP_START as int });
                        if g >= 0 { g } else { 0 }
                    });
                }
                assert(self.h0@[off as int] == gen_h0(tx, bn, pchar0, off as int));
                lemma_h0_extend(h00, c00, bonus0, self.h0@, self.c0@, self.bonus@, tx, bn, pchar0, off as int);
                if pidx0 < m && lower == self.pattern@[pidx0] {
                    let from = if pidx0 == 0 { 0 } else { first0[pidx0 - 1] + 1 };
                    lemma_win_hit(tx, self.pattern@[pidx0], from, off as int);
                    assert(gen_first(tx, pat, pidx0) == off);
                    assert forall|a: int| 0 <= a < pidx implies #[trigger] self.first@[a] == gen_first(tx, pat, a) by {
                        if a < pidx0 {
                            assert(self.first@[a] == first0[a]);
                        }
                    }
                } else {
                    assert forall|a: int| 0 <= a < pidx implies #[trigger] self.first@[a] == gen_first(tx, pat, a) by {
                        assert(self.first@[a] == first0[a]);
                    }
                }
            }
            off = off + 1;
            proof {
                assert forall|i: int| 0 <= i < m && #[trigger] w[i] < min_idx + off implies i < pidx by {
                    if w[i] == min_idx + off0 && i > 0 {
                        assert(w[i - 1] < w[i]);
                    }
                }
            }
        }
        if pidx != m {
            proof {
                assert(w[m - 1] < min_idx + off);
            }
            return None;
        }
        proof {
            assert(self.first@[m - 1] <= last_idx);
            reveal(window_exact);
            reveal(h0_prefix);
            assert(self.text@ =~= tx);
        }
        Some(last_idx)
    }

    /// The score rows after the first: row `p` from the row above over the columns from the
    /// pattern byte's first column to `last_idx`; the best cell of the last row.
    #[verifier::rlimit(100)]
    #[verifier::spinoff_prover]
    fn fill_rows(&mut self, parts: &[&[u8]], min_idx: usize, max_idx: usize, case_sensitive: bool, f0: usize, last_idx: usize,
        width: usize, Ghost(t): Ghost<Seq<u8>>, Ghost(tx): Ghost<Seq<u8>>, Ghost(bn): Ghost<Seq<int>>, Ghost(pat): Ghost<Seq<u8>>,
        Ghost(firsts): Ghost<Seq<int>>) -> (r: (i16, usize))
        requires
            min_idx < max_idx <= joined(parts@).len(),
            2 <= pat.len() <= V2_PATTERN_LIMIT,
            old(self).text@.len() == (max_idx - min_idx),
            old(self).bonus@.len() == (max_idx - min_idx),
            forall|k: int| 0 <= k < (max_idx - min_idx) ==> 0 <= #[trigger] old(self).bonus@[k] <= 10,
            old(self).first@.len() == pat.len(),
            forall|a: int, b: int| 0 <= a < b < pat.len() ==> #[trigger] old(self).first@[a] < #[trigger] old(self).first@[b],
            forall|a: int| 0 <= a < pat.len() ==> old(self).text@[#[trigger] old(self).first@[a] as int] == old(self).pattern@[a],
            f0 == old(self).first@[0],
            old(self).first@[pat.len() - 1] <= last_idx < (max_idx - min_idx),
            width == last_idx - f0 + 1,
            old(self).score_rows@.len() == 1,
            rows_bounded(old(self).score_rows@, old(self).run_rows@, width as int),
            forall|k: int| 0 <= k < (max_idx - min_idx) ==> #[trigger] old(self).text@[k] == norm(joined(parts@)[min_idx + k], case_sensitive),
            rows_sound(old(self).score_rows@, old(self).text@, old(self).pattern@, old(self).first@, f0 as int, width as int),
            t == joined(parts@),
            tx == win_text(t, min_idx as int, (max_idx - min_idx) as int, case_sensitive),
            bn == win_bonuses(t, min_idx as int, (max_idx - min_idx) as int),
            pat == old(self).pattern@,
            firsts == win_firsts(tx, pat),
            old(self).text@ == tx,
            forall|k: int| 0 <= k < (max_idx - min_idx) ==> #[trigger] old(self).bonus@[k] == bn[k],
            forall|q: int| 0 <= q < pat.len() ==> #[trigger] old(self).first@[q] == firsts[q],
            last_idx == gen_last(tx, pat[pat.len() - 1], (max_idx - min_idx) as int),
            rows_exact(old(self).score_rows@, old(self).run_rows@, tx, bn, pat, firsts, f0 as int, width as int),
        ensures
            min_idx < max_idx <= joined(parts@).len(),
            2 <= pat.len() <= V2_PATTERN_LIMIT,
            final(self).pattern@ == old(self).pattern@,
            final(self).with_positions == old(self).with_positions,
            final(self).fallback == old(self).fallback,
            final(self).text@.len() == (max_idx - min_idx),
            final(self).bonus@.len() == (max_idx - min_idx),
            forall|k: int| 0 <= k < (max_idx - min_idx) ==> 0 <= #[trigger] final(self).bonus@[k] <= 10,
            final(self).first@.len() == pat.len(),
            forall|a: int, b: int| 0 <= a < b < pat.len() ==> #[trigger] final(self).first@[a] < #[trigger] final(self).first@[b],
            forall|a: int| 0 <= a < pat.len() ==> final(self).text@[#[trigger] final(self).first@[a] as int] == final(self).pattern@[a],
            f0 == final(self).first@[0],
            final(self).first@[pat.len() - 1] <= last_idx < (max_idx - min_idx),
            width == last_idx - f0 + 1,
            final(self).score_rows@.len() == pat.len(),
            rows_bounded(final(self).score_rows@, final(self).run_rows@, width as int),
            0 < r.0 && final(self).first@[pat.len() - 1] <= r.1 <= last_idx,
            forall|k: int| 0 <= k < (max_idx - min_idx) ==> #[trigger] final(self).text@[k] == norm(joined(parts@)[min_idx + k], case_sensitive),
            rows_sound(final(self).score_rows@, final(self).text@, final(self).pattern@, final(self).first@, f0 as int, width as int),
            t == joined(parts@),
            tx == win_text(t, min_idx as int, (max_idx - min_idx) as int, case_sensitive),
            bn == win_bonuses(t, min_idx as int, (max_idx - min_idx) as int),
            pat == final(self).pattern@,
            firsts == win_firsts(tx, pat),
            final(self).text@ == tx,
            forall|k: int| 0 <= k < (max_idx - min_idx) ==> #[trigger] final(self).bonus@[k] == bn[k],
            forall|q: int| 0 <= q < pat.len() ==> #[trigger] final(self).first@[q] == firsts[q],
            last_idx == gen_last(tx, pat[pat.len() - 1], (max_idx - min_idx) as int),
            rows_exact(final(self).score_rows@, final(self).run_rows@, tx, bn, pat, firsts, f0 as int, width as int),
            r.0 as int == gen_best(tx, bn, pat, firsts, last_idx as int).0 && r.1 as int == gen_best( tx, bn, pat, firsts, last_idx as int).1,
    {
        let m = self.pattern.len();
        let n = max_idx - min_idx;
        let mut max_score: i16 = 0;
        let mut max_score_pos: usize = 0;
        let mut p: usize = 1;
        while p < m
            invariant
                n == max_idx - min_idx,
                min_idx < max_idx <= joined(parts@).len(),
                m == self.pattern@.len(),
                2 <= m <= V2_PATTERN_LIMIT,
                self.pattern@ == old(self).pattern@,
                self.with_positions == old(self).with_positions,
                self.fallback == old(self).fallback,
                self.text@.len() == n,
                self.bonus@.len() == n,
                forall|k: int| 0 <= k < n ==> 0 <= #[trigger] self.bonus@[k] <= 10,
                self.first@.len() == m,
                forall|a: int, b: int| 0 <= a < b < m ==> #[trigger] self.first@[a] < #[trigger] self.first@[b],
                forall|a: int| 0 <= a < m ==> self.text@[#[trigger] self.first@[a] as int] == self.pattern@[a],
                f0 == self.first@[0],
                self.first@[m - 1] <= last_idx < n,
                width == last_idx - f0 + 1,
                1 <= p <= m,
                self.score_rows@.len() == p,
                rows_bounded(self.score_rows@, self.run_rows@, width as int),
                p == m ==> 0 < max_score && self.first@[m - 1] <= max_score_pos <= last_idx,
                p < m ==> max_score == 0,
                forall|k: int| 0 <= k < n ==> #[trigger] self.text@[k] == norm(joined(parts@)[min_idx + k], case_sensitive),
                rows_sound(self.score_rows@, self.text@, self.pattern@, self.first@, f0 as int, width as int),
                t == joined(parts@),
                tx == win_text(t, min_idx as int, n as int, case_sensitive),
                bn == win_bonuses(t, min_idx as int, n as int),
                pat == self.pattern@,
                firsts == win_firsts(tx, pat),
                self.text@ == tx,
                forall|k: int| 0 <= k < n ==> #[trigger] self.bonus@[k] == bn[k],
                forall|q: int| 0 <= q < m ==> #[trigger] self.first@[q] == firsts[q],
                last_idx == gen_last(tx, pat[m - 1], n as int),
                rows_exact(self.score_rows@, self.run_rows@, tx, bn, pat, firsts, f0 as int, width as int),
                p < m ==> max_score_pos == 0,
                p == m ==> max_score as int == gen_best(tx, bn, pat, firsts, last_idx as int).0 && max_score_pos as int == gen_best(
                    tx, bn, pat, firsts, last_idx as int).1,
            decreases m - p,
        {
            let f = self.first[p];
            proof {
                assert(self.first@[p - 1] < self.first@[p as int]);
                assert(self.first@[0] <= self.first@[p - 1]);
                assert(self.first@[p as int] <= self.first@[m - 1]);
            }
            let mut hrow = filled_vec(0i16, width);
            let mut crow = filled_vec(0i16, width);
            let mut in_gap = false;
            hrow.set(f - f0 - 1, 0);
            let mut col = f;
            proof {
                reveal(row_part);
                assert(self.first@[p - 1] < self.first@[p as int]);
                lemma_gen_cell_step(tx, bn, pat, firsts, p as int, f - 1);
                assert(firsts[p as int] == f);
            }
            while col <= last_idx
                invariant
                    n == max_idx - min_idx,
                    m == self.pattern@.len(),
                    2 <= m <= V2_PATTERN_LIMIT,
                    self.text@.len() == n,
                    self.bonus@.len() == n,
                    forall|k: int| 0 <= k < n ==> 0 <= #[trigger] self.bonus@[k] <= 10,
                    self.first@.len() == m,
                    f == self.first@[p as int],
                    self.text@[f as int] == self.pattern@[p as int],
                    f0 < f <= last_idx < n,
                    width == last_idx - f0 + 1,
                    1 <= p < m,
                    f <= col <= last_idx + 1,
                    self.score_rows@.len() == p,
                    rows_bounded(self.score_rows@, self.run_rows@, width as int),
                    hrow@.len() == width,
                    crow@.len() == width,
                    forall|x: int| 0 <= x < width ==> 0 <= #[trigger] hrow@[x] <= 36 + 26 * p,
                    forall|x: int| 0 <= x < width ==> 0 <= #[trigger] crow@[x] <= p + 1 && crow@[x] <= x + 1,
                    p == m - 1 && col > f ==> 0 < max_score && f <= max_score_pos < col,
                    p < m - 1 || col == f ==> max_score == 0,
                    hrow@[f - f0 - 1] == 0,
                    !in_gap || col > f,
                    row_drops(hrow@, self.text@, f0 as int, f - f0, self.pattern@[p as int], col - f0),
                    col > f ==> hrow@[f - f0] >= self.score_rows@[p - 1]@[f - f0 - 1] + 16,
                    t == joined(parts@),
                    tx == win_text(t, min_idx as int, n as int, case_sensitive),
                    bn == win_bonuses(t, min_idx as int, n as int),
                    pat == self.pattern@,
                    firsts == win_firsts(tx, pat),
                    self.text@ == tx,
                    forall|k: int| 0 <= k < n ==> #[trigger] self.bonus@[k] == bn[k],
                    forall|q: int| 0 <= q < m ==> #[trigger] self.first@[q] == firsts[q],
                    last_idx == gen_last(tx, pat[m - 1], n as int),
                    rows_exact(self.score_rows@, self.run_rows@, tx, bn, pat, firsts, f0 as int, width as int),
                    row_part(hrow@, crow@, tx, bn, pat, firsts, p as int, f0 as int, f - f0, col - f0),
                    in_gap == gen_cell(tx, bn, pat, firsts, p as int, col - 1).2,
                    firsts[p - 1] < firsts[p as int],
                    p < m - 1 ==> max_score_pos == 0,
                    p == m - 1 ==> max_score as int == gen_best(tx, bn, pat, firsts, col - 1).0 && max_score_pos as int == gen_best(
                        tx, bn, pat, firsts, col - 1).1,
                decreases last_idx + 1 - col,
            {
                let j0 = col - f0;
                let ghost h_before = hrow@;
                let ghost c_before = crow@;
                let ghost best_before = (max_score, max_score_pos);
                proof {
                    lemma_gen_cell_step(tx, bn, pat, firsts, p as int, col as int);
                    if col > f {
                        lemma_row_part_at(hrow@, crow@, tx, bn, pat, firsts, p as int, f0 as int, f - f0, col - f0, col - f0 - 1);
                    } else {
                        lemma_gen_cell_step(tx, bn, pat, firsts, p as int, col - 1);
                    }
                    lemma_rows_exact_at(self.score_rows@, self.run_rows@, tx, bn, pat, firsts, f0 as int, width as int, p - 1, col - f0 - 1);
                    assert(self.bonus@[col as int] == bn[col as int]);
                }
                let hleft = hrow[j0 - 1];
                let s2 = if in_gap {
                    hleft + SCORE_GAP_EXT
                } else {
                    hleft + SCORE_GAP_START
                };
                let mut s1: i16 = 0;
                let mut consecutive: i16 = 0;
                if self.pattern[p] == self.text[col] {
                    let prev = self.score_rows[p - 1][j0 - 1];
                    let prev_run = self.run_rows[p - 1][j0 - 1];
                    proof {
                        assert(0 <= self.score_rows@[p - 1]@[j0 - 1] <= 36 + 26 * (p - 1));
                        assert(0 <= self.run_rows@[p - 1]@[j0 - 1] <= p && self.run_rows@[p - 1]@[j0 - 1] <= j0);
                    }
                    s1 = prev + SCORE_MATCH;
                    let mut b = self.bonus[col];
                    consecutive = prev_run + 1;
                    if consecutive > 1 {
                        let first_bonus = self.bonus[col + 1 - (consecutive as usize)];
                        if b >= BONUS_BOUNDARY && b > first_bonus {
                            consecutive = 1;
                        } else {
                            b = max_i16(max_i16(b, BONUS_CONSECUTIVE), first_bonus);
                        }
                    }
                    if s1 + b < s2 {
                        s1 = s1 + self.bonus[col];
                        consecutive = 0;
                    } else {
                        s1 = s1 + b;
                    }
                }
                proof {
                    let cell = gen_cell(tx, bn, pat, firsts, p as int, col as int);
                    assert(consecutive == cell.1);
                }
                crow.set(j0, consecutive);
                in_gap = s1 < s2;
                let score = max_i16(max_i16(s1, s2), 0);
                if p == m - 1 && score > max_score {
                    max_score = score;
                    max_score_pos = col;
                }
                hrow.set(j0, score);
                proof {
                    let cell = gen_cell(tx, bn, pat, firsts, p as int, col as int);
                    assert(score == cell.0);
                    assert(in_gap == cell.2);
                    lemma_row_part_extend(h_before, c_before, hrow@, crow@, tx, bn, pat, firsts, p as int, f0 as int, f - f0, col - f0);
                }
                col = col + 1;
            }
            let ghost before = self.score_rows@;
            proof {
                lemma_rows_exact_push(self.score_rows@, self.run_rows@, hrow, crow, tx, bn, pat, firsts, f0 as int, width as int);
            }
            self.score_rows.push(hrow);
            self.run_rows.push(crow);
            p = p + 1;
            proof {
                reveal(rows_sound);
                assert(self.score_rows@ == before.push(hrow));
            }
        }
        (max_score, max_score_pos)
    }

    /// The general case: a bonus and first-byte row over the window, the first occurrence of
    /// each pattern byte in order, then one score row per further pattern byte over the
    /// columns from that byte's first occurrence on, and the walk back from the best cell of
    /// the last row.
    #[verifier::rlimit(90)]
    #[verifier::spinoff_prover]
    fn find_general(&mut self, parts: &[&[u8]], min_idx: usize, max_idx: usize, case_sensitive: bool) -> (r: Option<Match>)
        requires
            joined(parts@).len() <= usize::MAX,
            min_idx < max_idx <= joined(parts@).len(),
            2 <= old(self).pattern@.len() <= V2_PATTERN_LIMIT,
            old(self).pattern@.len() * joined(parts@).len() <= V2_I16_SLAB_LIMIT,
            window_of(joined(parts@), old(self).pattern@, case_sensitive, min_idx as int, max_idx as int),
        ensures
            r is Some,
            final(self).pattern@ == old(self).pattern@,
            final(self).with_positions == old(self).with_positions,
            final(self).fallback == old(self).fallback,
            well_placed(r, joined(parts@).len() as int, old(self).with_positions),
            r matches Some(m) ==> min_idx <= m.start,
            r matches Some(m) ==> m.end <= max_idx && m.score > 0,
            r matches Some(m) ==> m.score == gen_score(joined(parts@), min_idx as int, max_idx - min_idx, old(self).pattern@, case_sensitive),
            r matches Some(m) ==> ({
                let pat = old(self).pattern@;
                let tx = win_text(joined(parts@), min_idx as int, max_idx - min_idx, case_sensitive);
                let bn = win_bonuses(joined(parts@), min_idx as int, max_idx - min_idx);
                let firsts = win_firsts(tx, pat);
                let last = gen_last(tx, pat[pat.len() - 1], max_idx - min_idx);
                let walk = gen_walk(tx, bn, pat, firsts, firsts[0], last, pat.len() - 1, gen_best(tx, bn, pat, firsts, last).1, true);
                &&& walk.len() == pat.len()
                &&& m.start == min_idx + walk.last()
                &&& m.end == min_idx + walk[0] + 1
                &&& old(self).with_positions ==> m.positions@ == walk.reverse().map_values(|c: int| (min_idx + c) as usize)
            }),
            r matches Some(m) ==> (old(self).with_positions ==> embeds(joined(parts@), old(self).pattern@, case_sensitive, m.positions@)),
    {
        let ghost tl = joined(parts@).len() as int;
        let n = max_idx - min_idx;
        let m = self.pattern.len();
        proof {
            assert(m * n <= m * tl) by (nonlinear_arith)
                requires n <= tl, 0 <= m;
        }
        let last_idx = match self.scan_window(parts, min_idx, max_idx, case_sensitive) {
            Some(l) => l,
            None => {
                return None;
            },
        };
        let pchar0 = self.pattern[0];
        let ghost t = joined(parts@);
        let ghost tx = win_text(t, min_idx as int, n as int, case_sensitive);
        let ghost bn = win_bonuses(t, min_idx as int, n as int);
        let ghost pat = self.pattern@;
        let ghost firsts = win_firsts(tx, pat);
        proof {
            lemma_window_exact_at(self.text@, self.bonus@, self.h0@, self.c0@, self.first@, last_idx as int, t, min_idx as int, n as int,
                pat, case_sensitive);
            assert forall|q: int| 0 <= q < m implies #[trigger] self.first@[q] == firsts[q] by {
                assert(self.first@[q] == gen_first(tx, pat, q));
            }
        }
        let f0 = self.first[0];
        let width = last_idx - f0 + 1;
        proof {
            assert(self.first@[0] <= self.first@[m - 1]);
            assert(m * width <= m * n) by (nonlinear_arith)
                requires width <= n, 0 <= m;
        }
        let mut row0: Vec<i16> = Vec::new();
        let mut run0: Vec<i16> = Vec::new();
        let mut k: usize = f0;
        while k <= last_idx
            invariant
                f0 <= k <= last_idx + 1,
                last_idx < n,
                width == last_idx - f0 + 1,
                self.h0@.len() == n,
                self.c0@.len() == n,
                forall|i: int| 0 <= i < n ==> 0 <= #[trigger] self.h0@[i] <= 36,
                forall|i: int| 0 <= i < n ==> 0 <= #[trigger] self.c0@[i] <= 1,
                row0@.len() == k - f0,
                run0@.len() == k - f0,
                forall|x: int| 0 <= x < row0@.len() ==> 0 <= #[trigger] row0@[x] <= 36,
                forall|x: int| 0 <= x < run0@.len() ==> 0 <= #[trigger] run0@[x] <= 1,
                self.text@.len() == n,
                self.text@[f0 as int] == pchar0,
                forall|q: int| 0 <= q < n && self.text@[q] != pchar0 ==> #[trigger] self.h0@[q] == 0 || (q > 0 && self.h0@[q] < self.h0@[q - 1]),
                forall|q: int| 0 <= q < n && self.text@[q] == pchar0 ==> #[trigger] self.h0@[q] >= 16,
                forall|x: int| 0 <= x < row0@.len() ==> #[trigger] row0@[x] == self.h0@[f0 + x],
                forall|x: int| 0 <= x < run0@.len() ==> #[trigger] run0@[x] == self.c0@[f0 + x],
                row_drops(row0@, self.text@, f0 as int, 0, pchar0, row0@.len() as int),
                row0@.len() > 0 ==> row0@[0] >= 16,
            decreases last_idx + 1 - k,
        {
            row0.push(self.h0[k]);
            run0.push(self.c0[k]);
            k = k + 1;
        }
        self.score_rows.clear();
        self.run_rows.clear();
        let ghost r0 = row0@;
        let ghost u0 = run0@;
        self.score_rows.push(row0);
        self.run_rows.push(run0);
        proof {
            reveal(rows_sound);
            reveal(rows_exact);
            assert(self.score_rows@[0]@ == r0 && self.run_rows@[0]@ == u0);
            assert forall|x: int| 0 <= x < width implies #[trigger] self.score_rows@[0]@[x] == gen_h0(tx, bn, pat[0], f0 + x)
                && self.run_rows@[0]@[x] == (if tx[f0 + x] == pat[0] { 1int } else { 0int }) by {
                assert(r0[x] == self.h0@[f0 + x]);
                assert(u0[x] == self.c0@[f0 + x]);
                assert(self.h0@[f0 + x] == gen_h0(tx, bn, pat[0], f0 + x));
                assert(self.c0@[f0 + x] == (if tx[f0 + x] == pat[0] { 1int } else { 0int }));
            }
            assert(rows_exact(self.score_rows@, self.run_rows@, tx, bn, pat, firsts, f0 as int, width as int));
        }
        let (max_score, max_score_pos) = self.fill_rows(parts, min_idx, max_idx, case_sensitive, f0, last_idx, width, Ghost(t),
            Ghost(tx), Ghost(bn), Ghost(pat), Ghost(firsts));
        let r = self.backtrace(min_idx, f0, last_idx, max_score, max_score_pos, width, Ghost(n as int), Ghost(tl), Ghost(tx), Ghost(bn),
            Ghost(firsts));
        proof {
            if r is Some {
                let found = r->0;
                if self.with_positions {
                    assert forall|i: int| 0 <= i < found.positions@.len() implies #[trigger] found.positions@[i]
                        < joined(parts@).len() && norm(joined(parts@)[found.positions@[i] as int], case_sensitive)
                        == self.pattern@[i] by {
                        let k = found.positions@[i] - min_idx;
                        assert(self.text@[k] == norm(joined(parts@)[min_idx + k], case_sensitive));
                    }
                }
            }
        }
        r
    }

    /// The walk back from the best cell of the last row: a position is kept where the cell
    /// beats its diagonal and its left neighbour (or ties it while a run is preferred), and
    /// the walk then moves one row up.
    #[verifier::rlimit(40)]
    #[verifier::spinoff_prover]
    fn backtrace(
        &mut self,
        min_idx: usize,
        f0: usize,
        last_idx: usize,
        max_score: i16,
        max_score_pos: usize,
        width: usize,
        Ghost(n): Ghost<int>,
        Ghost(tl): Ghost<int>,
        Ghost(tx): Ghost<Seq<u8>>,
        Ghost(bn): Ghost<Seq<int>>,
        Ghost(firsts): Ghost<Seq<int>>,
    ) -> (r: Option<Match>)
        requires
            rows_exact(old(self).score_rows@, old(self).run_rows@, tx, bn, old(self).pattern@, firsts, f0 as int, width as int),
            forall|q: int| 0 <= q < old(self).pattern@.len() ==> #[trigger] old(self).first@[q] == firsts[q],
            min_idx + n <= tl <= usize::MAX,
            2 <= old(self).pattern@.len(),
            old(self).first@.len() == old(self).pattern@.len(),
            forall|a: int, b: int| 0 <= a < b < old(self).pattern@.len() ==> #[trigger] old(self).first@[a]
                < #[trigger] old(self).first@[b],
            f0 == old(self).first@[0],
            old(self).first@[old(self).pattern@.len() - 1] <= max_score_pos <= last_idx < n,
            width == last_idx - f0 + 1,
            old(self).score_rows@.len() == old(self).pattern@.len(),
            rows_bounded(old(self).score_rows@, old(self).run_rows@, width as int),
            old(self).text@.len() == n,
            rows_sound(old(self).score_rows@, old(self).text@, old(self).pattern@, old(self).first@, f0 as int, width as int),
        ensures
            final(self).pattern@ == old(self).pattern@,
            final(self).with_positions == old(self).with_positions,
            final(self).fallback == old(self).fallback,
            final(self).text@ == old(self).text@,
            well_placed(r, tl, old(self).with_positions),
            r matches Some(m) ==> min_idx <= m.start,
            r matches Some(m) ==> (old(self).with_positions ==> m.positions@.len() == old(self).pattern@.len()
                && forall|i: int| 0 <= i < m.positions@.len() ==> min_idx <= #[trigger] m.positions@[i] < min_idx + n
                    && old(self).text@[m.positions@[i] - min_idx] == old(self).pattern@[i]),
            r matches Some(m) ==> m.score == max_score && m.end <= min_idx + n,
            r matches Some(m) ==> ({
                let walk = gen_walk(tx, bn, old(self).pattern@, firsts, f0 as int, last_idx as int, old(self).pattern@.len() - 1,
                    max_score_pos as int, true);
                &&& walk.len() == old(self).pattern@.len()
                &&& m.start == min_idx + walk.last()
                &&& m.end == min_idx + walk[0] + 1
                &&& old(self).with_positions ==> m.positions@ == walk.reverse().map_values(|c: int| (min_idx + c) as usize)
            }),
            r is Some,
    {
        let m = self.pattern.len();
        self.positions.clear();
        let mut row: usize = m - 1;
        let mut j = max_score_pos;
        let mut prefer_match = true;
        let mut done = false;
        let ghost pat = self.pattern@;
        let ghost full = gen_walk(tx, bn, pat, firsts, f0 as int, last_idx as int, m - 1, max_score_pos as int, true);
        let ghost mut sofar: Seq<int> = Seq::empty();
        proof {
            assert(self.positions@ =~= sofar.map_values(|c: int| (min_idx + c) as usize));
            assert(sofar + full =~= full);
        }
        while !done
            invariant
                pat == self.pattern@,
                rows_exact(self.score_rows@, self.run_rows@, tx, bn, pat, firsts, f0 as int, width as int),
                forall|q: int| 0 <= q < m ==> #[trigger] self.first@[q] == firsts[q],
                full == gen_walk(tx, bn, pat, firsts, f0 as int, last_idx as int, m - 1, max_score_pos as int, true),
                self.positions@ == sofar.map_values(|c: int| (min_idx + c) as usize),
                forall|a: int| 0 <= a < sofar.len() ==> 0 <= #[trigger] sofar[a] < n,
                !done ==> sofar + gen_walk(tx, bn, pat, firsts, f0 as int, last_idx as int, row as int, j as int, prefer_match) == full,
                done ==> sofar == full,
                min_idx + n <= tl <= usize::MAX,
                m == self.pattern@.len(),
                2 <= m,
                self.pattern@ == old(self).pattern@,
                self.with_positions == old(self).with_positions,
                self.fallback == old(self).fallback,
                self.first@ == old(self).first@,
                self.first@.len() == m,
                forall|a: int, b: int| 0 <= a < b < m ==> #[trigger] self.first@[a] < #[trigger] self.first@[b],
                f0 == self.first@[0],
                f0 <= j <= last_idx < n,
                width == last_idx - f0 + 1,
                row < m,
                self.score_rows@.len() == m,
                rows_bounded(self.score_rows@, self.run_rows@, width as int),
                decreasing_within(self.positions@, min_idx + j, min_idx + n),
                !done ==> forall|a: int| 0 <= a < self.positions@.len() ==> #[trigger] self.positions@[a] > min_idx + j,
                self.text@ == old(self).text@,
                self.text@.len() == n,
                rows_sound(self.score_rows@, self.text@, self.pattern@, self.first@, f0 as int, width as int),
                !done ==> self.first@[row as int] <= j && self.positions@.len() == m - 1 - row,
                done ==> self.positions@.len() == m,
                forall|a: int| 0 <= a < self.positions@.len() ==> self.text@[#[trigger] self.positions@[a] - min_idx]
                    == self.pattern@[m - 1 - a],
            decreases 2 * j + (if done { 0int } else { 1int }),
        {
            let j0 = j - f0;
            let first_row = self.first[row];
            let score = self.score_rows[row][j0];
            let diagonal = if row > 0 && j >= first_row {
                proof {
                    assert(self.first@[0] < self.first@[row as int]);
                }
                self.score_rows[row - 1][j0 - 1]
            } else {
                0
            };
            let left = if j > first_row {
                self.score_rows[row][j0 - 1]
            } else {
                0
            };
            let current_row = row;
            let run = self.run_rows[row][j0];
            let ghost prefer0 = prefer_match;
            let ghost j_0 = j as int;
            let ghost sofar0 = sofar;
            proof {
                lemma_gen_walk_step(tx, bn, pat, firsts, f0 as int, last_idx as int, row as int, j as int, prefer_match);
                lemma_rows_exact_at(self.score_rows@, self.run_rows@, tx, bn, pat, firsts, f0 as int, width as int, row as int, j0 as int);
                if row > 0 && j >= first_row {
                    assert(self.first@[row - 1] < self.first@[row as int]);
                    lemma_rows_exact_at(self.score_rows@, self.run_rows@, tx, bn, pat, firsts, f0 as int, width as int, row - 1, j0 - 1);
                }
                if j > first_row {
                    lemma_rows_exact_at(self.score_rows@, self.run_rows@, tx, bn, pat, firsts, f0 as int, width as int, row as int, j0 - 1);
                }
                if row + 1 < m && j < last_idx && j + 1 >= self.first[row + 1] {
                    lemma_rows_exact_at(self.score_rows@, self.run_rows@, tx, bn, pat, firsts, f0 as int, width as int, row + 1, j0 + 1);
                }
                lemma_sound_cell(self.score_rows@, self.text@, self.pattern@, self.first@, f0 as int, width as int, row as int, j as int);
            }
            if score > diagonal && (score > left || score == left && prefer_match) {
                proof {
                    assert(self.text@[j as int] == self.pattern@[row as int]);
                }
                self.positions.push(j + min_idx);
                proof {
                    sofar = sofar.push(j as int);
                    assert(self.positions@ =~= sofar.map_values(|c: int| (min_idx + c) as usize));
                }
                if row == 0 {
                    done = true;
                } else {
                    row = row - 1;
                }
            }
            if !done {
                prefer_match = run > 1 || current_row + 1 < m && j < last_idx && j + 1 >= self.first[current_row + 1]
                    && self.run_rows[current_row + 1][j0 + 1] > 0;
                if j == f0 {
                    done = true;
                } else {
                    j = j - 1;
                }
            }
            proof {
                let w0 = gen_walk(tx, bn, pat, firsts, f0 as int, last_idx as int, current_row as int, j_0, prefer0);
                if done {
                    assert(sofar =~= sofar0 + w0);
                } else {
                    assert(sofar + gen_walk(tx, bn, pat, firsts, f0 as int, last_idx as int, row as int, j as int, prefer_match)
                        =~= sofar0 + w0);
                }
            }
        }
        let ghost found = self.positions@;
        self.reverse_positions(Ghost(min_idx as int), Ghost(tl));
        proof {
            assert forall|i: int| 0 <= i < self.positions@.len() implies min_idx <= #[trigger] self.positions@[i]
                < min_idx + n && self.text@[self.positions@[i] - min_idx] == self.pattern@[i] by {
                assert(self.positions@[i] == found[m - 1 - i]);
            }
            assert(self.positions@[m - 1] == found[0]);
            assert(self.positions@ =~= full.reverse().map_values(|c: int| (min_idx + c) as usize));
        }
        self.match_from_positions(max_score, Ghost(tl))
    }

    /// The greedy match, scored over its window; used for case-sensitive searches too big
    /// for the matrices.
    fn greedy_fallback(&mut self, parts: &[&[u8]], case_sensitive: bool) -> (r: Option<Match>)
        requires
            joined(parts@).len() <= usize::MAX,
            old(self).pattern@.len() >= 1,
            case_sensitive || folded(old(self).pattern@),
        ensures
            final(self).pattern@ == old(self).pattern@,
            final(self).with_positions == old(self).with_positions,
            final(self).fallback == old(self).fallback,
            well_placed(r, joined(parts@).len() as int, old(self).with_positions),
            match greedy_positions(joined(parts@), old(self).pattern@, case_sensitive) {
                None => r is None,
                Some(ps) => r matches Some(m) && m.score == window_score(joined(parts@), ps) && m.start
                    == ps[0] && m.end == ps.last() + 1 && (old(self).with_positions ==> m.positions@ == ps),
            },
    {
        let ghost t = joined(parts@);
        let ghost p = self.pattern@;
        let end = match forward_end(parts, &self.pattern, case_sensitive) {
            None => {
                return None;
            },
            Some(e) => e,
        };
        proof {
            lemma_forward_last(t, p, case_sensitive, 0, 0, 0);
        }
        let back = backward_positions(parts, &self.pattern, end, case_sensitive);
        proof {
            let b = backward_from(t, p, case_sensitive, p.len() as int, end as int);
            lemma_backward_len(t, p, case_sensitive, p.len() as int, end as int);
            lemma_backward_decreasing(t, p, case_sensitive, p.len() as int, end as int);
            assert forall|a: int, c: int| 0 <= a < c < back@.len() implies #[trigger] back@[a] < #[trigger] back@[c] by {
                assert(back@[a] == b[b.len() - 1 - a]);
                assert(back@[c] == b[b.len() - 1 - c]);
            }
            assert forall|a: int| 0 <= a < back@.len() implies #[trigger] back@[a] < t.len() by {
                assert(back@[a] == b[b.len() - 1 - a]);
            }
        }
        self.positions = back;
        let score = score_window(parts, &self.positions);
        self.match_from_positions(score, Ghost(t.len() as int))
    }

    /// The search with the stored pattern: nothing for an empty pattern or one longer than
    /// the text; past the matrix limits, the greedy match when case matters and the
    /// (unprepared) v1 matcher otherwise; then the one- and two-byte fast paths and the
    /// general matrix over the window that can hold a match.
    fn find_best_prepared(&mut self, parts: &[&[u8]], case_sensitive: bool) -> (r: Option<Match>)
        requires
            old(self).wf(),
            joined(parts@).len() <= usize::MAX,
            case_sensitive || folded(old(self).pattern@),
        ensures
            final(self).wf(),
            final(self).pattern@ == old(self).pattern@,
            final(self).with_positions == old(self).with_positions,
            prepared_result(r, joined(parts@), old(self).pattern@, case_sensitive, old(self).with_positions),
    {
        let ghost t = joined(parts@);
        let pattern_len = self.pattern.len();
        let text_len = parts_len(parts);
        proof {
            lemma_forward_fits(t, self.pattern@, case_sensitive);
        }
        if pattern_len == 0 || pattern_len > text_len {
            return None;
        }
        let over = match pattern_len.checked_mul(text_len) {
            Some(cells) => cells > V2_I16_SLAB_LIMIT,
            None => true,
        };
        if pattern_len > V2_PATTERN_LIMIT || over {
            if case_sensitive {
                proof {
                    lemma_greedy_embeds(t, self.pattern@, true);
                }
                return self.greedy_fallback(parts, true);
            }
            if self.with_positions {
                return self.fallback.find_best_with_positions_prepared(parts, false);
            } else {
                return match self.fallback.find_best_bounds_prepared(parts, false) {
                    Some(bounds) => Some(
                        Match { score: bounds.score, start: bounds.start, end: bounds.end, positions: Vec::new() },
                    ),
                    None => None,
                };
            }
        }
        if pattern_len == 1 {
            proof {
                if let Some(q) = next_hit(t, 0, self.pattern@[0], case_sensitive) {
                    assert(forward_from(t, self.pattern@, case_sensitive, 1, q + 1, q + 1) == Some(q + 1));
                }
            }
            return self.find_single(parts, case_sensitive);
        }
        let (min_idx, max_idx) = match ascii_fuzzy_index(parts, &self.pattern, case_sensitive) {
            Some(w) => w,
            None => {
                return None;
            },
        };
        if pattern_len == 2 {
            return self.find_two(parts, min_idx, max_idx, case_sensitive);
        }
        self.find_general(parts, min_idx, max_idx, case_sensitive)
    }

    /// The best match's score and range (positions are not collected).
    pub fn find_best_bounds_prepared(&mut self, parts: &[&[u8]], case_sensitive: bool) -> (r: Option<MatchBounds>)
        requires
            old(self).wf(),
            joined(parts@).len() <= usize::MAX,
            case_sensitive || folded(old(self).pattern_view()),
        ensures
            final(self).wf(),
            final(self).pattern_view() == old(self).pattern_view(),
            !final(self).wants_positions(),
            exists|m: Option<Match>| #[trigger] prepared_result(m, joined(parts@), old(self).pattern_view(), case_sensitive, false)
                && bounds_of(m) == r,
    {
        self.with_positions = false;
        let found = self.find_best_prepared(parts, case_sensitive);
        let ghost m = found;
        assert(prepared_result(m, joined(parts@), old(self).pattern_view(), case_sensitive, false));
        let r = match found {
            Some(matched) => Some(MatchBounds { score: matched.score, start: matched.start, end: matched.end }),
            None => None,
        };
        assert(bounds_of(m) == r);
        r
    }

    /// The best match with its positions.
    pub fn find_best_with_positions_prepared(&mut self, parts: &[&[u8]], case_sensitive: bool) -> (r: Option<Match>)
        requires
            old(self).wf(),
            joined(parts@).len() <= usize::MAX,
            case_sensitive || folded(old(self).pattern_view()),
        ensures
            final(self).wf(),
            final(self).pattern_view() == old(self).pattern_view(),
            final(self).wants_positions(),
            prepared_result(r, joined(parts@), old(self).pattern_view(), case_sensitive, true),
    {
        self.with_positions = true;
        self.find_best_prepared(parts, case_sensitive)
    }

    /// The best match of `pattern`, ignoring ASCII case.
    pub fn find_best(&mut self, pattern: &[u8], parts: &[&[u8]]) -> (r: Option<Match>)
        requires
            old(self).wf(),
            joined(parts@).len() <= usize::MAX,
        ensures
            final(self).wf(),
            final(self).pattern_view() == lowered(pattern@),
            prepared_result(r, joined(parts@), lowered(pattern@), false, true),
    {
        let mut bytes: Vec<u8> = Vec::new();
        let mut i: usize = 0;
        while i < pattern.len()
            invariant
                i <= pattern@.len(),
                bytes@ == lowered(pattern@).take(i as int),
            decreases pattern@.len() - i,
        {
            bytes.push(ascii_lower(pattern[i]));
            i = i + 1;
            proof {
                assert(bytes@ =~= lowered(pattern@).take(i as int));
            }
        }
        proof {
            assert(bytes@ =~= lowered(pattern@));
            assert forall|k: int| 0 <= k < bytes@.len() implies !is_upper(#[trigger] bytes@[k]) by {}
        }
        let compiled = CompiledPattern { bytes, case_sensitive: false };
        self.prepare(&compiled);
        self.find_best_with_positions_prepared(parts, false)
    }

    /// The best match of `pattern`, as a list of at most one match.
    pub fn find_parts(&mut self, pattern: &[u8], parts: &[&[u8]]) -> (r: Vec<Match>)
        requires
            old(self).wf(),
            joined(parts@).len() <= usize::MAX,
        ensures
            final(self).wf(),
            final(self).pattern_view() == lowered(pattern@),
            exists|m: Option<Match>| #[trigger] prepared_result(m, joined(parts@), lowered(pattern@), false, true)
                && r@ == option_seq(m),
    {
        let found = self.find_best(pattern, parts);
        let ghost m = found;
        let mut out: Vec<Match> = Vec::new();
        if let Some(x) = found {
            out.push(x);
        }
        assert(out@ == option_seq(m));
        out
    }

    /// The best match of `pattern`, with case mattering.
    pub fn find_best_case_sensitive(&mut self, pattern: &[u8], parts: &[&[u8]]) -> (r: Option<Match>)
        requires
            old(self).wf(),
            joined(parts@).len() <= usize::MAX,
        ensures
            final(self).wf(),
            final(self).pattern_view() == pattern@,
            prepared_result(r, joined(parts@), pattern@, true, true),
    {
        let bytes = bytes_to_vec(pattern);
        let compiled = CompiledPattern { bytes, case_sensitive: true };
        self.prepare(&compiled);
        self.find_best_with_positions_prepared(parts, true)
    }

    /// The best single occurrence of a one-byte pattern: the first occurrence with the
    /// highest score, stopping early at one that starts a word.
    fn find_single(&mut self, parts: &[&[u8]], case_sensitive: bool) -> (r: Option<Match>)
        requires
            joined(parts@).len() <= usize::MAX,
            old(self).pattern@.len() == 1,
            case_sensitive || folded(old(self).pattern@),
        ensures
            final(self).pattern@ == old(self).pattern@,
            final(self).with_positions == old(self).with_positions,
            final(self).fallback == old(self).fallback,
            well_placed(r, joined(parts@).len() as int, old(self).with_positions),
            r is None <==> next_hit(joined(parts@), 0, old(self).pattern@[0], case_sensitive) is None,
            r matches Some(m) ==> m.end == m.start + 1 && norm(joined(parts@)[m.start as int], case_sensitive)
                == old(self).pattern@[0],
            r matches Some(m) ==> (old(self).with_positions ==> embeds(joined(parts@), old(self).pattern@, case_sensitive, m.positions@)),
            r matches Some(m) ==> m.score == single_scan(joined(parts@), old(self).pattern@[0], case_sensitive, 0, 0, None).0
                && single_scan(joined(parts@), old(self).pattern@[0], case_sensitive, 0, 0, None).1 == Some(m.start as int),
    {
        let ghost t = joined(parts@);
        let pattern = self.pattern[0];
        let mut idx: usize = 0;
        let mut max_score: i16 = 0;
        let mut max_score_pos: Option<usize> = None;
        let mut done = false;
        while !done
            invariant
                t == joined(parts@),
                t.len() <= usize::MAX,
                case_sensitive || !is_upper(pattern),
                idx <= t.len(),
                max_score_pos matches Some(q) ==> q < t.len() && norm(t[q as int], case_sensitive) == pattern
                    && max_score > 0,
                max_score_pos is None ==> max_score == 0 && next_hit(t, 0, pattern, case_sensitive) == next_hit(t, idx as int, pattern, case_sensitive),
                max_score_pos is Some ==> next_hit(t, 0, pattern, case_sensitive) is Some,
                done && max_score_pos is None ==> next_hit(t, idx as int, pattern, case_sensitive) is None,
                single_scan(t, pattern, case_sensitive, 0, 0, None) == (if done {
                    (max_score as int, match max_score_pos { Some(q) => Some(q as int), None => None })
                } else {
                    single_scan(t, pattern, case_sensitive, idx as int, max_score as int, match max_score_pos {
                        Some(q) => Some(q as int),
                        None => None,
                    })
                }),
            decreases (t.len() + 1 - idx) * 2 + (if done { 0int } else { 1int }),
        {
            match find_next(parts, idx, pattern, case_sensitive) {
                None => {
                    done = true;
                },
                Some(pos) => {
                    proof {
                        lemma_next_hit_is_hit(t, idx as int, pattern, case_sensitive);
                    }
                    let class = char_class(byte_at(parts, pos));
                    let prev_class = if pos == 0 {
                        CharClass::White
                    } else {
                        char_class(byte_at(parts, pos - 1))
                    };
                    let bonus = bonus_for(prev_class, class);
                    let score = SCORE_MATCH + bonus * BONUS_FIRST_CHAR_MULTIPLIER;
                    if score > max_score {
                        max_score = score;
                        max_score_pos = Some(pos);
                        if bonus >= BONUS_BOUNDARY {
                            done = true;
                        }
                    }
                    if !done {
                        idx = pos + 1;
                    }
                },
            }
        }
        match max_score_pos {
            None => None,
            Some(pos) => {
                let positions = if self.with_positions {
                    let mut v: Vec<usize> = Vec::new();
                    v.push(pos);
                    v
                } else {
                    Vec::new()
                };
                Some(Match { score: max_score, start: pos, end: pos + 1, positions })
            },
        }
    }
}

} // verus!
