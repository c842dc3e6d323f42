use vstd::prelude::*;
use crate::fuzzy::{byte_at, parts_len, CompiledPattern, Match, MatchBounds};
use crate::searcher::memmem::{joined, lemma_joined_part, lemma_joined_take_step};

verus! {

pub const SCORE_MATCH: i16 = 16;
pub const SCORE_GAP_START: i16 = -3;
pub const SCORE_GAP_EXT: i16 = -1;
pub const BONUS_BOUNDARY: i16 = 8;
pub const BONUS_NON_WORD: i16 = 8;
pub const BONUS_CAMEL123: i16 = 7;
pub const BONUS_BOUNDARY_WHITE: i16 = 10;
pub const BONUS_BOUNDARY_DELIMITER: i16 = 9;
pub const BONUS_CONSECUTIVE: i16 = 4;
pub const BONUS_FIRST_CHAR_MULTIPLIER: i16 = 2;
pub const MAX_MATCH_SPAN_PER_PATTERN_BYTE: usize = 4;

pub open spec fn is_upper(b: u8) -> bool {
    65 <= b <= 90
}

pub open spec fn is_lower(b: u8) -> bool {
    97 <= b <= 122
}

pub open spec fn is_digit(b: u8) -> bool {
    48 <= b <= 57
}

/// ASCII upper case folded to lower case.
pub open spec fn lower(b: u8) -> u8 {
    if is_upper(b) {
        (b + 32) as u8
    } else {
        b
    }
}

/// A text byte as the pattern sees it: folded unless the match is case sensitive.
pub open spec fn norm(b: u8, case_sensitive: bool) -> u8 {
    if case_sensitive {
        b
    } else {
        lower(b)
    }
}

/// The fzf v1 matcher: a greedy forward scan, a backward shrink and a score of the window.
pub struct FzfMatcher {
    pattern: Vec<u8>,
    positions: Vec<usize>,
}

pub fn ascii_lower(byte: u8) -> (r: u8)
    ensures
        r == lower(byte),
{
    if 65 <= byte && byte <= 90 {
        byte + 32
    } else {
        byte
    }
}

/// The pattern can be matched without case: it holds no ASCII upper-case letter.
pub open spec fn folded(p: Seq<u8>) -> bool {
    forall|i: int| 0 <= i < p.len() ==> !is_upper(#[trigger] p[i])
}

/// The first position at or after `from` whose byte matches `byte`.
pub open spec fn next_hit(t: Seq<u8>, from: int, byte: u8, cs: bool) -> Option<int>
    decreases t.len() - from,
{
    if from < 0 || from >= t.len() {
        None
    } else if norm(t[from], cs) == byte {
        Some(from)
    } else {
        next_hit(t, from + 1, byte, cs)
    }
}

/// The end of the leftmost greedy occurrence of `p[k..]` as a subsequence of `t[start..]`
/// (`end` when nothing is left to match).
pub open spec fn forward_from(t: Seq<u8>, p: Seq<u8>, cs: bool, k: int, start: int, end: int) -> Option<int>
    decreases p.len() - k,
{
    if k < 0 || k >= p.len() {
        Some(end)
    } else {
        match next_hit(t, start, p[k], cs) {
            None => None,
            Some(pos) => forward_from(t, p, cs, k + 1, pos + 1, pos + 1),
        }
    }
}

/// The last position before `pos` whose byte matches `byte`.
pub open spec fn prev_hit(t: Seq<u8>, pos: int, byte: u8, cs: bool) -> Option<int>
    decreases pos,
{
    if pos <= 0 || pos > t.len() {
        None
    } else if norm(t[pos - 1], cs) == byte {
        Some(pos - 1)
    } else {
        prev_hit(t, pos - 1, byte, cs)
    }
}

/// The positions that matching `p[..j]` backwards from `pos` finds, last pattern byte
/// first: each byte at the last matching position before the previous one.
pub open spec fn backward_from(t: Seq<u8>, p: Seq<u8>, cs: bool, j: int, pos: int) -> Seq<usize>
    decreases j,
{
    if j <= 0 || j > p.len() {
        Seq::empty()
    } else {
        match prev_hit(t, pos, p[j - 1], cs) {
            None => backward_from(t, p, cs, j - 1, 0),
            Some(q) => seq![q as usize] + backward_from(t, p, cs, j - 1, q),
        }
    }
}

/// The bonus for matching `current` after `previous` (`None` at the start of the text).
pub open spec fn bonus(previous: Option<u8>, current: u8) -> int {
    match previous {
        None => BONUS_BOUNDARY_WHITE as int,
        Some(prev) => if prev == 32 || prev == 9 {
            BONUS_BOUNDARY_WHITE as int
        } else if prev == 47 || prev == 92 || prev == 58 || prev == 59 || prev == 44 {
            BONUS_BOUNDARY_DELIMITER as int
        } else if prev == 95 || prev == 45 || prev == 46 {
            BONUS_BOUNDARY as int
        } else if is_lower(prev) && is_upper(current) {
            BONUS_CAMEL123 as int
        } else if is_digit(prev) && !is_digit(current) {
            BONUS_CAMEL123 as int
        } else if !(is_lower(prev) || is_upper(prev) || is_digit(prev)) {
            BONUS_NON_WORD as int
        } else {
            0
        },
    }
}

pub fn bonus_for(previous: Option<u8>, current: u8) -> (r: i16)
    ensures
        r == bonus(previous, current),
{
    match previous {
        None => BONUS_BOUNDARY_WHITE,
        Some(prev) => {
            if prev == 32 || prev == 9 {
                BONUS_BOUNDARY_WHITE
            } else if prev == 47 || prev == 92 || prev == 58 || prev == 59 || prev == 44 {
                BONUS_BOUNDARY_DELIMITER
            } else if prev == 95 || prev == 45 || prev == 46 {
                BONUS_BOUNDARY
            } else if (97 <= prev && prev <= 122) && (65 <= current && current <= 90) {
                BONUS_CAMEL123
            } else if (48 <= prev && prev <= 57) && !(48 <= current && current <= 57) {
                BONUS_CAMEL123
            } else if !((97 <= prev && prev <= 122) || (65 <= prev && prev <= 90) || (48 <= prev
                && prev <= 57)) {
                BONUS_NON_WORD
            } else {
                0
            }
        },
    }
}

/// The running state of scoring a window: score, whether in a gap, the length of the run of
/// consecutive matches, the bonus of that run's first byte, and how much of the pattern is
/// matched.
pub struct ScoreState {
    pub score: int,
    pub in_gap: bool,
    pub consecutive: int,
    pub first_bonus: int,
    pub pidx: int,
}

/// One step of scoring: the byte at `idx` either matches the next pattern byte (the match
/// score plus a bonus, doubled for the first pattern byte and raised within a run of
/// consecutive matches) or opens or extends a gap.
pub open spec fn score_step(t: Seq<u8>, p: Seq<u8>, cs: bool, idx: int, s: ScoreState) -> ScoreState {
    let current = t[idx];
    let previous = if idx > 0 { Some(t[idx - 1]) } else { None };
    if norm(current, cs) == p[s.pidx] {
        let b = bonus(previous, current);
        let first_bonus = if s.consecutive == 0 {
            b
        } else if b >= BONUS_BOUNDARY && b > s.first_bonus {
            b
        } else {
            s.first_bonus
        };
        let b2 = if s.consecutive == 0 {
            b
        } else {
            let m = if b >= first_bonus { b } else { first_bonus };
            if m >= BONUS_CONSECUTIVE { m } else { BONUS_CONSECUTIVE as int }
        };
        let gain = if s.pidx == 0 { b2 * BONUS_FIRST_CHAR_MULTIPLIER } else { b2 };
        ScoreState {
            score: s.score + SCORE_MATCH + gain,
            in_gap: false,
            consecutive: s.consecutive + 1,
            first_bonus,
            pidx: s.pidx + 1,
        }
    } else {
        ScoreState {
            score: s.score + if s.in_gap { SCORE_GAP_EXT as int } else { SCORE_GAP_START as int },
            in_gap: true,
            consecutive: 0,
            first_bonus: 0,
            pidx: s.pidx,
        }
    }
}

/// The state after scoring `t[start..idx]` (stopping once the whole pattern is matched).
pub open spec fn score_upto(t: Seq<u8>, p: Seq<u8>, cs: bool, start: int, idx: int) -> ScoreState
    decreases idx - start,
{
    if idx <= start {
        ScoreState { score: 0, in_gap: false, consecutive: 0, first_bonus: 0, pidx: 0 }
    } else {
        let s = score_upto(t, p, cs, start, idx - 1);
        if s.pidx >= p.len() {
            s
        } else {
            score_step(t, p, cs, idx - 1, s)
        }
    }
}

/// The positions scoring matched in `t[start..idx]`, in order.
pub open spec fn score_positions(t: Seq<u8>, p: Seq<u8>, cs: bool, start: int, idx: int) -> Seq<usize>
    decreases idx - start,
{
    if idx <= start {
        Seq::empty()
    } else {
        let s = score_upto(t, p, cs, start, idx - 1);
        let prev = score_positions(t, p, cs, start, idx - 1);
        if s.pidx < p.len() && norm(t[idx - 1], cs) == p[s.pidx] {
            prev.push((idx - 1) as usize)
        } else {
            prev
        }
    }
}


proof fn lemma_next_hit_found(t: Seq<u8>, from: int, q: int, byte: u8, cs: bool)
    requires
        0 <= from <= q < t.len(),
        norm(t[q], cs) == byte,
        forall|k: int| from <= k < q ==> norm(#[trigger] t[k], cs) != byte,
    ensures
        next_hit(t, from, byte, cs) == Some(q),
    decreases q - from,
{
    if from < q {
        lemma_next_hit_found(t, from + 1, q, byte, cs);
    }
}

proof fn lemma_next_hit_none(t: Seq<u8>, from: int, byte: u8, cs: bool)
    requires
        0 <= from,
        forall|k: int| from <= k < t.len() ==> norm(#[trigger] t[k], cs) != byte,
    ensures
        next_hit(t, from, byte, cs) is None,
    decreases t.len() - from,
{
    if from < t.len() {
        lemma_next_hit_none(t, from + 1, byte, cs);
    }
}

pub proof fn lemma_next_hit_is_hit(t: Seq<u8>, from: int, byte: u8, cs: bool)
    ensures
        next_hit(t, from, byte, cs) matches Some(q) ==> from <= q < t.len() && norm(t[q], cs) == byte,
    decreases t.len() - from,
{
    if 0 <= from < t.len() && norm(t[from], cs) != byte {
        lemma_next_hit_is_hit(t, from + 1, byte, cs);
    }
}

/// A byte matches `byte` as `find_next` tests it: equal, or (without case) its upper-case
/// form when `byte` is a lower-case letter.
pub open spec fn hits(b: u8, byte: u8, cs: bool) -> bool {
    b == byte || (!cs && is_lower(byte) && b == (byte - 32) as u8)
}

/// First position at or after `start` (in the parts laid end to end) holding a byte equal
/// to `byte` or, when `other` is given, to that byte.
fn find_first_of(parts: &[&[u8]], start: usize, byte: u8, other: Option<u8>) -> (r: Option<usize>)
    requires
        joined(parts@).len() <= usize::MAX,
    ensures
        r matches Some(q) ==> start <= q < joined(parts@).len() && (joined(parts@)[q as int] == byte
            || other == Some(joined(parts@)[q as int])) && forall|k: int|
            start <= k < q ==> #[trigger] joined(parts@)[k] != byte && other != Some(joined(parts@)[k]),
        r is None ==> forall|k: int|
            start <= k < joined(parts@).len() ==> #[trigger] joined(parts@)[k] != byte && other != Some(
                joined(parts@)[k],
            ),
{
    let ghost t = joined(parts@);
    let mut base: usize = 0;
    let mut pi: usize = 0;
    while pi < parts.len()
        invariant
            t == joined(parts@),
            t.len() <= usize::MAX,
            pi <= parts@.len(),
            base == joined(parts@.take(pi as int)).len(),
            base <= t.len(),
            forall|k: int| start <= k < base ==> #[trigger] t[k] != byte && other != Some(t[k]),
        decreases parts@.len() - pi,
    {
        let part = parts[pi];
        proof {
            lemma_joined_part(parts@, pi as int);
            lemma_joined_take_step(parts@, pi as int);
        }
        let end = base + part.len();
        if end > start {
            let local_start = if start > base { start - base } else { 0 };
            let rest = &part[local_start..part.len()];
            let first = crate::searcher::memchr::memchr(rest, byte);
            let second = match other {
                Some(o) => crate::searcher::memchr::memchr(rest, o),
                None => None,
            };
            let local = match (first, second) {
                (Some(a), Some(b)) => Some(if a <= b { a } else { b }),
                (Some(a), None) => Some(a),
                (None, Some(b)) => Some(b),
                (None, None) => None,
            };
            proof {
                assert forall|x: int| 0 <= x < rest@.len() implies rest@[x] == #[trigger] t[base + local_start + x] by {
                    assert(rest@[x] == part@[local_start + x]);
                    assert(part@ == t.subrange(base as int, base + part@.len()));
                    assert(part@[local_start + x] == t[base + local_start + x]);
                }
            }
            if let Some(l) = local {
                proof {
                    assert forall|k: int| start <= k < base + local_start + l implies #[trigger] t[k]
                        != byte && other != Some(t[k]) by {
                        if k >= base + local_start {
                            let x = k - base - local_start;
                            assert(rest@[x] == t[base + local_start + x]);
                        }
                    }
                    assert(rest@[l as int] == t[base + local_start + l]);
                }
                return Some(base + local_start + l);
            }
            proof {
                assert forall|k: int| start <= k < end implies #[trigger] t[k] != byte && other != Some(
                    t[k],
                ) by {
                    if k >= base + local_start {
                        let x = k - base - local_start;
                        assert(rest@[x] == t[base + local_start + x]);
                    }
                }
            }
        }
        base = end;
        pi = pi + 1;
    }
    proof {
        crate::searcher::memmem::lemma_joined_take_all(parts@);
    }
    None
}

/// The first position at or after `start` whose byte equals `byte`.
pub fn find_next_exact(parts: &[&[u8]], start: usize, byte: u8) -> (r: Option<usize>)
    requires
        joined(parts@).len() <= usize::MAX,
    ensures
        r == (match next_hit(joined(parts@), start as int, byte, true) {
            Some(q) => Some(q as usize),
            None => None,
        }),
{
    let r = find_first_of(parts, start, byte, None);
    proof {
        let t = joined(parts@);
        match r {
            Some(q) => lemma_next_hit_found(t, start as int, q as int, byte, true),
            None => lemma_next_hit_none(t, start as int, byte, true),
        }
    }
    r
}

/// The first position at or after `start` whose byte matches `byte`, ignoring ASCII case
/// unless `case_sensitive`.
pub fn find_next(parts: &[&[u8]], start: usize, byte: u8, case_sensitive: bool) -> (r: Option<usize>)
    requires
        joined(parts@).len() <= usize::MAX,
        case_sensitive || !is_upper(byte),
    ensures
        r == (match next_hit(joined(parts@), start as int, byte, case_sensitive) {
            Some(q) => Some(q as usize),
            None => None,
        }),
{
    if case_sensitive || !(97 <= byte && byte <= 122) {
        let r = find_first_of(parts, start, byte, None);
        proof {
            let t = joined(parts@);
            match r {
                Some(q) => lemma_next_hit_found(t, start as int, q as int, byte, case_sensitive),
                None => lemma_next_hit_none(t, start as int, byte, case_sensitive),
            }
        }
        return r;
    }
    let upper = byte - 32;
    let r = find_first_of(parts, start, byte, Some(upper));
    proof {
        let t = joined(parts@);
        match r {
            Some(q) => lemma_next_hit_found(t, start as int, q as int, byte, case_sensitive),
            None => lemma_next_hit_none(t, start as int, byte, case_sensitive),
        }
    }
    r
}

/// Whether the window `[start, end)` is too wide for a pattern of `pattern_len` bytes.
pub fn is_overly_sparse_match(pattern_len: usize, start: usize, end: usize) -> (r: bool)
    ensures
        r == (end - start > pattern_len * MAX_MATCH_SPAN_PER_PATTERN_BYTE),
{
    let span = end.saturating_sub(start);
    let limit = match pattern_len.checked_mul(MAX_MATCH_SPAN_PER_PATTERN_BYTE) {
        Some(l) => l,
        None => usize::MAX,
    };
    span > limit
}


pub proof fn lemma_forward_last(t: Seq<u8>, p: Seq<u8>, cs: bool, k: int, start: int, end: int)
    requires
        0 <= k < p.len(),
        0 <= start,
        forward_from(t, p, cs, k, start, end) is Some,
    ensures
        ({
            let e = forward_from(t, p, cs, k, start, end)->0;
            1 <= e <= t.len() && norm(t[e - 1], cs) == p[p.len() - 1] && e >= start
        }),
    decreases p.len() - k,
{
    lemma_next_hit_is_hit(t, start, p[k], cs);
    let pos = next_hit(t, start, p[k], cs)->0;
    assert(forward_from(t, p, cs, k, start, end) == forward_from(t, p, cs, k + 1, pos + 1, pos + 1));
    if k + 1 < p.len() {
        lemma_forward_last(t, p, cs, k + 1, pos + 1, pos + 1);
    } else {
        assert(forward_from(t, p, cs, k + 1, pos + 1, pos + 1) == Some(pos + 1));
    }
}

pub proof fn lemma_backward_len(t: Seq<u8>, p: Seq<u8>, cs: bool, j: int, pos: int)
    ensures
        backward_from(t, p, cs, j, pos).len() <= (if 0 <= j <= p.len() { j } else { 0 }),
        forall|i: int| 0 <= i < backward_from(t, p, cs, j, pos).len() ==> (#[trigger] backward_from(t, p, cs, j, pos)[i]) < pos,
    decreases j,
{
    if 0 < j <= p.len() {
        match prev_hit(t, pos, p[j - 1], cs) {
            None => lemma_backward_len(t, p, cs, j - 1, 0),
            Some(q) => {
                lemma_prev_hit_is_hit(t, pos, p[j - 1], cs);
                lemma_backward_len(t, p, cs, j - 1, q);
                let rest = backward_from(t, p, cs, j - 1, q);
                let all = backward_from(t, p, cs, j, pos);
                assert(all == seq![q as usize] + rest);
                assert forall|i: int| 0 <= i < all.len() implies (#[trigger] all[i]) < pos by {
                    if i > 0 {
                        assert(all[i] == rest[i - 1]);
                    }
                }
            },
        }
    }
}

/// Matching backwards finds positions in strictly decreasing order.
pub proof fn lemma_backward_decreasing(t: Seq<u8>, p: Seq<u8>, cs: bool, j: int, pos: int)
    requires
        t.len() <= usize::MAX,
    ensures
        forall|a: int, b: int| 0 <= a < b < backward_from(t, p, cs, j, pos).len() ==> #[trigger] backward_from(t, p, cs, j, pos)[a]
            > #[trigger] backward_from(t, p, cs, j, pos)[b],
    decreases j,
{
    if 0 < j <= p.len() {
        match prev_hit(t, pos, p[j - 1], cs) {
            None => {
                lemma_backward_decreasing(t, p, cs, j - 1, 0);
                assert(backward_from(t, p, cs, j, pos) == backward_from(t, p, cs, j - 1, 0));
            },
            Some(q) => {
                lemma_prev_hit_is_hit(t, pos, p[j - 1], cs);
                lemma_backward_decreasing(t, p, cs, j - 1, q);
                lemma_backward_len(t, p, cs, j - 1, q);
                let rest = backward_from(t, p, cs, j - 1, q);
                let all = backward_from(t, p, cs, j, pos);
                assert(all == seq![q as usize] + rest);
                assert forall|a: int, b: int| 0 <= a < b < all.len() implies #[trigger] all[a] > #[trigger] all[b] by {
                    assert(all[b] == rest[b - 1]);
                    assert(rest[b - 1] < q);
                    if a > 0 {
                        assert(all[a] == rest[a - 1]);
                        assert(rest[a - 1] > rest[b - 1]);
                    } else {
                        assert(all[a] == q);
                    }
                }
            },
        }
    }
}

pub proof fn lemma_prev_hit_is_hit(t: Seq<u8>, pos: int, byte: u8, cs: bool)
    ensures
        prev_hit(t, pos, byte, cs) matches Some(q) ==> 0 <= q < pos && q < t.len() && norm(t[q], cs) == byte,
    decreases pos,
{
    if 0 < pos <= t.len() && norm(t[pos - 1], cs) != byte {
        lemma_prev_hit_is_hit(t, pos - 1, byte, cs);
    }
}

/// Matching backwards from `pos` stops at a hit no lower than any hit `x` below `pos`.
proof fn lemma_prev_hit_ge(t: Seq<u8>, pos: int, byte: u8, cs: bool, x: int)
    requires
        0 <= x < pos <= t.len(),
        norm(t[x], cs) == byte,
    ensures
        prev_hit(t, pos, byte, cs) matches Some(q) && x <= q,
    decreases pos,
{
    if norm(t[pos - 1], cs) != byte {
        lemma_prev_hit_ge(t, pos - 1, byte, cs, x);
    }
}

/// Matching forwards from `from` stops at a hit no later than any hit `x` at or after `from`.
proof fn lemma_next_hit_le(t: Seq<u8>, from: int, byte: u8, cs: bool, x: int)
    requires
        0 <= from <= x < t.len(),
        norm(t[x], cs) == byte,
    ensures
        next_hit(t, from, byte, cs) matches Some(q) && q <= x,
    decreases x - from,
{
    if norm(t[from], cs) != byte {
        lemma_next_hit_le(t, from + 1, byte, cs, x);
    }
}

/// The forward match of `p[k..]` from `start` succeeds when those bytes occur in order at or
/// after `start` (`w` is such an occurrence).
pub proof fn lemma_forward_complete(t: Seq<u8>, p: Seq<u8>, cs: bool, k: int, start: int, end: int, w: Seq<int>)
    requires
        0 <= k <= p.len(),
        0 <= start,
        w.len() == p.len(),
        forall|i: int| k <= i < p.len() ==> #[trigger] w[i] < t.len() && norm(t[w[i]], cs) == p[i],
        forall|a: int, b: int| k <= a < b < p.len() ==> #[trigger] w[a] < #[trigger] w[b],
        k < p.len() ==> start <= w[k],
    ensures
        forward_from(t, p, cs, k, start, end) is Some,
    decreases p.len() - k,
{
    if k < p.len() {
        lemma_next_hit_le(t, start, p[k], cs, w[k]);
        lemma_next_hit_is_hit(t, start, p[k], cs);
        let q = next_hit(t, start, p[k], cs)->0;
        if k + 1 < p.len() {
            assert(w[k] < w[k + 1]);
        }
        lemma_forward_complete(t, p, cs, k + 1, q + 1, q + 1, w);
    }
}

/// The positions of the leftmost greedy occurrence of `p[k..]` in `t[start..]`, in order.
pub open spec fn forward_hits(t: Seq<u8>, p: Seq<u8>, cs: bool, k: int, start: int) -> Seq<int>
    decreases p.len() - k,
{
    if k < 0 || k >= p.len() {
        Seq::empty()
    } else {
        match next_hit(t, start, p[k], cs) {
            None => Seq::empty(),
            Some(pos) => seq![pos] + forward_hits(t, p, cs, k + 1, pos + 1),
        }
    }
}

/// Where the forward match succeeds, its positions are one per remaining pattern byte, in
/// increasing order, each on a matching byte, the last just before the end it reports.
pub proof fn lemma_forward_hits(t: Seq<u8>, p: Seq<u8>, cs: bool, k: int, start: int, end: int)
    requires
        0 <= k <= p.len(),
        0 <= start,
        forward_from(t, p, cs, k, start, end) is Some,
    ensures
        forward_hits(t, p, cs, k, start).len() == p.len() - k,
        forall|i: int| 0 <= i < p.len() - k ==> start <= #[trigger] forward_hits(t, p, cs, k, start)[i] < t.len()
            && norm(t[forward_hits(t, p, cs, k, start)[i]], cs) == p[k + i],
        forall|a: int, b: int| 0 <= a < b < p.len() - k ==> #[trigger] forward_hits(t, p, cs, k, start)[a]
            < #[trigger] forward_hits(t, p, cs, k, start)[b],
        k < p.len() ==> forward_hits(t, p, cs, k, start).last() + 1 == forward_from(t, p, cs, k, start, end)->0,
    decreases p.len() - k,
{
    if k < p.len() {
        lemma_next_hit_is_hit(t, start, p[k], cs);
        let pos = next_hit(t, start, p[k], cs)->0;
        assert(forward_from(t, p, cs, k, start, end) == forward_from(t, p, cs, k + 1, pos + 1, pos + 1));
        lemma_forward_hits(t, p, cs, k + 1, pos + 1, pos + 1);
        let rest = forward_hits(t, p, cs, k + 1, pos + 1);
        let w = forward_hits(t, p, cs, k, start);
        assert(w == seq![pos] + rest);
        assert forall|i: int| 0 <= i < p.len() - k implies start <= #[trigger] w[i] < t.len() && norm(t[w[i]], cs)
            == p[k + i] by {
            if i > 0 {
                assert(w[i] == rest[i - 1]);
            }
        }
        assert forall|a: int, b: int| 0 <= a < b < p.len() - k implies #[trigger] w[a] < #[trigger] w[b] by {
            assert(w[b] == rest[b - 1]);
            if a > 0 {
                assert(w[a] == rest[a - 1]);
            }
        }
        if k + 1 == p.len() {
            assert(forward_from(t, p, cs, k + 1, pos + 1, pos + 1) == Some(pos + 1));
        } else {
            assert(w.last() == rest.last());
        }
    }
}

/// Matching `p[..j]` backwards from `pos` finds all `j` bytes when they occur in order below
/// `pos` (`w` is such an occurrence); the `i`-th position found matches `p[j - 1 - i]`.
pub proof fn lemma_backward_complete(t: Seq<u8>, p: Seq<u8>, cs: bool, j: int, pos: int, w: Seq<int>)
    requires
        t.len() <= usize::MAX,
        0 <= j <= p.len(),
        j <= w.len(),
        pos <= t.len(),
        forall|i: int| 0 <= i < j ==> 0 <= #[trigger] w[i] && norm(t[w[i]], cs) == p[i],
        forall|a: int, b: int| 0 <= a < b < j ==> #[trigger] w[a] < #[trigger] w[b],
        j > 0 ==> w[j - 1] < pos,
    ensures
        backward_from(t, p, cs, j, pos).len() == j,
        forall|i: int| 0 <= i < j ==> (#[trigger] backward_from(t, p, cs, j, pos)[i] as int) < t.len()
            && norm(t[backward_from(t, p, cs, j, pos)[i] as int], cs) == p[j - 1 - i],
    decreases j,
{
    if j > 0 {
        lemma_prev_hit_ge(t, pos, p[j - 1], cs, w[j - 1]);
        lemma_prev_hit_is_hit(t, pos, p[j - 1], cs);
        let q = prev_hit(t, pos, p[j - 1], cs)->0;
        if j > 1 {
            assert(w[j - 2] < w[j - 1]);
        }
        lemma_backward_complete(t, p, cs, j - 1, q, w);
        let rest = backward_from(t, p, cs, j - 1, q);
        let all = backward_from(t, p, cs, j, pos);
        assert(all == seq![q as usize] + rest);
        assert forall|i: int| 0 <= i < j implies (#[trigger] all[i] as int) < t.len() && norm(t[all[i] as int], cs)
            == p[j - 1 - i] by {
            if i > 0 {
                assert(all[i] == rest[i - 1]);
            }
        }
    }
}

/// The fzf v1 result for a pattern (already folded when the search ignores case): the
/// leftmost greedy occurrence fixes the end, matching backwards from there fixes the start,
/// a window wider than four bytes per pattern byte is rejected, and the window is scored.
pub open spec fn fzf_v1(t: Seq<u8>, p: Seq<u8>, cs: bool) -> Option<(int, int, int, Seq<usize>)> {
    if p.len() == 0 || t.len() == 0 || p.len() > t.len() {
        None
    } else {
        match forward_from(t, p, cs, 0, 0, 0) {
            None => None,
            Some(end) => {
                let back = backward_from(t, p, cs, p.len() as int, end);
                let start = back.last() as int;
                if end - start > p.len() * MAX_MATCH_SPAN_PER_PATTERN_BYTE {
                    None
                } else {
                    Some(
                        (
                            score_upto(t, p, cs, start, end).score,
                            start,
                            end,
                            score_positions(t, p, cs, start, end),
                        ),
                    )
                }
            },
        }
    }
}

/// `r` is the match that `e` describes.
pub open spec fn is_v1_match(r: Option<Match>, e: Option<(int, int, int, Seq<usize>)>) -> bool {
    match e {
        None => r is None,
        Some(x) => r matches Some(m) && m.score == x.0 && m.start == x.1 && m.end == x.2
            && m.positions@ == x.3,
    }
}

proof fn lemma_score_bounds(t: Seq<u8>, p: Seq<u8>, cs: bool, start: int, idx: int)
    requires
        start <= idx,
        0 <= start,
        idx <= t.len(),
    ensures
        ({
            let s = score_upto(t, p, cs, start, idx);
            &&& 0 <= s.pidx <= p.len() || (p.len() == 0 && s.pidx == 0)
            &&& -3 * (idx - start) <= s.score <= 36 * s.pidx
            &&& 0 <= s.consecutive <= idx - start
            &&& 0 <= s.first_bonus <= 10
            &&& s.pidx <= idx - start
            &&& score_positions(t, p, cs, start, idx).len() == s.pidx
        }),
    decreases idx - start,
{
    if idx > start {
        lemma_score_bounds(t, p, cs, start, idx - 1);
    }
}

/// The positions spell the pattern: one per pattern byte, each on a byte that matches it.
pub open spec fn embeds(t: Seq<u8>, p: Seq<u8>, cs: bool, ps: Seq<usize>) -> bool {
    &&& ps.len() == p.len()
    &&& forall|i: int| 0 <= i < ps.len() ==> #[trigger] ps[i] < t.len() && norm(t[ps[i] as int], cs) == p[i]
}

/// Scoring never loses matched pattern bytes: the count grows with the window.
proof fn lemma_score_pidx_grows(t: Seq<u8>, p: Seq<u8>, cs: bool, start: int, a: int, b: int)
    requires
        0 <= start <= a <= b <= t.len(),
    ensures
        score_upto(t, p, cs, start, a).pidx <= score_upto(t, p, cs, start, b).pidx,
    decreases b - a,
{
    if a < b {
        lemma_score_pidx_grows(t, p, cs, start, a, b - 1);
    }
}

/// The positions scoring records are in increasing order within the window, one per
/// matched pattern byte, each on a byte matching its pattern byte.
proof fn lemma_score_positions_match(t: Seq<u8>, p: Seq<u8>, cs: bool, start: int, idx: int)
    requires
        0 <= start <= idx <= t.len(),
        t.len() <= usize::MAX,
    ensures
        score_positions(t, p, cs, start, idx).len() == score_upto(t, p, cs, start, idx).pidx,
        forall|i: int| 0 <= i < score_positions(t, p, cs, start, idx).len() ==> start <= #[trigger] score_positions(
            t,
            p,
            cs,
            start,
            idx,
        )[i] < idx && norm(t[score_positions(t, p, cs, start, idx)[i] as int], cs) == p[i],
    decreases idx - start,
{
    lemma_score_bounds(t, p, cs, start, idx);
    if idx > start {
        lemma_score_positions_match(t, p, cs, start, idx - 1);
        lemma_score_bounds(t, p, cs, start, idx - 1);
        let prev = score_positions(t, p, cs, start, idx - 1);
        let all = score_positions(t, p, cs, start, idx);
        assert forall|i: int| 0 <= i < all.len() implies start <= #[trigger] all[i] < idx && norm(t[all[i] as int], cs)
            == p[i] by {
            if i < prev.len() {
                assert(all[i] == prev[i]);
            }
        }
    }
}

/// Scoring a window matches the whole pattern when the pattern occurs in order inside it
/// (`w` is such an occurrence): by each occurrence position the count has passed it.
proof fn lemma_score_complete(t: Seq<u8>, p: Seq<u8>, cs: bool, start: int, w: Seq<int>, i: int)
    requires
        0 <= i < p.len(),
        w.len() == p.len(),
        forall|k: int| 0 <= k < p.len() ==> start <= #[trigger] w[k] < t.len() && norm(t[w[k]], cs) == p[k],
        forall|a: int, b: int| 0 <= a < b < p.len() ==> #[trigger] w[a] < #[trigger] w[b],
        0 <= start,
    ensures
        score_upto(t, p, cs, start, w[i] + 1).pidx >= i + 1,
    decreases i,
{
    lemma_score_bounds(t, p, cs, start, w[i]);
    if i > 0 {
        lemma_score_complete(t, p, cs, start, w, i - 1);
        assert(w[i - 1] < w[i]);
        lemma_score_pidx_grows(t, p, cs, start, w[i - 1] + 1, w[i]);
    }
    lemma_score_pidx_grows(t, p, cs, start, w[i], w[i] + 1);
}

/// The positions of a v1 match spell the pattern.
pub proof fn lemma_v1_embeds(t: Seq<u8>, p: Seq<u8>, cs: bool)
    requires
        t.len() <= usize::MAX,
    ensures
        fzf_v1(t, p, cs) matches Some(x) ==> embeds(t, p, cs, x.3),
{
    if p.len() > 0 && t.len() > 0 && p.len() <= t.len() {
        if let Some(end) = forward_from(t, p, cs, 0, 0, 0) {
            lemma_forward_hits(t, p, cs, 0, 0, 0);
            lemma_forward_last(t, p, cs, 0, 0, 0);
            let fw = forward_hits(t, p, cs, 0, 0);
            lemma_backward_complete(t, p, cs, p.len() as int, end, fw);
            lemma_backward_len(t, p, cs, p.len() as int, end);
            lemma_backward_decreasing(t, p, cs, p.len() as int, end);
            let back = backward_from(t, p, cs, p.len() as int, end);
            let start = back.last() as int;
            let w = Seq::new(p.len(), |k: int| back[p.len() - 1 - k] as int);
            assert forall|a: int, b: int| 0 <= a < b < p.len() implies #[trigger] w[a] < #[trigger] w[b] by {
                assert(back[p.len() - 1 - b] > back[p.len() - 1 - a]);
            }
            assert forall|k: int| 0 <= k < p.len() implies start <= #[trigger] w[k] < t.len() && norm(t[w[k]], cs)
                == p[k] by {
                if k > 0 {
                    assert(w[0] < w[k]);
                }
            }
            lemma_score_complete(t, p, cs, start, w, p.len() - 1);
            lemma_score_pidx_grows(t, p, cs, start, w[p.len() - 1] + 1, end);
            lemma_score_bounds(t, p, cs, start, end);
            lemma_score_positions_match(t, p, cs, start, end);
        }
    }
}

/// The end of the leftmost greedy match of `pattern` as a subsequence of the text.
pub fn forward_end(parts: &[&[u8]], pattern: &[u8], case_sensitive: bool) -> (r: Option<usize>)
    requires
        joined(parts@).len() <= usize::MAX,
        case_sensitive || folded(pattern@),
    ensures
        r == (match forward_from(joined(parts@), pattern@, case_sensitive, 0, 0, 0) {
            Some(e) => Some(e as usize),
            None => None,
        }),
{
    let ghost t = joined(parts@);
    let ghost p = pattern@;
    let mut start: usize = 0;
    let mut end: usize = 0;
    let mut k: usize = 0;
    while k < pattern.len()
        invariant
            t == joined(parts@),
            p == pattern@,
            t.len() <= usize::MAX,
            case_sensitive || folded(p),
            k <= p.len(),
            start == end,
            end <= t.len(),
            forward_from(t, p, case_sensitive, 0, 0, 0) == forward_from(
                t,
                p,
                case_sensitive,
                k as int,
                start as int,
                end as int,
            ),
        decreases p.len() - k,
    {
        let byte = pattern[k];
        match find_next(parts, start, byte, case_sensitive) {
            None => {
                return None;
            },
            Some(pos) => {
                proof {
                    lemma_next_hit_is_hit(t, start as int, byte, case_sensitive);
                }
                end = pos + 1;
                start = end;
            },
        }
        k = k + 1;
    }
    Some(end)
}

/// The positions that matching `pattern` backwards from `end` finds, in increasing order.
pub fn backward_positions(parts: &[&[u8]], pattern: &[u8], end: usize, case_sensitive: bool) -> (r: Vec<usize>)
    requires
        joined(parts@).len() <= usize::MAX,
        pattern@.len() >= 1,
        1 <= end <= joined(parts@).len(),
        norm(joined(parts@)[end - 1], case_sensitive) == pattern@.last(),
    ensures
        ({
            let back = backward_from(joined(parts@), pattern@, case_sensitive, pattern@.len() as int, end as int);
            &&& back.len() >= 1
            &&& r@ == back.reverse()
        }),
{
    let ghost t = joined(parts@);
    let ghost p = pattern@;
    let mut positions: Vec<usize> = Vec::new();
    let mut pos = end;
    let mut j = pattern.len();
    proof {
        assert(positions@ + backward_from(t, p, case_sensitive, j as int, pos as int)
            =~= backward_from(t, p, case_sensitive, p.len() as int, end as int));
    }
    while j > 0
        invariant
            t == joined(parts@),
            p == pattern@,
            t.len() <= usize::MAX,
            j <= p.len(),
            pos <= end <= t.len(),
            positions@ + backward_from(t, p, case_sensitive, j as int, pos as int)
                == backward_from(t, p, case_sensitive, p.len() as int, end as int),
        decreases j,
    {
        let byte = pattern[j - 1];
        let ghost pos0 = pos as int;
        let mut found = false;
        while pos > 0 && !found
            invariant
                t == joined(parts@),
                t.len() <= usize::MAX,
                pos <= pos0 <= t.len(),
                !found ==> prev_hit(t, pos as int, byte, case_sensitive) == prev_hit(
                    t,
                    pos0,
                    byte,
                    case_sensitive,
                ),
                found ==> prev_hit(t, pos0, byte, case_sensitive) == Some(pos as int),
            decreases pos + (if found { 0int } else { 1int }),
        {
            let ghost before = pos as int;
            pos = pos - 1;
            let b = byte_at(parts, pos);
            let current = if case_sensitive {
                b
            } else {
                ascii_lower(b)
            };
            if current == byte {
                found = true;
            }
        }
        let ghost acc = positions@;
        if found {
            positions.push(pos);
            proof {
                assert(positions@ + backward_from(t, p, case_sensitive, j - 1, pos as int)
                    =~= acc + backward_from(t, p, case_sensitive, j as int, pos0));
            }
        } else {
            proof {
                assert(prev_hit(t, 0, byte, case_sensitive) is None);
            }
        }
        j = j - 1;
    }
    proof {
        assert(backward_from(t, p, case_sensitive, 0, pos as int) =~= Seq::<usize>::empty());
        assert(positions@ =~= backward_from(t, p, case_sensitive, p.len() as int, end as int));
        assert(prev_hit(t, end as int, p[p.len() - 1], case_sensitive) == Some(end - 1));
    }
    let ghost back = positions@;
    let n = positions.len();
    let mut reversed: Vec<usize> = Vec::with_capacity(n);
    let mut k: usize = n;
    while k > 0
        invariant
            k <= n,
            n == back.len(),
            positions@ == back,
            reversed@ == back.reverse().take((n - k) as int),
        decreases k,
    {
        k = k - 1;
        reversed.push(positions[k]);
        proof {
            assert(reversed@ =~= back.reverse().take((n - k) as int));
        }
    }
    proof {
        assert(back.reverse().take(n as int) =~= back.reverse());
    }
    reversed
}

impl FzfMatcher {
    /// The end of the leftmost greedy match of the stored pattern.
    fn forward_scan(&self, parts: &[&[u8]], case_sensitive: bool) -> (r: Option<usize>)
        requires
            joined(parts@).len() <= usize::MAX,
            case_sensitive || folded(self.pattern@),
        ensures
            r == (match forward_from(joined(parts@), self.pattern@, case_sensitive, 0, 0, 0) {
                Some(e) => Some(e as usize),
                None => None,
            }),
    {
        forward_end(parts, &self.pattern, case_sensitive)
    }

    /// Matches the stored pattern backwards from `end` and returns where the match starts;
    /// the positions found are kept.
    fn backward_shrink(&mut self, parts: &[&[u8]], end: usize, case_sensitive: bool) -> (r: usize)
        requires
            joined(parts@).len() <= usize::MAX,
            old(self).pattern@.len() >= 1,
            1 <= end <= joined(parts@).len(),
            norm(joined(parts@)[end - 1], case_sensitive) == old(self).pattern@.last(),
        ensures
            final(self).pattern@ == old(self).pattern@,
            ({
                let back = backward_from(joined(parts@), old(self).pattern@, case_sensitive, old(self).pattern@.len() as int, end as int);
                &&& back.len() >= 1
                &&& r == back.last()
                &&& final(self).positions@ == back.reverse()
            }),
    {
        let positions = backward_positions(parts, &self.pattern, end, case_sensitive);
        self.positions = positions;
        self.positions[0]
    }
}


proof fn lemma_score_settled(t: Seq<u8>, p: Seq<u8>, cs: bool, start: int, idx: int, later: int)
    requires
        start <= idx <= later,
        score_upto(t, p, cs, start, idx).pidx >= p.len(),
    ensures
        score_upto(t, p, cs, start, later) == score_upto(t, p, cs, start, idx),
        score_positions(t, p, cs, start, later) == score_positions(t, p, cs, start, idx),
    decreases later - idx,
{
    if later > idx {
        lemma_score_settled(t, p, cs, start, idx, later - 1);
    }
}

/// Scores the window `[start, end)` against `pattern` and lists the positions it matched.
pub fn calculate_score_window(
    parts: &[&[u8]],
    pattern: &[u8],
    start: usize,
    end: usize,
    case_sensitive: bool,
) -> (r: (i16, Vec<usize>))
    requires
        joined(parts@).len() <= usize::MAX,
        start <= end <= joined(parts@).len(),
        pattern@.len() <= 900,
        end - start <= pattern@.len() * MAX_MATCH_SPAN_PER_PATTERN_BYTE,
    ensures
        r.0 == score_upto(joined(parts@), pattern@, case_sensitive, start as int, end as int).score,
        r.1@ == score_positions(joined(parts@), pattern@, case_sensitive, start as int, end as int),
{
    let ghost t = joined(parts@);
    let ghost p = pattern@;
    let mut score: i16 = 0;
    let mut in_gap = false;
    let mut consecutive: i16 = 0;
    let mut first_bonus: i16 = 0;
    let mut pidx: usize = 0;
    let mut positions: Vec<usize> = Vec::new();
    let mut previous: Option<u8> = if start > 0 {
        Some(byte_at(parts, start - 1))
    } else {
        None
    };
    let mut idx = start;
    while idx < end && pidx < pattern.len()
        invariant
            t == joined(parts@),
            p == pattern@,
            t.len() <= usize::MAX,
            start <= idx <= end <= t.len(),
            p.len() <= 900,
            end - start <= p.len() * 4,
            previous == (if idx > 0 { Some(t[idx - 1]) } else { None::<u8> }),
            ({
                let st = score_upto(t, p, case_sensitive, start as int, idx as int);
                &&& score == st.score
                &&& in_gap == st.in_gap
                &&& consecutive == st.consecutive
                &&& first_bonus == st.first_bonus
                &&& pidx == st.pidx
            }),
            positions@ == score_positions(t, p, case_sensitive, start as int, idx as int),
        decreases end - idx,
    {
        proof {
            lemma_score_bounds(t, p, case_sensitive, start as int, idx as int);
            lemma_score_bounds(t, p, case_sensitive, start as int, idx + 1);
        }
        let current = byte_at(parts, idx);
        let match_byte = if case_sensitive {
            current
        } else {
            ascii_lower(current)
        };
        if match_byte == pattern[pidx] {
            positions.push(idx);
            score = score + SCORE_MATCH;
            let mut bonus = bonus_for(previous, current);
            if consecutive == 0 {
                first_bonus = bonus;
            } else {
                if bonus >= BONUS_BOUNDARY && bonus > first_bonus {
                    first_bonus = bonus;
                }
                if first_bonus > bonus {
                    bonus = first_bonus;
                }
                if BONUS_CONSECUTIVE > bonus {
                    bonus = BONUS_CONSECUTIVE;
                }
            }
            if pidx == 0 {
                score = score + bonus * BONUS_FIRST_CHAR_MULTIPLIER;
            } else {
                score = score + bonus;
            }
            in_gap = false;
            consecutive = consecutive + 1;
            pidx = pidx + 1;
        } else {
            if in_gap {
                score = score + SCORE_GAP_EXT;
            } else {
                score = score + SCORE_GAP_START;
            }
            in_gap = true;
            consecutive = 0;
            first_bonus = 0;
        }
        previous = Some(current);
        idx = idx + 1;
    }
    proof {
        if idx < end {
            lemma_score_settled(t, p, case_sensitive, start as int, idx as int, end as int);
        }
    }
    (score, positions)
}

impl FzfMatcher {
    pub closed spec fn pattern_view(&self) -> Seq<u8> {
        self.pattern@
    }

    pub fn new() -> (r: FzfMatcher)
        ensures
            r.pattern_view() == Seq::<u8>::empty(),
    {
        FzfMatcher { pattern: Vec::new(), positions: Vec::new() }
    }

    /// Runs the search for the stored pattern.
    fn search_stored(&mut self, parts: &[&[u8]], case_sensitive: bool) -> (r: Option<Match>)
        requires
            joined(parts@).len() <= usize::MAX,
            old(self).pattern@.len() <= 900,
            case_sensitive || folded(old(self).pattern@),
        ensures
            final(self).pattern@ == old(self).pattern@,
            is_v1_match(r, fzf_v1(joined(parts@), old(self).pattern@, case_sensitive)),
    {
        let ghost t = joined(parts@);
        let ghost p = self.pattern@;
        if self.pattern.len() == 0 {
            return None;
        }
        let text_len = parts_len(parts);
        if text_len == 0 || self.pattern.len() > text_len {
            return None;
        }
        let end = match self.forward_scan(parts, case_sensitive) {
            Some(e) => e,
            None => {
                return None;
            },
        };
        proof {
            lemma_forward_last(t, p, case_sensitive, 0, 0, 0);
        }
        let start = self.backward_shrink(parts, end, case_sensitive);
        proof {
            lemma_backward_len(t, p, case_sensitive, p.len() as int, end as int);
        }
        if is_overly_sparse_match(self.pattern.len(), start, end) {
            return None;
        }
        let (score, positions) = calculate_score_window(parts, &self.pattern, start, end, case_sensitive);
        Some(Match { score, start, end, positions })
    }

    fn find_best_impl(&mut self, pattern: &[u8], parts: &[&[u8]], case_sensitive: bool) -> (r: Option<Match>)
        requires
            joined(parts@).len() <= usize::MAX,
            pattern@.len() <= 900,
        ensures
            is_v1_match(
                r,
                fzf_v1(
                    joined(parts@),
                    if case_sensitive { pattern@ } else { pattern@.map_values(|b: u8| lower(b)) },
                    case_sensitive,
                ),
            ),
    {
        if pattern.len() == 0 {
            return None;
        }
        let text_len = parts_len(parts);
        if text_len == 0 || pattern.len() > text_len {
            proof {
                assert(pattern@.map_values(|b: u8| lower(b)).len() == pattern@.len());
            }
            return None;
        }
        self.pattern.clear();
        let mut i: usize = 0;
        while i < pattern.len()
            invariant
                i <= pattern@.len(),
                self.pattern@ == (if case_sensitive {
                    pattern@
                } else {
                    pattern@.map_values(|b: u8| lower(b))
                }).take(i as int),
            decreases pattern@.len() - i,
        {
            if case_sensitive {
                self.pattern.push(pattern[i]);
            } else {
                self.pattern.push(ascii_lower(pattern[i]));
            }
            i = i + 1;
            proof {
                assert(self.pattern@ =~= (if case_sensitive {
                    pattern@
                } else {
                    pattern@.map_values(|b: u8| lower(b))
                }).take(i as int));
            }
        }
        proof {
            let q = if case_sensitive {
                pattern@
            } else {
                pattern@.map_values(|b: u8| lower(b))
            };
            assert(q.take(i as int) =~= q);
            if !case_sensitive {
                assert forall|k: int| 0 <= k < q.len() implies !is_upper(#[trigger] q[k]) by {}
            }
        }
        self.search_stored(parts, case_sensitive)
    }

    /// The best v1 match, ignoring ASCII case, as a list of at most one match.
    pub fn find_parts(&mut self, pattern: &[u8], parts: &[&[u8]]) -> (r: Vec<Match>)
        requires
            joined(parts@).len() <= usize::MAX,
            pattern@.len() <= 900,
        ensures
            r@.len() <= 1,
            r@.len() == 1 <==> fzf_v1(joined(parts@), pattern@.map_values(|b: u8| lower(b)), false) is Some,
            r@.len() == 1 ==> is_v1_match(Some(r@[0]), fzf_v1(joined(parts@), pattern@.map_values(|b: u8| lower(b)), false)),
    {
        let mut v: Vec<Match> = Vec::new();
        match self.find_best(pattern, parts) {
            Some(m) => v.push(m),
            None => {},
        }
        v
    }

    /// The best v1 match, with smart case, as a list of at most one match.
    pub fn find_parts_smart_case(&mut self, pattern: &[u8], parts: &[&[u8]]) -> (r: Vec<Match>)
        requires
            joined(parts@).len() <= usize::MAX,
            pattern@.len() <= 900,
        ensures
            r@.len() <= 1,
            r@.len() == 1 <==> fzf_v1(joined(parts@), crate::fuzzy::compiled_bytes(pattern@), crate::fuzzy::has_upper(pattern@)) is Some,
            r@.len() == 1 ==> is_v1_match(Some(r@[0]), fzf_v1(joined(parts@), crate::fuzzy::compiled_bytes(pattern@), crate::fuzzy::has_upper(pattern@))),
    {
        let mut v: Vec<Match> = Vec::new();
        match self.find_best_smart_case(pattern, parts) {
            Some(m) => v.push(m),
            None => {},
        }
        v
    }

    /// The best v1 match, ignoring ASCII case.
    pub fn find_best(&mut self, pattern: &[u8], parts: &[&[u8]]) -> (r: Option<Match>)
        requires
            joined(parts@).len() <= usize::MAX,
            pattern@.len() <= 900,
        ensures
            is_v1_match(r, fzf_v1(joined(parts@), pattern@.map_values(|b: u8| lower(b)), false)),
            r matches Some(m) ==> embeds(joined(parts@), pattern@.map_values(|b: u8| lower(b)), false, m.positions@),
    {
        let r = self.find_best_impl(pattern, parts, false);
        proof {
            lemma_v1_embeds(joined(parts@), pattern@.map_values(|b: u8| lower(b)), false);
        }
        r
    }

    /// The best v1 match, case sensitive exactly when the pattern holds an upper-case letter.
    pub fn find_best_smart_case(&mut self, pattern: &[u8], parts: &[&[u8]]) -> (r: Option<Match>)
        requires
            joined(parts@).len() <= usize::MAX,
            pattern@.len() <= 900,
        ensures
            is_v1_match(r, fzf_v1(joined(parts@), crate::fuzzy::compiled_bytes(pattern@), crate::fuzzy::has_upper(pattern@))),
            r matches Some(m) ==> embeds(joined(parts@), crate::fuzzy::compiled_bytes(pattern@), crate::fuzzy::has_upper(pattern@), m.positions@),
    {
        let cs = crate::fuzzy::smart_case(pattern);
        let r = self.find_best_impl(pattern, parts, cs);
        proof {
            lemma_v1_embeds(joined(parts@), crate::fuzzy::compiled_bytes(pattern@), crate::fuzzy::has_upper(pattern@));
            if !cs {
                assert(crate::fuzzy::compiled_bytes(pattern@) =~= pattern@.map_values(|b: u8| lower(b)));
            }
        }
        r
    }

    /// The best v1 match, case sensitive.
    pub fn find_best_case_sensitive(&mut self, pattern: &[u8], parts: &[&[u8]]) -> (r: Option<Match>)
        requires
            joined(parts@).len() <= usize::MAX,
            pattern@.len() <= 900,
        ensures
            is_v1_match(r, fzf_v1(joined(parts@), pattern@, true)),
            r matches Some(m) ==> embeds(joined(parts@), pattern@, true, m.positions@),
    {
        let r = self.find_best_impl(pattern, parts, true);
        proof {
            lemma_v1_embeds(joined(parts@), pattern@, true);
        }
        r
    }

    /// Stores a compiled pattern for the prepared searches.
    pub fn prepare(&mut self, pattern: &CompiledPattern)
        ensures
            final(self).pattern_view() == pattern.bytes@,
    {
        self.pattern.clear();
        let mut i: usize = 0;
        while i < pattern.bytes.len()
            invariant
                i <= pattern.bytes@.len(),
                self.pattern@ == pattern.bytes@.take(i as int),
            decreases pattern.bytes@.len() - i,
        {
            self.pattern.push(pattern.bytes[i]);
            i = i + 1;
            proof {
                assert(self.pattern@ =~= pattern.bytes@.take(i as int));
            }
        }
        proof {
            assert(pattern.bytes@.take(i as int) =~= pattern.bytes@);
        }
    }

    /// The best v1 match of the prepared pattern, with its positions.
    pub fn find_best_with_positions_prepared(&mut self, parts: &[&[u8]], case_sensitive: bool) -> (r: Option<Match>)
        requires
            joined(parts@).len() <= usize::MAX,
            old(self).pattern_view().len() <= 900,
            case_sensitive || folded(old(self).pattern_view()),
        ensures
            final(self).pattern_view() == old(self).pattern_view(),
            is_v1_match(r, fzf_v1(joined(parts@), old(self).pattern_view(), case_sensitive)),
            r matches Some(m) ==> embeds(joined(parts@), old(self).pattern_view(), case_sensitive, m.positions@),
    {
        let r = self.search_stored(parts, case_sensitive);
        proof {
            lemma_v1_embeds(joined(parts@), old(self).pattern_view(), case_sensitive);
        }
        r
    }

    /// The score and range of the best v1 match of the prepared pattern.
    pub fn find_best_bounds_prepared(&mut self, parts: &[&[u8]], case_sensitive: bool) -> (r: Option<MatchBounds>)
        requires
            joined(parts@).len() <= usize::MAX,
            old(self).pattern_view().len() <= 900,
            case_sensitive || folded(old(self).pattern_view()),
        ensures
            final(self).pattern_view() == old(self).pattern_view(),
            match fzf_v1(joined(parts@), old(self).pattern_view(), case_sensitive) {
                None => r is None,
                Some(x) => r == Some(MatchBounds { score: x.0 as i16, start: x.1 as usize, end: x.2 as usize }),
            },
    {
        match self.search_stored(parts, case_sensitive) {
            Some(m) => Some(MatchBounds { score: m.score, start: m.start, end: m.end }),
            None => None,
        }
    }
}

} // verus!
