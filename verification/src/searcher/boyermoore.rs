use vstd::prelude::*;
use crate::searcher::memmem::{
    matches_at, first_match, lemma_mismatch_rules_out, lemma_agreement_matches, lemma_match_bytes,
};
use crate::util::filled_vec;

verus! {

/// The largest index below `upto` holding byte `c`, or -1 when none does.
pub open spec fn last_occurrence(p: Seq<u8>, c: u8, upto: int) -> int
    decreases upto,
{
    if upto <= 0 {
        -1
    } else if p[upto - 1] == c {
        upto - 1
    } else {
        last_occurrence(p, c, upto - 1)
    }
}

/// The bad-byte shift of byte `c`: distance from the last position of the pattern back to
/// the last earlier occurrence of `c`, or the pattern length when there is none.
pub open spec fn bad_char_shift(p: Seq<u8>, c: u8) -> int {
    (p.len() - 1) - last_occurrence(p, c, p.len() - 1)
}

/// The suffix of `p` that starts at `k` is also a prefix of `p`.
pub open spec fn is_border(p: Seq<u8>, k: int) -> bool {
    forall|t: int| k <= t < p.len() ==> #[trigger] p[t - k] == p[t]
}

/// Shifting the pattern by `d` agrees with what a mismatch at `j` (after matching all of
/// `p[j+1..]`) revealed about the text.
pub open spec fn consistent_shift(p: Seq<u8>, d: int, j: int) -> bool {
    &&& forall|k: int| j < k < p.len() && k >= d ==> #[trigger] p[k - d] == p[k]
    &&& (j >= d ==> p[j - d] != p[j])
}

/// The good-suffix entry `g` for a mismatch at `j` moves the window by at least one and
/// skips only shifts that contradict what the mismatch revealed.
pub open spec fn good_suffix_sound(p: Seq<u8>, j: int, g: int) -> bool {
    &&& g - (p.len() - 1 - j) >= 1
    &&& forall|d: int| 1 <= d < g - (p.len() - 1 - j) ==> !consistent_shift(p, d, j)
}

/// Boyer-Moore search with the bad-byte and good-suffix rules.
pub struct BoyerMoore<'a> {
    pattern: &'a [u8],
    bad_char_skip: Vec<usize>,
    good_suffix_skip: Vec<usize>,
}

proof fn lemma_last_occurrence(p: Seq<u8>, c: u8, upto: int)
    requires
        upto <= p.len(),
    ensures
        -1 <= last_occurrence(p, c, upto) < upto || (upto <= 0 && last_occurrence(p, c, upto)
            == -1),
        last_occurrence(p, c, upto) >= 0 ==> p[last_occurrence(p, c, upto)] == c,
        forall|t: int| last_occurrence(p, c, upto) < t < upto && 0 <= t ==> p[t] != c,
    decreases upto,
{
    if upto > 0 {
        lemma_last_occurrence(p, c, upto - 1);
    }
}

/// The byte `u` places before the end of `s`.
pub open spec fn from_end(s: Seq<u8>, u: int) -> u8 {
    s[s.len() - 1 - u]
}

/// Length of the longest common suffix of `a` and `b`.
pub fn longest_common_suffix_bytes(a: &[u8], b: &[u8]) -> (r: usize)
    ensures
        r <= a@.len(),
        r <= b@.len(),
        forall|u: int| 0 <= u < r ==> #[trigger] from_end(a@, u) == from_end(b@, u),
        r < a@.len() && r < b@.len() ==> a@[a@.len() - 1 - r] != b@[b@.len() - 1 - r],
{
    let mut i: usize = 0;
    while i < a.len() && i < b.len() && a[a.len() - 1 - i] == b[b.len() - 1 - i]
        invariant
            i <= a@.len(),
            i <= b@.len(),
            forall|u: int| 0 <= u < i ==> #[trigger] from_end(a@, u) == from_end(b@, u),
        decreases a@.len() - i,
    {
        i = i + 1;
    }
    i
}

/// `prefix` is a prefix of `s`.
pub fn has_prefix_bytes(s: &[u8], prefix: &[u8]) -> (r: bool)
    ensures
        r == (prefix@.len() <= s@.len() && s@.subrange(0, prefix@.len() as int) == prefix@),
{
    if s.len() < prefix.len() {
        return false;
    }
    let mut k: usize = 0;
    while k < prefix.len()
        invariant
            prefix@.len() <= s@.len(),
            k <= prefix@.len(),
            forall|t: int| 0 <= t < k ==> s@[t] == prefix@[t],
        decreases prefix@.len() - k,
    {
        if s[k] != prefix[k] {
            proof {
                assert(s@.subrange(0, prefix@.len() as int)[k as int] == s@[k as int]);
            }
            return false;
        }
        k = k + 1;
    }
    proof {
        assert(s@.subrange(0, prefix@.len() as int) =~= prefix@);
    }
    true
}

/// A shift beyond the mismatch position is consistent exactly when it starts a border.
proof fn lemma_far_shift_is_border(p: Seq<u8>, d: int, j: int)
    requires
        0 <= j < d,
        p.len() >= 1,
    ensures
        consistent_shift(p, d, j) == is_border(p, d),
{
    if consistent_shift(p, d, j) {
        assert forall|t: int| d <= t < p.len() implies #[trigger] p[t - d] == p[t] by {
            assert(j < t);
        }
    }
}

/// A consistent shift `d` within the mismatch position is found by the second pass of the
/// good-suffix construction at index `last - d`.
proof fn lemma_second_pass_finds(p: Seq<u8>, d: int, j: int, ls: int)
    requires
        p.len() >= 2,
        1 <= d <= j <= p.len() - 1,
        consistent_shift(p, d, j),
        0 <= ls <= p.len() - 1 - d,
        forall|u: int| 0 <= u < ls ==> #[trigger] from_end(p, u) == p[p.len() - 1 - d - u],
        ls < p.len() - 1 - d ==> p[p.len() - 1 - ls] != p[p.len() - 1 - d - ls],
    ensures
        ls == p.len() - 1 - j,
        p[p.len() - 1 - d - ls] != p[p.len() - 1 - ls],
{
    let last = p.len() - 1;
    if ls < last - j {
        let k = last - ls;
        assert(p[k - d] == p[k]);
        assert(from_end(p, ls) == p[k]);
    }
    if ls > last - j {
        let u = last - j;
        assert(from_end(p, u) == p[last - d - u]);
        assert(p[j - d] != p[j]);
    }
}

impl<'a> BoyerMoore<'a> {
    /// The searcher is built for its pattern: the bad-byte table and a sound good-suffix table.
    pub closed spec fn wf(&self) -> bool {
        let p = self.pattern@;
        &&& p.len() >= 1
        &&& self.bad_char_skip@.len() == 256
        &&& forall|c: u8| #[trigger] self.bad_char_skip@[c as int] == bad_char_shift(p, c)
        &&& self.good_suffix_skip@.len() == p.len()
        &&& forall|j: int| 0 <= j < p.len() ==> good_suffix_sound(
            p,
            j,
            #[trigger] self.good_suffix_skip@[j] as int,
        )
        &&& forall|j: int| 0 <= j < p.len() ==> #[trigger] self.good_suffix_skip@[j] - (p.len()
            - 1 - j) <= p.len()
    }

    pub closed spec fn pattern_view(&self) -> Seq<u8> {
        self.pattern@
    }

    /// Builds the bad-byte and good-suffix tables for a non-empty pattern.
    pub fn new(pattern: &'a [u8]) -> (r: BoyerMoore<'a>)
        requires
            1 <= pattern@.len() <= usize::MAX / 4,
        ensures
            r.wf(),
            r.pattern_view() == pattern@,
    {
        let n = pattern.len();
        let last = n - 1;
        let ghost p = pattern@;
        let mut good_suffix_skip: Vec<usize> = filled_vec(n, n);
        let mut bad_char_skip: Vec<usize> = filled_vec(n, 256);
        let mut i: usize = 0;
        while i < last
            invariant
                n == p.len(),
                p == pattern@,
                last == n - 1,
                i <= last,
                bad_char_skip@.len() == 256,
                forall|c: u8| #[trigger] bad_char_skip@[c as int] == last - last_occurrence(
                    p,
                    c,
                    i as int,
                ),
            decreases last - i,
        {
            let c = pattern[i];
            bad_char_skip.set(c as usize, last - i);
            proof {
                assert forall|c2: u8| #[trigger] bad_char_skip@[c2 as int] == last - last_occurrence(
                    p,
                    c2,
                    i + 1,
                ) by {
                    if c2 == c {
                        assert(c2 as int == c as usize);
                    } else {
                        assert(c2 as int != c as usize);
                    }
                }
            }
            i = i + 1;
        }
        // First pass: shifts that line a border of the pattern up with the matched suffix.
        let mut last_prefix = last;
        let mut idx: usize = last + 1;
        while idx > 0
            invariant
                n == p.len(),
                p == pattern@,
                last == n - 1,
                n <= usize::MAX / 4,
                idx <= n,
                good_suffix_skip@.len() == n,
                idx <= last ==> idx + 1 <= last_prefix <= n,
                idx <= last ==> is_border(p, last_prefix as int),
                idx <= last ==> forall|d: int| idx < d < last_prefix ==> !is_border(p, d),
                forall|j: int|
                    idx <= j < n ==> #[trigger] good_suffix_skip@[j] - (last - j) >= j + 1
                        && good_suffix_skip@[j] - (last - j) <= n
                        && forall|d: int|
                        j < d < good_suffix_skip@[j] - (last - j) ==> !is_border(p, d),
            decreases idx,
        {
            idx = idx - 1;
            let ii = idx;
            if has_prefix_bytes(pattern, &pattern[ii + 1..n]) {
                last_prefix = ii + 1;
                proof {
                    assert forall|t: int| ii + 1 <= t < n implies #[trigger] p[t - (ii + 1)]
                        == p[t] by {
                        assert(p.subrange(0, n - (ii + 1))[t - (ii + 1)] == p.subrange(
                            ii + 1,
                            n as int,
                        )[t - (ii + 1)]);
                    }
                }
            } else {
                proof {
                    if is_border(p, ii + 1) {
                        assert forall|k: int| 0 <= k < n - (ii + 1) implies #[trigger] p.subrange(
                            0,
                            n - (ii + 1),
                        )[k] == p.subrange(ii + 1, n as int)[k] by {
                            let t = k + ii + 1;
                            assert(p[t - (ii + 1)] == p[t]);
                        }
                        assert(p.subrange(0, n - (ii + 1)) =~= p.subrange(ii + 1, n as int));
                    }
                }
            }
            good_suffix_skip.set(ii, last_prefix + last - ii);
        }
        // Second pass: shifts that line up an earlier copy of the matched suffix preceded by
        // a different byte.
        proof {
            assert forall|j: int| 0 <= j < n implies #[trigger] good_suffix_skip@[j] - (last - j) >= 1
                && good_suffix_skip@[j] - (last - j) <= n && forall|d: int|
                1 <= d < good_suffix_skip@[j] - (last - j) ==> !consistent_shift(p, d, j) || (d <= j
                    && last - d >= 0) by {
                assert forall|d: int| 1 <= d < good_suffix_skip@[j] - (last - j) implies
                    !consistent_shift(p, d, j) || (d <= j && last - d >= 0) by {
                    if d > j {
                        lemma_far_shift_is_border(p, d, j);
                    }
                }
            }
        }
        let mut i2: usize = 0;
        while i2 < last
            invariant
                n == p.len(),
                p == pattern@,
                last == n - 1,
                n <= usize::MAX / 4,
                i2 <= last,
                good_suffix_skip@.len() == n,
                forall|j: int|
                    0 <= j < n ==> #[trigger] good_suffix_skip@[j] - (last - j) >= 1
                        && good_suffix_skip@[j] - (last - j) <= n
                        && forall|d: int|
                        1 <= d < good_suffix_skip@[j] - (last - j) ==> !consistent_shift(p, d, j)
                            || (d <= j && last - d >= i2),
            decreases last - i2,
        {
            let ii = i2;
            let len_suffix = longest_common_suffix_bytes(pattern, &pattern[1..ii + 1]);
            proof {
                assert forall|u: int| 0 <= u < len_suffix implies #[trigger] from_end(p, u) == p[last - (last
                    - ii) - u] by {
                    assert(from_end(pattern@, u) == from_end(pattern@.subrange(1, ii + 1), u));
                    assert(pattern@.subrange(1, ii + 1)[ii - 1 - u] == p[ii - u]);
                }
                if len_suffix < last - (last - ii) && len_suffix < n {
                    assert(pattern@.subrange(1, ii + 1)[ii - 1 - len_suffix] == p[ii - len_suffix]);
                }
                assert forall|j: int| 0 <= j < n && #[trigger] consistent_shift(p, last - ii, j) && last
                    - ii <= j implies len_suffix == last - j && p[ii - len_suffix] != p[last
                    - len_suffix] by {
                    lemma_second_pass_finds(p, last - ii, j, len_suffix as int);
                }
            }
            if pattern[ii - len_suffix] != pattern[last - len_suffix] {
                good_suffix_skip.set(last - len_suffix, len_suffix + last - ii);
            }
            proof {
                assert forall|j: int| 0 <= j < n implies #[trigger] good_suffix_skip@[j] - (last
                    - j) >= 1 && good_suffix_skip@[j] - (last - j) <= n && forall|d: int|
                    1 <= d < good_suffix_skip@[j] - (last - j) ==> !consistent_shift(p, d, j) || (d
                        <= j && last - d >= ii + 1) by {
                    assert forall|d: int| 1 <= d < good_suffix_skip@[j] - (last - j) implies
                        !consistent_shift(p, d, j) || (d <= j && last - d >= ii + 1) by {
                        if consistent_shift(p, d, j) && d == last - ii {
                            if d > j {
                                lemma_far_shift_is_border(p, d, j);
                            }
                        }
                    }
                }
            }
            i2 = i2 + 1;
        }
        proof {
            assert forall|j: int| 0 <= j < n implies good_suffix_sound(
                p,
                j,
                #[trigger] good_suffix_skip@[j] as int,
            ) by {}
            assert forall|c: u8| #[trigger] bad_char_skip@[c as int] == bad_char_shift(p, c) by {}
        }
        BoyerMoore { pattern, bad_char_skip, good_suffix_skip }
    }

    /// The checked constructor: `None` for an empty pattern (and for one too long to
    /// index the tables), else the searcher that `new` builds.
    pub fn try_new(pattern: &'a [u8]) -> (r: Option<BoyerMoore<'a>>)
        ensures
            r is Some <==> 1 <= pattern@.len() <= usize::MAX / 4,
            r matches Some(bm) ==> bm.wf() && bm.pattern_view() == pattern@,
    {
        if pattern.len() == 0 || pattern.len() > usize::MAX / 4 {
            None
        } else {
            Some(BoyerMoore::new(pattern))
        }
    }

    /// First occurrence of the pattern in `text`.
    pub fn find(&self, text: &[u8]) -> (r: Option<usize>)
        requires
            self.wf(),
            text@.len() + self.pattern_view().len() <= usize::MAX,
        ensures
            first_match(text@, self.pattern_view(), r),
    {
        let ghost p = self.pattern@;
        let m = self.pattern.len();
        let last = m - 1;
        let mut i = last;
        while i < text.len()
            invariant
                self.wf(),
                p == self.pattern@,
                m == p.len(),
                last == m - 1,
                text@.len() + m <= usize::MAX,
                i >= last,
                i <= text@.len() + last,
                forall|q: int| 0 <= q < i - last ==> !matches_at(text@, p, q),
            decreases text@.len() + last - i,
        {
            let ghost w = (i - last) as int;
            let mut j = last;
            while text[i] == self.pattern[j]
                invariant
                    self.wf(),
                    p == self.pattern@,
                    m == p.len(),
                    last == m - 1,
                    0 <= w,
                    w + m <= text@.len(),
                    j <= last,
                    i == w + j,
                    forall|q: int| 0 <= q < w ==> !matches_at(text@, p, q),
                    forall|k: int| j < k < m ==> text@[w + k] == p[k],
                decreases j,
            {
                if j == 0 {
                    proof {
                        lemma_agreement_matches(text@, p, w);
                    }
                    return Some(i);
                }
                i = i - 1;
                j = j - 1;
            }
            let bad = self.bad_char_skip[text[i] as usize];
            let good = self.good_suffix_skip[j];
            let shift = if bad > good { bad } else { good };
            proof {
                lemma_last_occurrence(p, text@[i as int], last as int);
                lemma_bm_skip(text@, p, w, j as int, good as int, bad as int);
            }
            i = i + shift;
        }
        proof {
            assert forall|q: int| !matches_at(text@, p, q) by {
                if q >= i - last {
                    assert(q + m > text@.len());
                }
            }
        }
        None
    }

    /// All occurrences of the pattern in `text`, overlapping ones included, in order.
    pub fn search(&self, text: &[u8]) -> (r: Vec<usize>)
        requires
            self.wf(),
            text@.len() + self.pattern_view().len() <= usize::MAX,
        ensures
            r@ == all_matches(text@, self.pattern_view(), text@.len() as int),
    {
        let ghost p = self.pattern@;
        let m = self.pattern.len();
        let last = m - 1;
        let mut found: Vec<usize> = Vec::new();
        let mut i = last;
        while i < text.len()
            invariant
                self.wf(),
                p == self.pattern@,
                m == p.len(),
                last == m - 1,
                text@.len() + m <= usize::MAX,
                i >= last,
                i <= text@.len() + last,
                found@ == all_matches(text@, p, i - last),
            decreases text@.len() + last - i,
        {
            let ghost w = (i - last) as int;
            let mut j = last;
            let mut matched = false;
            while !matched && text[i] == self.pattern[j]
                invariant
                    self.wf(),
                    p == self.pattern@,
                    m == p.len(),
                    last == m - 1,
                    0 <= w,
                    w + m <= text@.len(),
                    j <= last,
                    !matched ==> i == w + j,
                    matched ==> i == w && matches_at(text@, p, w),
                    forall|k: int| j < k < m ==> text@[w + k] == p[k],
                decreases j + (if matched { 0int } else { 1int }),
            {
                if j == 0 {
                    proof {
                        lemma_agreement_matches(text@, p, w);
                    }
                    matched = true;
                } else {
                    i = i - 1;
                    j = j - 1;
                }
            }
            if matched {
                proof {
                    lemma_all_matches_step(text@, p, w);
                }
                found.push(i);
                i = i + m;
            } else {
                let bad = self.bad_char_skip[text[i] as usize];
                let good = self.good_suffix_skip[j];
                let shift = if bad > good { bad } else { good };
                proof {
                    lemma_last_occurrence(p, text@[i as int], last as int);
                    lemma_bm_skip(text@, p, w, j as int, good as int, bad as int);
                    lemma_all_matches_skip(text@, p, w, w + shift - (last - j));
                }
                i = i + shift;
            }
        }
        proof {
            lemma_all_matches_skip(text@, p, i - last, text@.len() as int);
        }
        found
    }

    /// The good-suffix table the matcher was built with.
    pub closed spec fn good_view(&self) -> Seq<usize> {
        self.good_suffix_skip@
    }

    /// Occurrences reported while a window of pattern length slides over `text`: after a
    /// match it moves a whole pattern length, after a mismatch by the larger table entry;
    /// the scan stops once the window would run past the end.
    pub fn stream(&self, text: &[u8]) -> (r: Vec<usize>)
        requires
            self.wf(),
            text@.len() + self.pattern_view().len() <= usize::MAX,
        ensures
            r@ == stream_scan(text@, self.pattern_view(), self.good_view(), 0),
            forall|k: int| 0 <= k < r@.len() ==> matches_at(text@, self.pattern_view(), #[trigger] r@[k] as int),
            forall|a: int, b: int| 0 <= a < b < r@.len() ==> r@[a] < r@[b],
    {
        let ghost p = self.pattern@;
        let m = self.pattern.len();
        let mut found: Vec<usize> = Vec::new();
        let mut idx: usize = 0;
        while idx + m <= text.len()
            invariant
                self.wf(),
                p == self.pattern@,
                m == p.len(),
                text@.len() + m <= usize::MAX,
                idx <= text@.len(),
                forall|k: int| 0 <= k < found@.len() ==> matches_at(text@, p, #[trigger] found@[k] as int),
                forall|k: int| 0 <= k < found@.len() ==> #[trigger] found@[k] < idx,
                forall|a: int, b: int| 0 <= a < b < found@.len() ==> found@[a] < found@[b],
                found@ + stream_scan(text@, p, self.good_suffix_skip@, idx as int) == stream_scan(text@, p, self.good_suffix_skip@, 0),
            decreases text@.len() - idx,
        {
            let mut j = m;
            while j > 0 && text[idx + j - 1] == self.pattern[j - 1]
                invariant
                    self.wf(),
                    p == self.pattern@,
                    m == p.len(),
                    idx + m <= text@.len(),
                    text@.len() + m <= usize::MAX,
                    j <= m,
                    forall|k: int| j <= k < m ==> text@[idx + k] == p[k],
                    mismatch_end(text@, p, idx as int, j as int) == mismatch_end(text@, p, idx as int, m as int),
                decreases j,
            {
                j = j - 1;
            }
            assert(mismatch_end(text@, p, idx as int, j as int) == j);
            if j == 0 {
                proof {
                    lemma_agreement_matches(text@, p, idx as int);
                }
                let ghost f0 = found@;
                found.push(idx);
                proof {
                    assert(stream_scan(text@, p, self.good_suffix_skip@, idx as int) == seq![idx] + stream_scan(text@, p,
                        self.good_suffix_skip@, idx + m));
                    assert(found@ + stream_scan(text@, p, self.good_suffix_skip@, idx + m) =~= f0 + (seq![idx] + stream_scan(
                        text@, p, self.good_suffix_skip@, idx + m)));
                }
                idx = idx + m;
            } else {
                let mismatch = j - 1;
                let c = text[idx + mismatch];
                let bad = self.bad_char_skip[c as usize];
                let good = self.good_suffix_skip[mismatch];
                let shift = if bad > good { bad } else { good };
                proof {
                    assert(self.bad_char_skip@[c as int] == bad_char_shift(p, c));
                    assert(good_suffix_sound(p, mismatch as int, self.good_suffix_skip@[mismatch as int] as int));
                }
                if shift > text.len() - m - idx {
                    proof {
                        assert(stream_scan(text@, p, self.good_suffix_skip@, idx as int) == Seq::<usize>::empty());
                        assert(found@ + Seq::<usize>::empty() =~= found@);
                    }
                    return found;
                }
                idx = idx + shift;
            }
        }
        proof {
            assert(stream_scan(text@, p, self.good_suffix_skip@, idx as int) == Seq::<usize>::empty());
            assert(found@ + Seq::<usize>::empty() =~= found@);
        }
        found
    }
}

/// Comparing the window at `idx` with `p` from its end down, starting below `j`: the
/// length of the prefix left when the first mismatch is met (0 when all of it agrees).
pub open spec fn mismatch_end(text: Seq<u8>, p: Seq<u8>, idx: int, j: int) -> int
    decreases j,
{
    if j > 0 && text[idx + j - 1] == p[j - 1] {
        mismatch_end(text, p, idx, j - 1)
    } else {
        j
    }
}

/// The positions the sliding scan reports from window `idx` on, with good-suffix table
/// `good`: a window that agrees with `p` is reported and the scan moves a whole pattern
/// length; at a mismatch it moves by the larger of the bad-byte shift of the text's byte
/// there and the good-suffix entry, and stops where that would take the window past the end.
pub open spec fn stream_scan(text: Seq<u8>, p: Seq<u8>, good: Seq<usize>, idx: int) -> Seq<usize>
    decreases text.len() - idx,
{
    let m = p.len() as int;
    if idx < 0 || m == 0 || idx + m > text.len() {
        Seq::empty()
    } else {
        let j = mismatch_end(text, p, idx, m);
        if j <= 0 {
            seq![idx as usize] + stream_scan(text, p, good, idx + m)
        } else {
            let bad = bad_char_shift(p, text[idx + j - 1]);
            let g = good[j - 1] as int;
            let shift = if bad > g { bad } else { g };
            if 1 <= shift <= text.len() - m - idx {
                stream_scan(text, p, good, idx + shift)
            } else {
                Seq::empty()
            }
        }
    }
}

/// Comparing a window against the pattern reads only the window's bytes.
proof fn lemma_mismatch_end_shift(text: Seq<u8>, p: Seq<u8>, a: int, idx: int, j: int)
    requires
        0 <= a <= idx,
        0 <= j,
        idx + j <= text.len(),
    ensures
        mismatch_end(text, p, idx, j) == mismatch_end(text.skip(a), p, idx - a, j),
    decreases j,
{
    if j > 0 {
        assert(text.skip(a)[idx - a + j - 1] == text[idx + j - 1]);
        lemma_mismatch_end_shift(text, p, a, idx, j - 1);
    }
}

/// A window that agrees with the pattern is compared down to nothing left.
proof fn lemma_mismatch_end_match(text: Seq<u8>, p: Seq<u8>, idx: int, j: int)
    requires
        0 <= j <= p.len(),
        matches_at(text, p, idx),
    ensures
        mismatch_end(text, p, idx, j) == 0,
    decreases j,
{
    if j > 0 {
        assert(text.subrange(idx, idx + p.len())[j - 1] == text[idx + j - 1]);
        lemma_mismatch_end_match(text, p, idx, j - 1);
    }
}

/// The scan from window `idx` reports, counted in the whole text, what the scan of the text
/// with its first `a` bytes cut off reports from window `idx - a`.
proof fn lemma_stream_scan_shift(text: Seq<u8>, p: Seq<u8>, good: Seq<usize>, a: int, idx: int)
    requires
        0 <= a <= idx <= text.len(),
        text.len() <= usize::MAX,
    ensures
        stream_scan(text, p, good, idx) == stream_scan(text.skip(a), p, good, idx - a).map_values(|x: usize| (x + a) as usize),
    decreases text.len() - idx,
{
    let m = p.len() as int;
    let u = text.skip(a);
    if idx + m > text.len() || m == 0 {
        assert(stream_scan(text, p, good, idx) =~= Seq::<usize>::empty());
        assert(stream_scan(u, p, good, idx - a) =~= Seq::<usize>::empty());
        assert(Seq::<usize>::empty().map_values(|x: usize| (x + a) as usize) =~= Seq::<usize>::empty());
    } else {
        lemma_mismatch_end_shift(text, p, a, idx, m);
        lemma_mismatch_end_bounds(text, p, idx, m);
        let j = mismatch_end(text, p, idx, m);
        if j <= 0 {
            lemma_stream_scan_shift(text, p, good, a, idx + m);
            assert(stream_scan(text, p, good, idx) =~= seq![idx as usize] + stream_scan(u, p, good, idx - a + m).map_values(
                |x: usize| (x + a) as usize));
            assert((seq![(idx - a) as usize] + stream_scan(u, p, good, idx - a + m)).map_values(|x: usize| (x + a) as usize)
                =~= seq![idx as usize] + stream_scan(u, p, good, idx - a + m).map_values(|x: usize| (x + a) as usize));
        } else {
            assert(u[idx - a + j - 1] == text[idx + j - 1]);
            let bad = bad_char_shift(p, text[idx + j - 1]);
            let g = good[j - 1] as int;
            let shift = if bad > g { bad } else { g };
            if 1 <= shift <= text.len() - m - idx {
                lemma_stream_scan_shift(text, p, good, a, idx + shift);
            } else {
                assert(Seq::<usize>::empty().map_values(|x: usize| (x + a) as usize) =~= Seq::<usize>::empty());
            }
        }
    }
}

/// After a window that agrees with the pattern, the scan goes on from the byte after it:
/// what the scan of a text starting with the pattern reports is that start, then what the
/// scan of the rest of the text reports, counted in the whole text.
pub proof fn lemma_stream_goes_on_after_match(bm: &BoyerMoore, text: Seq<u8>)
    requires
        bm.wf(),
        text.len() <= usize::MAX,
        matches_at(text, bm.pattern_view(), 0),
    ensures
        stream_scan(text, bm.pattern_view(), bm.good_view(), 0) == seq![0usize] + stream_scan(
            text.skip(bm.pattern_view().len() as int),
            bm.pattern_view(),
            bm.good_view(),
            0,
        ).map_values(|x: usize| (x + bm.pattern_view().len()) as usize),
{
    let p = bm.pattern_view();
    let m = p.len() as int;
    lemma_mismatch_end_match(text, p, 0, m);
    lemma_stream_scan_shift(text, p, bm.good_view(), m, m);
}

/// The scan reports occurrences of the pattern that do not overlap, in increasing order.
pub proof fn lemma_stream_reports_disjoint_matches(text: Seq<u8>, p: Seq<u8>, good: Seq<usize>, idx: int)
    requires
        0 <= idx,
        text.len() <= usize::MAX,
    ensures
        forall|k: int| 0 <= k < stream_scan(text, p, good, idx).len() ==> matches_at(text, p, #[trigger] stream_scan(text, p, good, idx)[k] as int)
            && idx <= stream_scan(text, p, good, idx)[k],
        forall|k: int| 0 <= k < stream_scan(text, p, good, idx).len() - 1 ==> #[trigger] stream_scan(text, p, good, idx)[k] + p.len()
            <= stream_scan(text, p, good, idx)[k + 1],
    decreases text.len() - idx,
{
    let m = p.len() as int;
    if !(idx + m > text.len() || m == 0) {
        let j = mismatch_end(text, p, idx, m);
        lemma_mismatch_end_bounds(text, p, idx, m);
        let r = stream_scan(text, p, good, idx);
        if j <= 0 {
            lemma_stream_reports_disjoint_matches(text, p, good, idx + m);
            lemma_mismatch_end_zero(text, p, idx, m);
            let rest = stream_scan(text, p, good, idx + m);
            assert(r == seq![idx as usize] + rest);
            assert forall|k: int| 0 <= k < r.len() implies matches_at(text, p, #[trigger] r[k] as int) && idx <= r[k] by {
                if k > 0 {
                    assert(r[k] == rest[k - 1]);
                }
            }
            assert forall|k: int| 0 <= k < r.len() - 1 implies #[trigger] r[k] + p.len() <= r[k + 1] by {
                assert(r[k + 1] == rest[k]);
                if k > 0 {
                    assert(r[k] == rest[k - 1]);
                }
            }
        } else {
            let bad = bad_char_shift(p, text[idx + j - 1]);
            let g = good[j - 1] as int;
            let shift = if bad > g { bad } else { g };
            let r = stream_scan(text, p, good, idx);
            if 1 <= shift <= text.len() - m - idx {
                lemma_stream_reports_disjoint_matches(text, p, good, idx + shift);
                assert(r == stream_scan(text, p, good, idx + shift));
            } else {
                assert(r == Seq::<usize>::empty());
            }
        }
    }
}

proof fn lemma_mismatch_end_bounds(text: Seq<u8>, p: Seq<u8>, idx: int, j: int)
    requires
        0 <= j,
    ensures
        0 <= mismatch_end(text, p, idx, j) <= j,
        mismatch_end(text, p, idx, j) < j ==> forall|k: int| mismatch_end(text, p, idx, j) <= k < j ==> text[idx + k] == p[k],
    decreases j,
{
    if j > 0 && text[idx + j - 1] == p[j - 1] {
        lemma_mismatch_end_bounds(text, p, idx, j - 1);
    }
}

proof fn lemma_mismatch_end_zero(text: Seq<u8>, p: Seq<u8>, idx: int, m: int)
    requires
        m == p.len(),
        m >= 1,
        0 <= idx,
        idx + m <= text.len(),
        mismatch_end(text, p, idx, m) == 0,
    ensures
        matches_at(text, p, idx),
{
    lemma_mismatch_end_bounds(text, p, idx, m);
    lemma_agreement_matches(text, p, idx);
}

/// All start positions below `upto` where `p` occurs in `text`, in increasing order.
pub open spec fn all_matches(text: Seq<u8>, p: Seq<u8>, upto: int) -> Seq<usize>
    decreases upto,
{
    if upto <= 0 {
        Seq::empty()
    } else if matches_at(text, p, upto - 1) {
        all_matches(text, p, upto - 1).push((upto - 1) as usize)
    } else {
        all_matches(text, p, upto - 1)
    }
}

proof fn lemma_all_matches_step(text: Seq<u8>, p: Seq<u8>, w: int)
    requires
        0 <= w,
        matches_at(text, p, w),
    ensures
        all_matches(text, p, w + 1) == all_matches(text, p, w).push(w as usize),
{
}

/// Positions without an occurrence add nothing to the list of occurrences.
proof fn lemma_all_matches_skip(text: Seq<u8>, p: Seq<u8>, a: int, b: int)
    requires
        0 <= a,
        forall|t: int| a <= t < b ==> !matches_at(text, p, t),
    ensures
        a <= b ==> all_matches(text, p, b) == all_matches(text, p, a),
        b < a ==> true,
    decreases b - a,
{
    if a < b {
        lemma_all_matches_skip(text, p, a, b - 1);
    }
}

/// After a mismatch at `j` of the window at `w`, every window before the one the larger of
/// the two table entries moves to holds no occurrence.
proof fn lemma_bm_skip(text: Seq<u8>, p: Seq<u8>, w: int, j: int, g: int, b: int)
    requires
        p.len() >= 1,
        0 <= w,
        0 <= j < p.len(),
        w + p.len() <= text.len(),
        forall|k: int| j < k < p.len() ==> text[w + k] == p[k],
        text[w + j] != p[j],
        good_suffix_sound(p, j, g),
        b == bad_char_shift(p, text[w + j]),
    ensures
        forall|t: int|
            w <= t < w + (if b > g { b } else { g }) - (p.len() - 1 - j) ==> !matches_at(text, p, t),
{
    let last = p.len() - 1;
    let c = text[w + j];
    lemma_last_occurrence(p, c, last);
    assert forall|t: int|
        w <= t < w + (if b > g { b } else { g }) - (p.len() - 1 - j) implies !matches_at(
        text,
        p,
        t,
    ) by {
        let d = t - w;
        if d == 0 {
            lemma_mismatch_rules_out(text, p, w, j);
        } else if matches_at(text, p, t) {
            if d < g - (last - j) {
                assert forall|k: int| j < k < p.len() && k >= d implies #[trigger] p[k - d] == p[k] by {
                    lemma_match_bytes(text, p, t, k - d);
                }
                if j >= d {
                    lemma_match_bytes(text, p, t, j - d);
                }
                assert(consistent_shift(p, d, j));
            } else {
                lemma_match_bytes(text, p, t, j - d);
                assert(p[j - d] == c);
            }
        }
    }
}

} // verus!
