use vstd::prelude::*;
use crate::searcher::memmem::{joined, parts_total_len, small_slices_byte_at};
use crate::fuzzy::fzf::{embeds, folded, fzf_v1, is_v1_match, FzfMatcher};
use crate::fuzzy::fzf_sw::{bounds_of, prepared_result, FzfV2Matcher};

pub mod bitap;
pub mod boyermoore;
pub mod fzf;
pub mod fzf_sw;
pub mod levenshtein;
pub mod smithwaterman;

verus! {

/// A match: its score, the byte range `[start, end)` it covers and the positions of the
/// matched bytes.
#[derive(Debug, Clone)]
pub struct Match {
    pub score: i16,
    pub start: usize,
    pub end: usize,
    pub positions: Vec<usize>,
}

/// A match without its positions.
#[derive(Debug, Clone, Copy, PartialEq, Eq, Structural)]
pub struct MatchBounds {
    pub score: i16,
    pub start: usize,
    pub end: usize,
}

/// Total number of bytes of the parts laid end to end.
pub fn parts_len(parts: &[&[u8]]) -> (n: usize)
    requires
        joined(parts@).len() <= usize::MAX,
    ensures
        n == joined(parts@).len(),
{
    parts_total_len(parts)
}

/// The byte at `index` of the parts laid end to end.
pub fn byte_at(parts: &[&[u8]], index: usize) -> (r: u8)
    requires
        index < joined(parts@).len(),
    ensures
        r == joined(parts@)[index as int],
{
    match small_slices_byte_at(parts, index) {
        Some(b) => b,
        None => 0,
    }
}

/// The positions `start, start + 1, ..., end - 1`.
pub open spec fn range_seq(start: int, end: int) -> Seq<usize> {
    Seq::new((end - start) as nat, |k: int| (start + k) as usize)
}

pub fn range_vec(start: usize, end: usize) -> (r: Vec<usize>)
    requires
        start <= end,
    ensures
        r@ == range_seq(start as int, end as int),
{
    let mut v: Vec<usize> = Vec::new();
    let mut k = start;
    while k < end
        invariant
            start <= k <= end,
            v@ == range_seq(start as int, k as int),
        decreases end - k,
    {
        v.push(k);
        k = k + 1;
        proof {
            assert(v@ =~= range_seq(start as int, k as int));
        }
    }
    v
}


/// Smart case: the search is case sensitive exactly when the pattern holds an ASCII
/// upper-case letter.
pub open spec fn has_upper(p: Seq<u8>) -> bool {
    exists|i: int| 0 <= i < p.len() && 65 <= #[trigger] p[i] <= 90
}

pub fn smart_case(pattern: &[u8]) -> (r: bool)
    ensures
        r == has_upper(pattern@),
{
    let mut i: usize = 0;
    while i < pattern.len()
        invariant
            i <= pattern@.len(),
            forall|k: int| 0 <= k < i ==> !(65 <= #[trigger] pattern@[k] <= 90),
        decreases pattern@.len() - i,
    {
        if 65 <= pattern[i] && pattern[i] <= 90 {
            return true;
        }
        i = i + 1;
    }
    false
}

/// A pattern ready for searching: folded to lower case unless smart case makes the search
/// case sensitive.
#[derive(Debug, Clone)]
pub struct CompiledPattern {
    pub bytes: Vec<u8>,
    pub case_sensitive: bool,
}

/// The bytes a compiled pattern searches for.
pub open spec fn compiled_bytes(p: Seq<u8>) -> Seq<u8> {
    if has_upper(p) {
        p
    } else {
        p.map_values(|b: u8| crate::fuzzy::fzf::lower(b))
    }
}

impl CompiledPattern {
    pub fn new(pattern: &[u8]) -> (r: CompiledPattern)
        ensures
            r.case_sensitive == has_upper(pattern@),
            r.bytes@ == compiled_bytes(pattern@),
            r.bytes@.len() == pattern@.len(),
            r.case_sensitive || folded(r.bytes@),
    {
        let case_sensitive = smart_case(pattern);
        let mut bytes: Vec<u8> = Vec::new();
        let mut i: usize = 0;
        while i < pattern.len()
            invariant
                i <= pattern@.len(),
                case_sensitive == has_upper(pattern@),
                bytes@ == compiled_bytes(pattern@).take(i as int),
            decreases pattern@.len() - i,
        {
            let b = pattern[i];
            if case_sensitive {
                bytes.push(b);
            } else {
                bytes.push(crate::fuzzy::fzf::ascii_lower(b));
            }
            i = i + 1;
            proof {
                assert(bytes@ =~= compiled_bytes(pattern@).take(i as int));
            }
        }
        proof {
            assert(compiled_bytes(pattern@).take(i as int) =~= compiled_bytes(pattern@));
            if !case_sensitive {
                assert forall|k: int| 0 <= k < bytes@.len() implies !crate::fuzzy::fzf::is_upper(#[trigger] bytes@[k]) by {
                    assert(bytes@[k] == crate::fuzzy::fzf::lower(pattern@[k]));
                }
            }
        }
        CompiledPattern { bytes, case_sensitive }
    }

    pub fn is_empty(&self) -> (r: bool)
        ensures
            r == (self.bytes@.len() == 0),
    {
        self.bytes.len() == 0
    }
}


/// The fuzzy algorithm of a session: fzf's v1 (greedy) or v2 (score matrix).
#[derive(Debug, Clone, Copy, PartialEq, Eq, Structural)]
pub enum FuzzyAlgorithm {
    V1,
    V2,
}

/// The matchers of both algorithms, kept for reuse across searches.
pub struct FuzzySearch {
    fzf_v1: FzfMatcher,
    fzf_v2: FzfV2Matcher,
}

/// A search with one compiled pattern and one algorithm.
pub struct FuzzySession<'a> {
    search: &'a mut FuzzySearch,
    algorithm: FuzzyAlgorithm,
    case_sensitive: bool,
}

impl FuzzySearch {
    /// Both matchers, each with no pattern yet.
    pub closed spec fn wf(&self) -> bool {
        self.fzf_v2.wf()
    }

    pub fn new() -> (r: FuzzySearch)
        ensures
            r.wf(),
    {
        FuzzySearch { fzf_v1: FzfMatcher::new(), fzf_v2: FzfV2Matcher::new() }
    }

    /// Prepares the chosen algorithm's matcher with `pattern` and opens a session on it.
    pub fn begin<'a>(&'a mut self, algorithm: FuzzyAlgorithm, pattern: &CompiledPattern) -> (r: FuzzySession<'a>)
        requires
            old(self).wf(),
            pattern.case_sensitive || folded(pattern.bytes@),
        ensures
            r.wf(),
            r.algorithm() == algorithm,
            r.case_sensitive() == pattern.case_sensitive,
            r.pattern() == pattern.bytes@,
    {
        match algorithm {
            FuzzyAlgorithm::V1 => self.fzf_v1.prepare(pattern),
            FuzzyAlgorithm::V2 => self.fzf_v2.prepare(pattern),
        }
        FuzzySession { search: self, algorithm, case_sensitive: pattern.case_sensitive }
    }
}

impl Default for FuzzySearch {
    fn default() -> (r: FuzzySearch)
        ensures
            r.wf(),
    {
        FuzzySearch::new()
    }
}

impl<'a> FuzzySession<'a> {
    pub closed spec fn algorithm(&self) -> FuzzyAlgorithm {
        self.algorithm
    }

    pub closed spec fn case_sensitive(&self) -> bool {
        self.case_sensitive
    }

    /// The pattern the session searches for.
    pub closed spec fn pattern(&self) -> Seq<u8> {
        match self.algorithm {
            FuzzyAlgorithm::V1 => self.search.fzf_v1.pattern_view(),
            FuzzyAlgorithm::V2 => self.search.fzf_v2.pattern_view(),
        }
    }

    pub closed spec fn wf(&self) -> bool {
        &&& self.search.fzf_v2.wf()
        &&& self.case_sensitive || folded(self.pattern())
    }

    /// The best match's score and range, by the session's algorithm.
    pub fn find_bounds(&mut self, parts: &[&[u8]]) -> (r: Option<MatchBounds>)
        requires
            old(self).wf(),
            joined(parts@).len() <= usize::MAX,
            old(self).algorithm() == FuzzyAlgorithm::V1 ==> old(self).pattern().len() <= 900,
        ensures
            final(self).wf(),
            final(self).algorithm() == old(self).algorithm(),
            final(self).case_sensitive() == old(self).case_sensitive(),
            final(self).pattern() == old(self).pattern(),
            old(self).algorithm() == FuzzyAlgorithm::V1 ==> match fzf_v1(joined(parts@), old(self).pattern(), old(self).case_sensitive()) {
                None => r is None,
                Some(x) => r == Some(MatchBounds { score: x.0 as i16, start: x.1 as usize, end: x.2 as usize }),
            },
            old(self).algorithm() == FuzzyAlgorithm::V2 ==> exists|m: Option<Match>| #[trigger] prepared_result(
                m,
                joined(parts@),
                old(self).pattern(),
                old(self).case_sensitive(),
                false,
            ) && bounds_of(m) == r,
    {
        match self.algorithm {
            FuzzyAlgorithm::V1 => self.search.fzf_v1.find_best_bounds_prepared(parts, self.case_sensitive),
            FuzzyAlgorithm::V2 => self.search.fzf_v2.find_best_bounds_prepared(parts, self.case_sensitive),
        }
    }

    /// The best match with its positions, by the session's algorithm.
    pub fn find_with_positions(&mut self, parts: &[&[u8]]) -> (r: Option<Match>)
        requires
            old(self).wf(),
            joined(parts@).len() <= usize::MAX,
            old(self).algorithm() == FuzzyAlgorithm::V1 ==> old(self).pattern().len() <= 900,
        ensures
            final(self).wf(),
            final(self).algorithm() == old(self).algorithm(),
            final(self).case_sensitive() == old(self).case_sensitive(),
            final(self).pattern() == old(self).pattern(),
            old(self).algorithm() == FuzzyAlgorithm::V1 ==> is_v1_match(
                r,
                fzf_v1(joined(parts@), old(self).pattern(), old(self).case_sensitive()),
            ),
            old(self).algorithm() == FuzzyAlgorithm::V2 ==> prepared_result(
                r,
                joined(parts@),
                old(self).pattern(),
                old(self).case_sensitive(),
                true,
            ),
            r matches Some(m) ==> embeds(joined(parts@), old(self).pattern(), old(self).case_sensitive(), m.positions@),
    {
        match self.algorithm {
            FuzzyAlgorithm::V1 => self.search.fzf_v1.find_best_with_positions_prepared(parts, self.case_sensitive),
            FuzzyAlgorithm::V2 => self.search.fzf_v2.find_best_with_positions_prepared(parts, self.case_sensitive),
        }
    }
}

} // verus!
