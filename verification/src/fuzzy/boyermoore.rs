use vstd::prelude::*;
use crate::searcher::boyermoore::{all_matches, from_end};
use crate::searcher::boyermoore::BoyerMoore as ByteSearcher;
use vstd::string::StringSliceAdditionalSpecFns;

verus! {

/// A Boyer-Moore searcher for a text pattern, matching its UTF-8 bytes.
pub struct BoyerMoore<'a> {
    searcher: ByteSearcher<'a>,
}

impl<'a> BoyerMoore<'a> {
    pub closed spec fn wf(&self) -> bool {
        self.searcher.wf()
    }

    /// The pattern's bytes.
    pub closed spec fn pattern_bytes(&self) -> Seq<u8> {
        self.searcher.pattern_view()
    }

    /// Builds the bad-byte and good-suffix tables for a non-empty pattern.
    pub fn new(pattern: &'a str) -> (r: BoyerMoore<'a>)
        requires
            1 <= pattern.spec_bytes().len() <= usize::MAX / 4,
        ensures
            r.wf(),
            r.pattern_bytes() == pattern.spec_bytes(),
    {
        BoyerMoore { searcher: ByteSearcher::new(pattern.as_bytes()) }
    }

    /// Every byte position of `text` where the pattern occurs, in increasing order
    /// (occurrences may overlap).
    pub fn find(&self, text: &str) -> (r: Vec<usize>)
        requires
            self.wf(),
            text.spec_bytes().len() + self.pattern_bytes().len() <= usize::MAX,
        ensures
            r@ == all_matches(
                text.spec_bytes(),
                self.pattern_bytes(),
                text.spec_bytes().len() as int,
            ),
    {
        self.searcher.search(text.as_bytes())
    }
}

/// Length of the longest common suffix of `a` and `b`.
pub fn longest_common_suffix_bytes(a: &[u8], b: &[u8]) -> (r: usize)
    ensures
        r <= a@.len(),
        r <= b@.len(),
        forall|u: int| 0 <= u < r ==> #[trigger] from_end(a@, u) == from_end(b@, u),
        r < a@.len() && r < b@.len() ==> a@[a@.len() - 1 - r] != b@[b@.len() - 1 - r],
{
    crate::searcher::boyermoore::longest_common_suffix_bytes(a, b)
}

/// Whether `s` starts with `prefix`.
pub fn has_prefix_bytes(s: &[u8], prefix: &[u8]) -> (r: bool)
    ensures
        r == (prefix@.len() <= s@.len() && s@.subrange(0, prefix@.len() as int) == prefix@),
{
    crate::searcher::boyermoore::has_prefix_bytes(s, prefix)
}

} // verus!
