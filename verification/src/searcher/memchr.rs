use vstd::prelude::*;

verus! {

/// `r` is the index of the first byte of `s` equal to `c`, or `None` when no byte is.
pub open spec fn first_byte_result(s: Seq<u8>, c: u8, r: Option<usize>) -> bool {
    match r {
        Some(i) => i < s.len() && s[i as int] == c && forall|k: int| 0 <= k < i ==> s[k] != c,
        None => forall|k: int| 0 <= k < s.len() ==> s[k] != c,
    }
}

/// Position of the first byte of `s` that equals `c`.
pub fn memchr(s: &[u8], c: u8) -> (r: Option<usize>)
    ensures
        first_byte_result(s@, c, r),
{
    _memchr(s, c)
}

/// The scalar scan behind `memchr`: bytes in order until the first equal to `c`.
pub fn _memchr(s: &[u8], c: u8) -> (r: Option<usize>)
    ensures
        first_byte_result(s@, c, r),
{
    let mut i: usize = 0;
    while i < s.len()
        invariant
            i <= s@.len(),
            forall|k: int| 0 <= k < i ==> s@[k] != c,
        decreases s@.len() - i,
    {
        if s[i] == c {
            return Some(i);
        }
        i = i + 1;
    }
    None
}

} // verus!
