use vstd::prelude::*;

verus! {

/// A vector of `n` copies of `value`.
pub fn filled_vec<T: Copy>(value: T, n: usize) -> (v: Vec<T>)
    ensures
        v@.len() == n,
        forall|i: int| 0 <= i < n ==> v@[i] == value,
{
    let mut v: Vec<T> = Vec::with_capacity(n);
    let mut i: usize = 0;
    while i < n
        invariant
            i <= n,
            v@.len() == i,
            forall|k: int| 0 <= k < i ==> v@[k] == value,
        decreases n - i,
    {
        v.push(value);
        i = i + 1;
    }
    v
}

/// A fresh vector holding the bytes of `s`.
pub fn bytes_to_vec(s: &[u8]) -> (v: Vec<u8>)
    ensures
        v@ == s@,
{
    let mut v: Vec<u8> = Vec::with_capacity(s.len());
    let mut i: usize = 0;
    while i < s.len()
        invariant
            i <= s@.len(),
            v@ == s@.subrange(0, i as int),
        decreases s@.len() - i,
    {
        v.push(s[i]);
        i = i + 1;
    }
    assert(v@ =~= s@);
    v
}

} // verus!
