use vstd::prelude::*;
use crate::searcher::memchr::{memchr, first_byte_result};
use crate::searcher::memcmp::{memcmp, compare_spec, lemma_compare_zero_iff_equal};
use crate::util::filled_vec;

verus! {

/// `needle` occurs in `haystack` starting at `p`.
pub open spec fn matches_at(haystack: Seq<u8>, needle: Seq<u8>, p: int) -> bool {
    0 <= p && p + needle.len() <= haystack.len() && haystack.subrange(p, p + needle.len())
        == needle
}

/// `r` is the first occurrence of `needle` in `haystack`, or `None` when there is none.
pub open spec fn first_match(haystack: Seq<u8>, needle: Seq<u8>, r: Option<usize>) -> bool {
    match r {
        Some(p) => matches_at(haystack, needle, p as int) && forall|q: int|
            0 <= q < p ==> !matches_at(haystack, needle, q),
        None => forall|q: int| !matches_at(haystack, needle, q),
    }
}

/// The answer `memmem` owes: `None` for an empty needle, otherwise the first occurrence.
pub open spec fn memmem_result(haystack: Seq<u8>, needle: Seq<u8>, r: Option<usize>) -> bool {
    if needle.len() == 0 {
        r is None
    } else {
        first_match(haystack, needle, r)
    }
}

/// A single differing byte rules out an occurrence.
pub proof fn lemma_mismatch_rules_out(haystack: Seq<u8>, needle: Seq<u8>, p: int, k: int)
    requires
        0 <= k < needle.len(),
        0 <= p,
        p + k < haystack.len(),
        haystack[p + k] != needle[k],
    ensures
        !matches_at(haystack, needle, p),
{
    if matches_at(haystack, needle, p) {
        assert(haystack.subrange(p, p + needle.len())[k] == haystack[p + k]);
    }
}

/// Byte-wise agreement gives an occurrence.
pub proof fn lemma_agreement_matches(haystack: Seq<u8>, needle: Seq<u8>, p: int)
    requires
        0 <= p,
        p + needle.len() <= haystack.len(),
        forall|k: int| 0 <= k < needle.len() ==> haystack[p + k] == needle[k],
    ensures
        matches_at(haystack, needle, p),
{
    assert(haystack.subrange(p, p + needle.len()) =~= needle);
}

/// An occurrence gives byte-wise agreement.
pub proof fn lemma_match_bytes(haystack: Seq<u8>, needle: Seq<u8>, p: int, k: int)
    requires
        matches_at(haystack, needle, p),
        0 <= k < needle.len(),
    ensures
        haystack[p + k] == needle[k],
{
    assert(haystack.subrange(p, p + needle.len())[k] == haystack[p + k]);
}

/// `memcmp` of two slices is zero exactly when they hold the same bytes.
fn slices_equal(a: &[u8], b: &[u8]) -> (r: bool)
    ensures
        r == (a@ == b@),
{
    let d = memcmp(a, b);
    proof {
        lemma_compare_zero_iff_equal(a@, b@);
    }
    d == 0
}

/// The two bytes `hi`, `lo` packed into one word, as the two-byte search keeps them.
pub open spec fn pair_word(hi: u8, lo: u8) -> u32 {
    ((hi as u32) << 16u32) | (lo as u32)
}

proof fn lemma_pair_word_injective(a: u8, b: u8, c: u8, d: u8)
    ensures
        (pair_word(a, b) == pair_word(c, d)) <==> (a == c && b == d),
{
    assert((((a as u32) << 16u32) | (b as u32)) == (((c as u32) << 16u32) | (d as u32)) <==> (a
        == c && b == d)) by (bit_vector);
}

proof fn lemma_pair_word_roll(a: u8, b: u8, e: u8)
    ensures
        ((pair_word(a, b) << 16u32) | (e as u32)) == pair_word(b, e),
{
    assert((((((a as u32) << 16u32) | (b as u32)) << 16u32) | (e as u32)) == (((b as u32)
        << 16u32) | (e as u32))) by (bit_vector);
}

fn byte_word(b: u8) -> (w: u32)
    ensures
        w == b as u32,
{
    b as u32
}

/// First occurrence of a two-byte needle, sliding a two-byte word along the haystack.
fn memmem_len2_safe(hs: &[u8], ne: &[u8]) -> (r: Option<usize>)
    requires
        ne@.len() == 2,
        hs@.len() >= 2,
    ensures
        first_match(hs@, ne@, r),
{
    let end = hs.len() - 2;
    let nw: u32 = (byte_word(ne[0]) << 16u32) | byte_word(ne[1]);
    let mut hw: u32 = (byte_word(hs[0]) << 16u32) | byte_word(hs[1]);
    let mut i: usize = 1;
    while i <= end && hw != nw
        invariant
            hs@.len() >= 2,
            hs@.len() <= usize::MAX,
            ne@.len() == 2,
            end == hs@.len() - 2,
            1 <= i <= end + 1,
            nw == pair_word(ne@[0], ne@[1]),
            hw == pair_word(hs@[i - 1], hs@[i as int]),
            forall|q: int| 0 <= q < i - 1 ==> !matches_at(hs@, ne@, q),
        decreases end + 1 - i,
    {
        proof {
            lemma_pair_word_injective(hs@[i - 1], hs@[i as int], ne@[0], ne@[1]);
            if hs@[i - 1] != ne@[0] {
                lemma_mismatch_rules_out(hs@, ne@, i - 1, 0);
            } else {
                lemma_mismatch_rules_out(hs@, ne@, i - 1, 1);
            }
            lemma_pair_word_roll(hs@[i - 1], hs@[i as int], hs@[i + 1]);
        }
        i = i + 1;
        hw = (hw << 16u32) | byte_word(hs[i]);
    }
    proof {
        lemma_pair_word_injective(hs@[i - 1], hs@[i as int], ne@[0], ne@[1]);
    }
    if hw == nw {
        proof {
            lemma_agreement_matches(hs@, ne@, i - 1);
        }
        Some(i - 1)
    } else {
        proof {
            if hs@[i - 1] != ne@[0] {
                lemma_mismatch_rules_out(hs@, ne@, i - 1, 0);
            } else {
                lemma_mismatch_rules_out(hs@, ne@, i - 1, 1);
            }
        }
        None
    }
}


/// The hash the shortened Horspool search keeps of the byte pair `x`, `y`.
pub open spec fn pair_hash(x: u8, y: u8) -> int {
    (y + 2048 - 8 * x) % 256
}

/// The hash of the pair of `s` that ends at index `i`.
pub open spec fn hash_at(s: Seq<u8>, i: int) -> int {
    pair_hash(s[i - 1], s[i])
}

/// The largest index `t` with `1 <= t < upto` whose pair hashes to `h`, or 0 when none does.
pub open spec fn last_with_hash(s: Seq<u8>, upto: int, h: int) -> int
    decreases upto,
{
    if upto <= 1 {
        0
    } else if hash_at(s, upto - 1) == h {
        upto - 1
    } else {
        last_with_hash(s, upto - 1, h)
    }
}

/// The skip table of the shortened Horspool search for `needle`: the needle's last pair
/// maps to `len - 1`, any other hash to `last_with_hash` below `len - 1`.
pub open spec fn horspool_table(needle: Seq<u8>, h: int) -> int {
    let m1 = needle.len() - 1;
    if h == hash_at(needle, m1) {
        m1
    } else {
        last_with_hash(needle, m1, h)
    }
}

proof fn lemma_last_with_hash(s: Seq<u8>, upto: int, h: int)
    ensures
        ({
            let v = last_with_hash(s, upto, h);
            &&& 0 <= v
            &&& (v == 0 || (1 <= v < upto && hash_at(s, v) == h))
            &&& forall|t: int| v < t < upto && 1 <= t ==> hash_at(s, t) != h
        }),
    decreases upto,
{
    if upto > 1 {
        lemma_last_with_hash(s, upto - 1, h);
    }
}

/// Pairs with the same first byte and the same hash are equal.
proof fn lemma_pair_hash_second_byte(x: u8, y1: u8, y2: u8)
    requires
        pair_hash(x, y1) == pair_hash(x, y2),
    ensures
        y1 == y2,
{
    let c = 2048 - 8 * x;
    assert(c >= 8);
    assert((y1 + c) % 256 == (y2 + c) % 256);
    assert(y1 == y2) by (nonlinear_arith)
        requires
            (y1 + c) % 256 == (y2 + c) % 256,
            0 <= y1 < 256,
            0 <= y2 < 256,
            c >= 0,
    ;
}

/// The hash of the byte pair of `bytes` that ends at `index`.
fn hash2(bytes: &[u8], index: usize) -> (h: usize)
    requires
        1 <= index < bytes@.len(),
    ensures
        h == hash_at(bytes@, index as int),
        h < 256,
{
    (bytes[index] as usize + 2048 - (bytes[index - 1] as usize) * 8) % 256
}

/// Builds the skip table of the shortened Horspool search and the shift that follows a
/// failed comparison of a window whose last pair hashes like the needle's.
fn build_horspool_table(needle: &[u8]) -> (res: (Vec<u8>, usize))
    requires
        3 <= needle@.len() <= 256,
    ensures
        res.0@.len() == 256,
        forall|h: int| 0 <= h < 256 ==> res.0@[h] == horspool_table(needle@, h),
        res.1 == needle@.len() - 1 - last_with_hash(
            needle@,
            needle@.len() - 1,
            hash_at(needle@, needle@.len() - 1),
        ),
{
    let ne_len = needle.len();
    let m1 = ne_len - 1;
    let mut shift: Vec<u8> = filled_vec(0u8, 256);
    let mut i: usize = 1;
    while i < m1
        invariant
            ne_len == needle@.len(),
            3 <= ne_len <= 256,
            m1 == ne_len - 1,
            1 <= i <= m1,
            shift@.len() == 256,
            forall|h: int| 0 <= h < 256 ==> shift@[h] == last_with_hash(needle@, i as int, h),
        decreases m1 - i,
    {
        let h = hash2(needle, i);
        shift.set(h, i as u8);
        i = i + 1;
    }
    let last = hash2(needle, m1);
    proof {
        lemma_last_with_hash(needle@, m1 as int, last as int);
    }
    let shift1 = m1 - shift[last] as usize;
    shift.set(last, m1 as u8);
    (shift, shift1)
}

/// With `h` the hash of the haystack pair ending at `e`, and no needle pair at an offset in
/// `(lo, hi]` hashing to `h`, no occurrence starts in `[e - hi, e - lo)`.
proof fn lemma_skip_sound(haystack: Seq<u8>, needle: Seq<u8>, e: int, lo: int, hi: int)
    requires
        needle.len() >= 3,
        0 <= lo <= hi <= needle.len() - 1,
        hi <= e < haystack.len(),
        forall|o: int| lo < o <= hi && 1 <= o ==> hash_at(needle, o) != hash_at(haystack, e),
    ensures
        forall|t: int| e - hi <= t < e - lo ==> !matches_at(haystack, needle, t),
{
    assert forall|t: int| e - hi <= t < e - lo implies !matches_at(haystack, needle, t) by {
        if matches_at(haystack, needle, t) {
            let o = e - t;
            lemma_match_bytes(haystack, needle, t, o);
            lemma_match_bytes(haystack, needle, t, o - 1);
            assert(hash_at(needle, o) == hash_at(haystack, e));
        }
    }
}

/// An occurrence agrees with the needle on every sub-range.
proof fn lemma_match_prefix(haystack: Seq<u8>, needle: Seq<u8>, s: int, a: int, b: int)
    requires
        matches_at(haystack, needle, s),
        0 <= a <= b <= needle.len(),
    ensures
        haystack.subrange(s + a, s + b) == needle.subrange(a, b),
{
    assert forall|k: int| 0 <= k < b - a implies #[trigger] haystack.subrange(s + a, s + b)[k]
        == needle.subrange(a, b)[k] by {
        lemma_match_bytes(haystack, needle, s, a + k);
    }
    assert(haystack.subrange(s + a, s + b) =~= needle.subrange(a, b));
}

/// A window whose first `len - 1` bytes agree with the needle, and whose last pair hashes
/// like the needle's last pair, is an occurrence.
proof fn lemma_window_confirmed(haystack: Seq<u8>, needle: Seq<u8>, s: int)
    requires
        needle.len() >= 3,
        0 <= s,
        s + needle.len() <= haystack.len(),
        haystack.subrange(s, s + needle.len() - 1) == needle.subrange(0, needle.len() - 1),
        hash_at(haystack, s + needle.len() - 1) == hash_at(needle, needle.len() - 1),
    ensures
        matches_at(haystack, needle, s),
{
    let m1 = needle.len() - 1;
    assert forall|k: int| 0 <= k < needle.len() implies haystack[s + k] == needle[k] by {
        if k < m1 {
            assert(haystack.subrange(s, s + m1)[k] == needle.subrange(0, m1)[k]);
        } else {
            assert(haystack.subrange(s, s + m1)[m1 - 1] == needle.subrange(0, m1)[m1 - 1]);
            lemma_pair_hash_second_byte(needle[m1 - 1], haystack[s + m1], needle[m1]);
        }
    }
    lemma_agreement_matches(haystack, needle, s);
}

/// First occurrence of a needle of 3 to 256 bytes: a Horspool search that skips on the
/// hash of the last byte pair of each window, with an 8-byte pre-check for long needles.
pub fn modified_horspool(haystack: &[u8], needle: &[u8]) -> (r: Option<usize>)
    requires
        3 <= needle@.len() <= 256,
        needle@.len() <= haystack@.len(),
    ensures
        first_match(haystack@, needle@, r),
{
    let hs_len = haystack.len();
    let ne_len = needle.len();
    let end = hs_len - ne_len;
    let m1 = ne_len - 1;
    let (shift, shift1) = build_horspool_table(needle);
    let mut offset: usize = 0;
    let ghost last_hash = hash_at(needle@, m1 as int);
    let ghost v0 = last_with_hash(needle@, m1 as int, last_hash);
    proof {
        lemma_last_with_hash(needle@, m1 as int, last_hash);
    }
    let mut hs: usize = 0;
    while hs <= end
        invariant
            hs_len == haystack@.len(),
            ne_len == needle@.len(),
            3 <= ne_len <= 256,
            ne_len <= hs_len,
            end == hs_len - ne_len,
            m1 == ne_len - 1,
            shift@.len() == 256,
            forall|h: int| 0 <= h < 256 ==> shift@[h] == horspool_table(needle@, h),
            last_hash == hash_at(needle@, m1 as int),
            v0 == last_with_hash(needle@, m1 as int, last_hash),
            0 <= v0 < m1,
            forall|t: int| v0 < t < m1 && 1 <= t ==> hash_at(needle@, t) != last_hash,
            shift1 == m1 - v0,
            hs <= end + m1,
            m1 >= 15 ==> offset + 8 <= m1,
            forall|q: int| 0 <= q < hs ==> !matches_at(haystack@, needle@, q),
        decreases end + m1 + 1 - hs,
    {
        let mut e = hs + m1;
        let mut tmp = shift[hash2(haystack, e)] as usize;
        while tmp == 0 && e <= end
            invariant
                hs_len == haystack@.len(),
                ne_len == needle@.len(),
                3 <= ne_len <= 256,
                ne_len <= hs_len,
                end == hs_len - ne_len,
                m1 == ne_len - 1,
                shift@.len() == 256,
                forall|h: int| 0 <= h < 256 ==> shift@[h] == horspool_table(needle@, h),
                hs + m1 <= e <= end + m1,
                tmp == horspool_table(needle@, hash_at(haystack@, e as int)),
                forall|q: int| 0 <= q < e - m1 ==> !matches_at(haystack@, needle@, q),
            decreases end + m1 - e,
        {
            proof {
                let h = hash_at(haystack@, e as int);
                lemma_last_with_hash(needle@, m1 as int, h);
                lemma_skip_sound(haystack@, needle@, e as int, 0, m1 as int);
            }
            e = e + m1;
            tmp = shift[hash2(haystack, e)] as usize;
        }
        proof {
            let h = hash_at(haystack@, e as int);
            lemma_last_with_hash(needle@, m1 as int, h);
        }
        if tmp < m1 {
            proof {
                lemma_skip_sound(haystack@, needle@, e as int, tmp as int, m1 as int);
            }
            hs = e - tmp;
        } else {
            let s = e - m1;
            proof {
                assert(hash_at(haystack@, e as int) == last_hash);
                lemma_skip_sound(haystack@, needle@, e as int, v0, m1 - 1);
            }
            let ghost off0 = offset;
            let filter_ok = m1 < 15 || slices_equal(
                &haystack[s + offset..s + offset + 8],
                &needle[offset..offset + 8],
            );
            if filter_ok {
                if slices_equal(&haystack[s..s + m1], &needle[0..m1]) {
                    proof {
                        lemma_window_confirmed(haystack@, needle@, s as int);
                    }
                    return Some(s);
                }
                offset = (if offset >= 8 {
                    offset
                } else {
                    m1
                }).wrapping_sub(8);
            }
            proof {
                if matches_at(haystack@, needle@, s as int) {
                    lemma_match_prefix(haystack@, needle@, s as int, 0, m1 as int);
                    if m1 >= 15 {
                        lemma_match_prefix(haystack@, needle@, s as int, off0 as int, off0 + 8);
                    }
                }
            }
            hs = s + shift1;
        }
    }
    None
}


/// Rank of how common a byte is in ordinary text (lower is rarer).
pub open spec fn frequency_rank(b: u8) -> u16 {
    if b == 0 {
        1
    } else if (1 <= b <= 8) || (14 <= b <= 31) || b == 127 {
        8
    } else if b >= 128 {
        16
    } else if b == 95 || b == 45 || b == 47 || b == 92 || b == 46 || b == 58 {
        80
    } else if 48 <= b <= 57 {
        120
    } else if 65 <= b <= 90 {
        150
    } else if 97 <= b <= 122 {
        if b == 101 || b == 116 || b == 97 || b == 111 || b == 105 || b == 110 || b == 115
            || b == 104 || b == 114 {
            240
        } else {
            190
        }
    } else if b == 32 {
        255
    } else {
        100
    }
}

/// Rank of how common the byte `b` is in ordinary text (lower is rarer).
fn byte_frequency_rank(b: u8) -> (r: u16)
    ensures
        r == frequency_rank(b),
{
    if b == 0 {
        1
    } else if (1 <= b && b <= 8) || (14 <= b && b <= 31) || b == 127 {
        8
    } else if b >= 128 {
        16
    } else if b == 95u8 || b == 45u8 || b == 47u8 || b == 92u8 || b == 46u8 || b == 58u8 {
        80
    } else if 48u8 <= b && b <= 57u8 {
        120
    } else if 65u8 <= b && b <= 90u8 {
        150
    } else if 97u8 <= b && b <= 122u8 {
        if b == 101u8 || b == 116u8 || b == 97u8 || b == 111u8 || b == 105u8 || b == 110u8 || b
            == 115u8 || b == 104u8 || b == 114u8 {
            240
        } else {
            190
        }
    } else if b == 32u8 {
        255
    } else {
        100
    }
}

/// Two offsets of the needle, chosen among its first 256 bytes for their rare bytes, whose
/// bytes a window must hold before it is compared in full.
#[derive(Clone, Copy, Debug)]
pub struct PackedPair {
    pub index1: usize,
    pub index2: usize,
}

impl PackedPair {
    /// Picks the offset of the rarest byte (its first position) and a second, different
    /// offset; `None` for needles shorter than two bytes.
    pub fn new(needle: &[u8]) -> (r: Option<PackedPair>)
        ensures
            r is Some <==> needle@.len() >= 2,
            r matches Some(pair) ==> {
                let limit = if needle@.len() < 256 { needle@.len() as int } else { 256 };
                &&& pair.index1 < limit
                &&& pair.index2 < limit
                &&& pair.index1 != pair.index2
                &&& forall|t: int| 0 <= t < limit ==> frequency_rank(needle@[pair.index1 as int])
                    <= frequency_rank(#[trigger] needle@[t])
                &&& forall|t: int| 0 <= t < pair.index1 ==> frequency_rank(needle@[pair.index1 as int])
                    < frequency_rank(#[trigger] needle@[t])
            },
    {
        if needle.len() < 2 {
            return None;
        }
        let limit = if needle.len() < 256 { needle.len() } else { 256 };
        let mut index1: usize = 0;
        let mut index2: usize = 1;
        if byte_frequency_rank(needle[index2]) < byte_frequency_rank(needle[index1]) {
            index1 = 1;
            index2 = 0;
        }
        let mut i: usize = 2;
        while i < limit
            invariant
                2 <= limit <= needle@.len(),
                limit == (if needle@.len() < 256 { needle@.len() as int } else { 256 }),
                2 <= i <= limit,
                index1 < i,
                index2 < i,
                index1 != index2,
                forall|t: int| 0 <= t < i ==> frequency_rank(needle@[index1 as int])
                    <= frequency_rank(#[trigger] needle@[t]),
                forall|t: int| 0 <= t < index1 ==> frequency_rank(needle@[index1 as int])
                    < frequency_rank(#[trigger] needle@[t]),
            decreases limit - i,
        {
            let b = needle[i];
            let rank = byte_frequency_rank(b);
            let rank1 = byte_frequency_rank(needle[index1]);
            let rank2 = byte_frequency_rank(needle[index2]);
            if rank < rank1 {
                index2 = index1;
                index1 = i;
            } else if rank < rank2 || (needle[index1] == needle[index2] && b != needle[index1]) {
                index2 = i;
            }
            i = i + 1;
        }
        if index1 == index2 {
            None
        } else {
            Some(PackedPair { index1, index2 })
        }
    }
}

/// First occurrence of `needle`, comparing a window in full only when it holds the needle's
/// bytes at both offsets of `pair`.
pub fn memmem_packed_pair(haystack: &[u8], needle: &[u8], pair: PackedPair) -> (r: Option<usize>)
    requires
        pair.index1 < needle@.len(),
        pair.index2 < needle@.len(),
        needle@.len() <= haystack@.len(),
    ensures
        first_match(haystack@, needle@, r),
{
    let ne_len = needle.len();
    let candidate_count = haystack.len() - ne_len + 1;
    let b1 = needle[pair.index1];
    let b2 = needle[pair.index2];
    let mut i: usize = 0;
    while i < candidate_count
        invariant
            ne_len == needle@.len(),
            haystack@.len() <= usize::MAX,
            candidate_count == haystack@.len() - ne_len + 1,
            pair.index1 < ne_len,
            pair.index2 < ne_len,
            b1 == needle@[pair.index1 as int],
            b2 == needle@[pair.index2 as int],
            i <= candidate_count,
            forall|q: int| 0 <= q < i ==> !matches_at(haystack@, needle@, q),
        decreases candidate_count - i,
    {
        if haystack[i + pair.index1] == b1 && haystack[i + pair.index2] == b2 && slices_equal(
            &haystack[i..i + ne_len],
            needle,
        ) {
            return Some(i);
        }
        proof {
            if haystack@[i + pair.index1] != b1 {
                lemma_mismatch_rules_out(haystack@, needle@, i as int, pair.index1 as int);
            } else if haystack@[i + pair.index2] != b2 {
                lemma_mismatch_rules_out(haystack@, needle@, i as int, pair.index2 as int);
            }
        }
        i = i + 1;
    }
    proof {
        assert forall|q: int| !matches_at(haystack@, needle@, q) by {
            if q >= i {
                assert(q + ne_len > haystack@.len());
            }
        }
    }
    None
}


/// The two-way search for needles longer than 256 bytes.
pub struct TwoWayLongNeedle<'a> {
    haystack: &'a [u8],
    needle: &'a [u8],
}

impl<'a> TwoWayLongNeedle<'a> {
    /// The bytes searched in.
    pub closed spec fn haystack_view(&self) -> Seq<u8> {
        self.haystack@
    }

    /// The bytes searched for.
    pub closed spec fn needle_view(&self) -> Seq<u8> {
        self.needle@
    }

    pub fn new(haystack: &'a [u8], needle: &'a [u8]) -> (r: TwoWayLongNeedle<'a>)
        ensures
            r.haystack_view() == haystack@,
            r.needle_view() == needle@,
    {
        TwoWayLongNeedle { haystack, needle }
    }

    /// The critical factorization of the needle: the start of its maximal suffix (under the
    /// byte order or the reversed order, whichever starts later) and the period computed
    /// along with it.
    fn critical_factorization(&self) -> (r: (usize, usize))
        requires
            self.needle@.len() >= 1,
        ensures
            r.0 < self.needle@.len(),
            1 <= r.1,
            r.0 + r.1 <= self.needle@.len(),
    {
        let needle_len = self.needle.len();
        // Maximal suffix under the byte order.
        let mut start: usize = 0;
        let mut j: usize = 0;
        let mut k: usize = 1;
        let mut p: usize = 1;
        while j + k < needle_len
            invariant
                needle_len == self.needle@.len(),
                start <= j < needle_len,
                j + k <= needle_len,
                1 <= k <= p,
                p <= j + 1 - start,
            decreases needle_len - j, needle_len - k,
        {
            let a = self.needle[j + k];
            let b = self.needle[start + k - 1];
            if a < b {
                j = j + k;
                k = 1;
                p = j + 1 - start;
            } else if a == b {
                if k != p {
                    k = k + 1;
                } else {
                    j = j + p;
                    k = 1;
                }
            } else {
                start = j + 1;
                j = j + 1;
                k = 1;
                p = 1;
            }
        }
        let period = p;
        let suffix = start;
        // Maximal suffix under the reversed byte order.
        let mut start_rev: usize = 0;
        j = 0;
        k = 1;
        p = 1;
        while j + k < needle_len
            invariant
                needle_len == self.needle@.len(),
                start_rev <= j < needle_len,
                j + k <= needle_len,
                1 <= k <= p,
                p <= j + 1 - start_rev,
            decreases needle_len - j, needle_len - k,
        {
            let a = self.needle[j + k];
            let b = self.needle[start_rev + k - 1];
            if b < a {
                j = j + k;
                k = 1;
                p = j + 1 - start_rev;
            } else if a == b {
                if k != p {
                    k = k + 1;
                } else {
                    j = j + p;
                    k = 1;
                }
            } else {
                start_rev = j + 1;
                j = j + 1;
                k = 1;
                p = 1;
            }
        }
        if start_rev < suffix {
            (suffix, period)
        } else {
            (start_rev, p)
        }
    }

    /// Two-way search: a bad-byte skip on the window's last byte, then the right half from
    /// the critical position, then the left half; periodic needles remember how much of the
    /// next window is already known to agree.
    pub fn find(&self) -> (r: Option<usize>)
        ensures
            self.needle_view().len() == 0 ==> r == Some(0usize),
            r matches Some(p) ==> p + self.needle_view().len() <= self.haystack_view().len(),
    {
        let haystack_len = self.haystack.len();
        let needle_len = self.needle.len();
        if needle_len == 0 {
            return Some(0);
        }
        if needle_len > haystack_len {
            return None;
        }
        let (suffix, period0) = self.critical_factorization();
        let mut period = period0;
        let mut shift_table: Vec<usize> = filled_vec(needle_len, 256);
        let mut t: usize = 0;
        while t < needle_len
            invariant
                needle_len == self.needle@.len(),
                t <= needle_len,
                shift_table@.len() == 256,
                forall|c: int| 0 <= c < 256 ==> shift_table@[c] <= needle_len,
            decreases needle_len - t,
        {
            let c = self.needle[t];
            shift_table.set(c as usize, needle_len - t - 1);
            t = t + 1;
        }
        let last_start = haystack_len - needle_len;
        let is_periodic = suffix == 0 || slices_equal(
            &self.needle[0..suffix],
            &self.needle[period..period + suffix],
        );
        let mut i: usize;
        let mut j: usize = 0;
        if is_periodic {
            let mut memory: usize = 0;
            while j <= last_start
                invariant
                    haystack_len == self.haystack@.len(),
                    needle_len == self.needle@.len(),
                    1 <= needle_len <= haystack_len,
                    last_start == haystack_len - needle_len,
                    suffix < needle_len,
                    1 <= period,
                    suffix + period <= needle_len,
                    memory < needle_len,
                    memory != 0 ==> memory == needle_len - period,
                    shift_table@.len() == 256,
                    forall|c: int| 0 <= c < 256 ==> shift_table@[c] <= needle_len,
                decreases haystack_len - j,
            {
                let mut shift = shift_table[self.haystack[j + needle_len - 1] as usize];
                if shift > 0 {
                    if memory != 0 && shift < period {
                        shift = needle_len - period;
                    }
                    memory = 0;
                    j = j + shift;
                } else {
                    i = if suffix > memory { suffix } else { memory };
                    while i < needle_len - 1 && self.needle[i] == self.haystack[j + i]
                        invariant
                            haystack_len == self.haystack@.len(),
                            needle_len == self.needle@.len(),
                            j <= last_start,
                            last_start == haystack_len - needle_len,
                            suffix <= i <= needle_len - 1,
                        decreases needle_len - i,
                    {
                        i = i + 1;
                    }
                    if needle_len - 1 <= i {
                        let mut left = suffix;
                        while left > memory && self.needle[left - 1] == self.haystack[j + left - 1]
                            invariant
                                haystack_len == self.haystack@.len(),
                                needle_len == self.needle@.len(),
                                j <= last_start,
                                last_start == haystack_len - needle_len,
                                left <= suffix < needle_len,
                            decreases left,
                        {
                            left = left - 1;
                        }
                        if left <= memory {
                            return Some(j);
                        }
                        j = j + period;
                        memory = needle_len - period;
                    } else {
                        j = j + (i - suffix + 1);
                        memory = 0;
                    }
                }
            }
        } else {
            period = (if suffix > needle_len - suffix {
                suffix
            } else {
                needle_len - suffix
            }) + 1;
            while j <= last_start
                invariant
                    haystack_len == self.haystack@.len(),
                    needle_len == self.needle@.len(),
                    1 <= needle_len <= haystack_len,
                    last_start == haystack_len - needle_len,
                    1 <= suffix < needle_len,
                    1 <= period <= needle_len,
                    shift_table@.len() == 256,
                    forall|c: int| 0 <= c < 256 ==> shift_table@[c] <= needle_len,
                decreases haystack_len - j,
            {
                let shift = shift_table[self.haystack[j + needle_len - 1] as usize];
                if shift > 0 {
                    j = j + shift;
                } else {
                    i = suffix;
                    while i < needle_len - 1 && self.needle[i] == self.haystack[j + i]
                        invariant
                            haystack_len == self.haystack@.len(),
                            needle_len == self.needle@.len(),
                            j <= last_start,
                            last_start == haystack_len - needle_len,
                            suffix <= i <= needle_len - 1,
                        decreases needle_len - i,
                    {
                        i = i + 1;
                    }
                    if needle_len - 1 <= i {
                        let mut left = suffix;
                        while left > 0 && self.needle[left - 1] == self.haystack[j + left - 1]
                            invariant
                                haystack_len == self.haystack@.len(),
                                needle_len == self.needle@.len(),
                                j <= last_start,
                                last_start == haystack_len - needle_len,
                                left <= suffix < needle_len,
                            decreases left,
                        {
                            left = left - 1;
                        }
                        if left == 0 {
                            return Some(j);
                        }
                        j = j + period;
                    } else {
                        j = j + (i - suffix + 1);
                    }
                }
            }
        }
        None
    }
}

/// A single-byte needle occurs exactly where its byte does.
proof fn lemma_single_byte_result(haystack: Seq<u8>, needle: Seq<u8>, r: Option<usize>)
    requires
        needle.len() == 1,
        first_byte_result(haystack, needle[0], r),
    ensures
        first_match(haystack, needle, r),
{
    assert forall|q: int| 0 <= q < haystack.len() implies matches_at(haystack, needle, q) == (
    haystack[q] == needle[0]) by {
        if haystack[q] == needle[0] {
            lemma_agreement_matches(haystack, needle, q);
        } else {
            lemma_mismatch_rules_out(haystack, needle, q, 0);
        }
    }
}

/// First occurrence of `needle` in `haystack`; `None` for an empty needle. One-byte needles
/// use `memchr`, two-byte needles a sliding word, needles of 3 to 256 bytes the shortened
/// Horspool search and longer ones the two-way search.
pub fn memmem(haystack: &[u8], needle: &[u8]) -> (r: Option<usize>)
    ensures
        needle@.len() <= 256 ==> memmem_result(haystack@, needle@, r),
        needle@.len() == 0 ==> r is None,
        r matches Some(p) ==> p + needle@.len() <= haystack@.len(),
{
    let hs_len = haystack.len();
    let ne_len = needle.len();
    if ne_len == 0 {
        return None;
    }
    if ne_len == 1 {
        let r = memchr(haystack, needle[0]);
        proof {
            lemma_single_byte_result(haystack@, needle@, r);
        }
        return r;
    }
    if hs_len < ne_len {
        return None;
    }
    if ne_len == 2 {
        return memmem_len2_safe(haystack, needle);
    }
    if ne_len > 256 {
        return TwoWayLongNeedle::new(haystack, needle).find();
    }
    modified_horspool(haystack, needle)
}


/// The bytes of `parts` laid end to end.
pub open spec fn joined(parts: Seq<&[u8]>) -> Seq<u8>
    decreases parts.len(),
{
    if parts.len() == 0 {
        Seq::empty()
    } else {
        joined(parts.drop_last()) + parts.last()@
    }
}

/// Taking one more part appends that part.
pub proof fn lemma_joined_take_step(parts: Seq<&[u8]>, i: int)
    requires
        0 <= i < parts.len(),
    ensures
        joined(parts.take(i + 1)) == joined(parts.take(i)) + parts[i]@,
{
    assert(parts.take(i + 1).drop_last() =~= parts.take(i));
}

/// The parts before `i` form a prefix of the parts before `j`.
pub proof fn lemma_joined_prefix(parts: Seq<&[u8]>, i: int, j: int)
    requires
        0 <= i <= j <= parts.len(),
    ensures
        joined(parts.take(i)).len() <= joined(parts.take(j)).len(),
        joined(parts.take(j)).subrange(0, joined(parts.take(i)).len() as int) == joined(
            parts.take(i),
        ),
    decreases j - i,
{
    if i < j {
        lemma_joined_prefix(parts, i, j - 1);
        lemma_joined_take_step(parts, j - 1);
        let a = joined(parts.take(i));
        let b = joined(parts.take(j - 1));
        assert((b + parts[j - 1]@).subrange(0, a.len() as int) =~= b.subrange(0, a.len() as int));
    } else {
        assert(joined(parts.take(j)).subrange(0, joined(parts.take(j)).len() as int) =~= joined(
            parts.take(j),
        ));
    }
}

/// All parts together are the parts taken up to the end.
pub proof fn lemma_joined_take_all(parts: Seq<&[u8]>)
    ensures
        joined(parts.take(parts.len() as int)) == joined(parts),
{
    assert(parts.take(parts.len() as int) =~= parts);
}

/// Part `i` sits in the joined bytes right after the parts before it.
pub proof fn lemma_joined_part(parts: Seq<&[u8]>, i: int)
    requires
        0 <= i < parts.len(),
    ensures
        joined(parts.take(i)).len() + parts[i]@.len() <= joined(parts).len(),
        joined(parts).subrange(
            joined(parts.take(i)).len() as int,
            (joined(parts.take(i)).len() + parts[i]@.len()) as int,
        ) == parts[i]@,
        joined(parts).subrange(0, joined(parts.take(i)).len() as int) == joined(parts.take(i)),
{
    lemma_joined_prefix(parts, i + 1, parts.len() as int);
    lemma_joined_prefix(parts, i, parts.len() as int);
    lemma_joined_take_step(parts, i);
    lemma_joined_take_all(parts);
    let a = joined(parts.take(i));
    let b = joined(parts.take(i + 1));
    let all = joined(parts);
    assert(all.subrange(a.len() as int, (a.len() + parts[i]@.len()) as int) =~= b.subrange(
        a.len() as int,
        b.len() as int,
    ));
    assert(b.subrange(a.len() as int, b.len() as int) =~= parts[i]@);
}

/// An occurrence inside a window of a larger sequence is an occurrence in that sequence.
pub proof fn lemma_match_in_window(big: Seq<u8>, off: int, len: int, needle: Seq<u8>, q: int)
    requires
        0 <= off,
        0 <= len,
        off + len <= big.len(),
        0 <= q,
        q + needle.len() <= len,
    ensures
        matches_at(big.subrange(off, off + len), needle, q) == matches_at(big, needle, off + q),
{
    assert(big.subrange(off, off + len).subrange(q, q + needle.len()) =~= big.subrange(
        off + q,
        off + q + needle.len(),
    ));
}

/// The earliest occurrence that starts in `left` and ends in `right`, comparing the two
/// pieces of the needle in place.
fn find_cross_boundary(left: &[u8], right: &[u8], needle: &[u8]) -> (r: Option<usize>)
    ensures
        match r {
            Some(s) => s < left@.len() && s + needle@.len() > left@.len() && matches_at(
                left@ + right@,
                needle@,
                s as int,
            ) && forall|q: int|
                0 <= q < s && q + needle@.len() > left@.len() ==> !matches_at(
                    left@ + right@,
                    needle@,
                    q,
                ),
            None => forall|q: int|
                0 <= q < left@.len() && q + needle@.len() > left@.len() ==> !matches_at(
                    left@ + right@,
                    needle@,
                    q,
                ),
        },
{
    let needle_len = needle.len();
    let ghost joint = left@ + right@;
    if needle_len <= 1 || left.len() == 0 || right.len() == 0 {
        proof {
            assert forall|q: int|
                0 <= q < left@.len() && q + needle@.len() > left@.len() implies !matches_at(
                joint,
                needle@,
                q,
            ) by {
                if matches_at(joint, needle@, q) && needle_len == 1 {
                    assert(q + 1 > left@.len());
                }
            }
        }
        return None;
    }
    let min_left_take = if needle_len > right.len() { needle_len - right.len() } else { 1 };
    let max_left_take = if left.len() < needle_len - 1 { left.len() } else { needle_len - 1 };
    if min_left_take > max_left_take {
        proof {
            assert forall|q: int|
                0 <= q < left@.len() && q + needle@.len() > left@.len() implies !matches_at(
                joint,
                needle@,
                q,
            ) by {}
        }
        return None;
    }
    let mut left_take = max_left_take;
    loop
        invariant
            needle_len == needle@.len(),
            needle_len >= 2,
            1 <= min_left_take <= max_left_take,
            min_left_take == (if needle_len > right@.len() { needle_len - right@.len() } else { 1 }),
            max_left_take == (if left@.len() < needle_len - 1 { left@.len() as int } else {
                needle_len - 1
            }),
            min_left_take <= left_take <= max_left_take,
            joint == left@ + right@,
            forall|q: int|
                0 <= q < left@.len() - left_take && q + needle@.len() > left@.len() ==> !matches_at(
                    joint,
                    needle@,
                    q,
                ),
        decreases left_take,
    {
        let start = left.len() - left_take;
        let right_take = needle_len - left_take;
        let a = slices_equal(&left[start..left.len()], &needle[0..left_take]);
        let b = a && slices_equal(&right[0..right_take], &needle[left_take..needle_len]);
        proof {
            let l = left@.len() as int;
            assert(joint.subrange(start as int, l) =~= left@.subrange(start as int, l));
            assert(joint.subrange(l, l + right_take) =~= right@.subrange(0, right_take as int));
            if matches_at(joint, needle@, start as int) {
                lemma_match_prefix(joint, needle@, start as int, 0, left_take as int);
                lemma_match_prefix(joint, needle@, start as int, left_take as int, needle_len as int);
            }
        }
        if b {
            proof {
                let l = left@.len() as int;
                assert(joint.subrange(start as int, start + needle_len) =~= needle@) by {
                    assert forall|k: int| 0 <= k < needle_len implies #[trigger] joint.subrange(
                        start as int,
                        start + needle_len,
                    )[k] == needle@[k] by {
                        if k < left_take {
                            assert(left@.subrange(start as int, l)[k] == needle@.subrange(
                                0,
                                left_take as int,
                            )[k]);
                        } else {
                            assert(right@.subrange(0, right_take as int)[k - left_take]
                                == needle@.subrange(left_take as int, needle_len as int)[k
                                - left_take]);
                        }
                    }
                }
            }
            return Some(start);
        }
        if left_take == min_left_take {
            proof {
                assert forall|q: int|
                    0 <= q < left@.len() && q + needle@.len() > left@.len() implies !matches_at(
                    joint,
                    needle@,
                    q,
                ) by {
                    if q > left@.len() - left_take {
                        assert(q + needle@.len() > joint.len());
                    }
                }
            }
            return None;
        }
        left_take = left_take - 1;
    }
}

/// No occurrence lies wholly inside `left` before `p`, nor straddles into `right` before `p`.
proof fn lemma_split_search(left: Seq<u8>, right: Seq<u8>, needle: Seq<u8>, q: int)
    requires
        0 <= q,
        q + needle.len() <= left.len(),
    ensures
        matches_at(left, needle, q) == matches_at(left + right, needle, q),
{
    lemma_match_in_window(left + right, 0, left.len() as int, needle, q);
    assert((left + right).subrange(0, left.len() as int) =~= left);
}

proof fn lemma_split_search_right(left: Seq<u8>, right: Seq<u8>, needle: Seq<u8>, q: int)
    requires
        0 <= q,
        q + needle.len() <= right.len(),
    ensures
        matches_at(right, needle, q) == matches_at(left + right, needle, left.len() + q),
{
    lemma_match_in_window(left + right, left.len() as int, right.len() as int, needle, q);
    assert((left + right).subrange(left.len() as int, (left.len() + right.len()) as int) =~= right);
}

/// First occurrence of `needle` in the bytes of `left` followed by those of `right`,
/// without joining them; `None` for an empty needle.
pub fn memmem_two_slices_no_alloc(left: &[u8], right: &[u8], needle: &[u8]) -> (r: Option<usize>)
    requires
        left@.len() + right@.len() <= usize::MAX,
    ensures
        needle@.len() <= 256 ==> memmem_result(left@ + right@, needle@, r),
        needle@.len() == 0 ==> r is None,
        r matches Some(p) ==> p + needle@.len() <= left@.len() + right@.len(),
{
    if needle.len() == 0 {
        return None;
    }
    let ghost joint = left@ + right@;
    let n = needle.len();
    let in_left = memmem(left, needle);
    if let Some(pos) = in_left {
        proof {
            if n <= 256 {
                lemma_split_search(left@, right@, needle@, pos as int);
                assert forall|q: int| 0 <= q < pos implies !matches_at(joint, needle@, q) by {
                    lemma_split_search(left@, right@, needle@, q);
                }
            }
        }
        return Some(pos);
    }
    let cross = find_cross_boundary(left, right, needle);
    if let Some(pos) = cross {
        proof {
            if n <= 256 {
                assert forall|q: int| 0 <= q < pos implies !matches_at(joint, needle@, q) by {
                    if q + n <= left@.len() {
                        lemma_split_search(left@, right@, needle@, q);
                    }
                }
            }
        }
        return Some(pos);
    }
    let in_right = memmem(right, needle);
    match in_right {
        Some(pos) => {
            proof {
                if n <= 256 {
                    lemma_split_search_right(left@, right@, needle@, pos as int);
                    assert forall|q: int| 0 <= q < left@.len() + pos implies !matches_at(
                        joint,
                        needle@,
                        q,
                    ) by {
                        if q + n <= left@.len() {
                            lemma_split_search(left@, right@, needle@, q);
                        } else if q >= left@.len() {
                            lemma_split_search_right(left@, right@, needle@, q - left@.len());
                        }
                    }
                }
            }
            Some(left.len() + pos)
        },
        None => {
            proof {
                if n <= 256 {
                    assert forall|q: int| !matches_at(joint, needle@, q) by {
                        if 0 <= q && q + n <= joint.len() {
                            if q + n <= left@.len() {
                                lemma_split_search(left@, right@, needle@, q);
                            } else if q >= left@.len() {
                                lemma_split_search_right(left@, right@, needle@, q - left@.len());
                            }
                        }
                    }
                }
            }
            None
        },
    }
}


/// Total number of bytes in `parts`.
pub fn parts_total_len(parts: &[&[u8]]) -> (n: usize)
    requires
        joined(parts@).len() <= usize::MAX,
    ensures
        n == joined(parts@).len(),
{
    let mut total: usize = 0;
    let mut i: usize = 0;
    while i < parts.len()
        invariant
            i <= parts@.len(),
            joined(parts@).len() <= usize::MAX,
            total == joined(parts@.take(i as int)).len(),
        decreases parts@.len() - i,
    {
        proof {
            lemma_joined_take_step(parts@, i as int);
            lemma_joined_prefix(parts@, i + 1, parts@.len() as int);
            lemma_joined_take_all(parts@);
        }
        total = total + parts[i].len();
        i = i + 1;
    }
    proof {
        lemma_joined_take_all(parts@);
    }
    total
}

/// The byte at logical position `index` of the parts laid end to end, if there is one.
pub fn small_slices_byte_at(parts: &[&[u8]], index: usize) -> (r: Option<u8>)
    ensures
        r == (if index < joined(parts@).len() { Some(joined(parts@)[index as int]) } else { None }),
{
    let mut rest = index;
    let mut i: usize = 0;
    while i < parts.len()
        invariant
            i <= parts@.len(),
            joined(parts@.take(i as int)).len() + rest == index,
        decreases parts@.len() - i,
    {
        let part = parts[i];
        proof {
            lemma_joined_take_step(parts@, i as int);
            lemma_joined_part(parts@, i as int);
        }
        if rest < part.len() {
            proof {
                let base = joined(parts@.take(i as int)).len() as int;
                assert(joined(parts@).subrange(base, base + part@.len())[rest as int]
                    == joined(parts@)[index as int]);
            }
            return Some(part[rest]);
        }
        rest = rest - part.len();
        i = i + 1;
    }
    proof {
        lemma_joined_take_all(parts@);
    }
    None
}

/// Tries every start position of the parts laid end to end, reading bytes in place.
fn memmem_small_slices_scan(parts: &[&[u8]], needle: &[u8]) -> (r: Option<usize>)
    requires
        joined(parts@).len() <= usize::MAX,
        needle@.len() > 0,
    ensures
        first_match(joined(parts@), needle@, r),
{
    let ghost text = joined(parts@);
    let total_len = parts_total_len(parts);
    if needle.len() > total_len {
        return None;
    }
    let last = total_len - needle.len();
    let mut start: usize = 0;
    while start <= last
        invariant
            text == joined(parts@),
            total_len == text.len(),
            0 < needle@.len() <= total_len,
            last == total_len - needle@.len(),
            forall|q: int| 0 <= q < start ==> !matches_at(text, needle@, q),
        decreases last + 1 - start,
    {
        let mut k: usize = 0;
        let mut agree = true;
        while k < needle.len()
            invariant
                text == joined(parts@),
                total_len == text.len(),
                start <= last,
                last == total_len - needle@.len(),
                k <= needle@.len(),
                agree ==> forall|t: int| 0 <= t < k ==> text[start + t] == needle@[t],
                !agree ==> !matches_at(text, needle@, start as int),
            decreases needle@.len() - k,
        {
            if agree && small_slices_byte_at(parts, start + k) != Some(needle[k]) {
                proof {
                    lemma_mismatch_rules_out(text, needle@, start as int, k as int);
                }
                agree = false;
            }
            k = k + 1;
        }
        if agree {
            proof {
                lemma_agreement_matches(text, needle@, start as int);
            }
            return Some(start);
        }
        start = start + 1;
    }
    None
}

/// First occurrence of `needle` in a few parts laid end to end, without joining them;
/// `None` for an empty needle.
pub fn memmem_small_slices_no_alloc(parts: &[&[u8]], needle: &[u8]) -> (r: Option<usize>)
    requires
        joined(parts@).len() <= usize::MAX,
    ensures
        needle@.len() <= 256 || parts@.len() > 2 ==> memmem_result(joined(parts@), needle@, r),
        needle@.len() == 0 ==> r is None,
        r matches Some(p) ==> p + needle@.len() <= joined(parts@).len(),
{
    if needle.len() == 0 {
        return None;
    }
    if parts.len() == 0 {
        return None;
    }
    if parts.len() == 1 {
        proof {
            assert(parts@.drop_last() =~= Seq::<&[u8]>::empty());
            assert(joined(parts@.drop_last()) == Seq::<u8>::empty());
            assert(joined(parts@) =~= parts@[0]@);
        }
        return memmem(parts[0], needle);
    }
    if parts.len() == 2 {
        proof {
            assert(parts@.drop_last().drop_last() =~= Seq::<&[u8]>::empty());
            assert(joined(parts@.drop_last().drop_last()) == Seq::<u8>::empty());
            assert(parts@.drop_last().last() == parts@[0]);
            assert(joined(parts@.drop_last()) =~= parts@[0]@);
            assert(joined(parts@) =~= parts@[0]@ + parts@[1]@);
        }
        return memmem_two_slices_no_alloc(parts[0], parts[1], needle);
    }
    let r = memmem_small_slices_scan(parts, needle);
    proof {
        if let Some(p) = r {
            assert(matches_at(joined(parts@), needle@, p as int));
        }
    }
    r
}

/// A new tail: the last `keep` bytes of the old tail followed by `chunk`, where the chunk is
/// shorter than `keep`.
fn roll_tail(prev_tail: &Vec<u8>, chunk: &[u8], keep: usize) -> (t: Vec<u8>)
    requires
        chunk@.len() < keep,
    ensures
        t@ == (if prev_tail@.len() + chunk@.len() > keep {
            prev_tail@.subrange(prev_tail@.len() + chunk@.len() - keep, prev_tail@.len() as int)
        } else {
            prev_tail@
        }) + chunk@,
{
    let new_len_over = prev_tail.len() > keep - chunk.len();
    let from = if new_len_over { prev_tail.len() - (keep - chunk.len()) } else { 0 };
    let mut t: Vec<u8> = Vec::new();
    let mut i = from;
    while i < prev_tail.len()
        invariant
            from <= i <= prev_tail@.len(),
            t@ == prev_tail@.subrange(from as int, i as int),
        decreases prev_tail@.len() - i,
    {
        t.push(prev_tail[i]);
        i = i + 1;
    }
    let mut k: usize = 0;
    while k < chunk.len()
        invariant
            k <= chunk@.len(),
            t@ == prev_tail@.subrange(from as int, prev_tail@.len() as int) + chunk@.subrange(
                0,
                k as int,
            ),
        decreases chunk@.len() - k,
    {
        t.push(chunk[k]);
        k = k + 1;
    }
    proof {
        assert(chunk@.subrange(0, chunk@.len() as int) =~= chunk@);
        if !new_len_over {
            assert(prev_tail@.subrange(0, prev_tail@.len() as int) =~= prev_tail@);
        }
    }
    t
}

/// The last `min(keep, base)` bytes of `text`'s first `base` bytes.
pub open spec fn tail_of(text: Seq<u8>, base: int, keep: int) -> Seq<u8> {
    let tl = if keep < base { keep } else { base };
    text.subrange(base - tl, base)
}

/// First occurrence of `needle` in a sequence of chunks laid end to end, keeping only the
/// last `needle.len() - 1` bytes of earlier chunks to find occurrences that straddle chunk
/// boundaries; `None` for an empty needle.
pub fn memmem_chunks(chunks: &[&[u8]], needle: &[u8]) -> (r: Option<usize>)
    requires
        joined(chunks@).len() <= usize::MAX,
    ensures
        needle@.len() <= 256 ==> memmem_result(joined(chunks@), needle@, r),
        needle@.len() == 0 ==> r is None,
        r matches Some(p) ==> p + needle@.len() <= joined(chunks@).len(),
{
    if needle.len() == 0 {
        return None;
    }
    let ghost text = joined(chunks@);
    let n = needle.len();
    let keep = n - 1;
    let mut global_base: usize = 0;
    let mut prev_tail: Vec<u8> = Vec::new();
    let mut ci: usize = 0;
    while ci < chunks.len()
        invariant
            text == joined(chunks@),
            text.len() <= usize::MAX,
            n == needle@.len(),
            n >= 1,
            keep == n - 1,
            ci <= chunks@.len(),
            global_base == joined(chunks@.take(ci as int)).len(),
            global_base <= text.len(),
            text.subrange(0, global_base as int) == joined(chunks@.take(ci as int)),
            prev_tail@ == tail_of(text, global_base as int, keep as int),
            n <= 256 ==> forall|q: int|
                0 <= q && q + n <= global_base ==> !matches_at(text, needle@, q),
        decreases chunks@.len() - ci,
    {
        let chunk = chunks[ci];
        let ghost base = global_base as int;
        proof {
            lemma_joined_part(chunks@, ci as int);
            lemma_joined_take_step(chunks@, ci as int);
            lemma_joined_prefix(chunks@, ci + 1, chunks@.len() as int);
            lemma_joined_take_all(chunks@);
        }
        let head_len = if chunk.len() < keep { chunk.len() } else { keep };
        let ghost tl = prev_tail@.len() as int;
        let ghost window = text.subrange(base - tl, base + head_len);
        if prev_tail.len() != 0 && chunk.len() != 0 {
            let mut boundary: Vec<u8> = Vec::new();
            let mut t: usize = 0;
            while t < prev_tail.len()
                invariant
                    t <= prev_tail@.len(),
                    boundary@ == prev_tail@.subrange(0, t as int),
                decreases prev_tail@.len() - t,
            {
                boundary.push(prev_tail[t]);
                t = t + 1;
            }
            let mut h: usize = 0;
            while h < head_len
                invariant
                    head_len <= chunk@.len(),
                    h <= head_len,
                    boundary@ == prev_tail@ + chunk@.subrange(0, h as int),
                decreases head_len - h,
            {
                boundary.push(chunk[h]);
                h = h + 1;
            }
            proof {
                assert(prev_tail@.subrange(0, prev_tail@.len() as int) =~= prev_tail@);
                assert(boundary@ =~= window) by {
                    assert forall|k: int| 0 <= k < boundary@.len() implies #[trigger] boundary@[k]
                        == window[k] by {
                        if k < tl {
                            assert(text.subrange(0, base)[base - tl + k] == text[base - tl + k]);
                        } else {
                            assert(text.subrange(base, base + chunk@.len())[k - tl] == text[base
                                + k - tl]);
                        }
                    }
                }
            }
            let found = memmem(boundary.as_slice(), needle);
            if let Some(pos) = found {
                proof {
                    lemma_match_in_window(text, base - tl, tl + head_len, needle@, pos as int);
                    if n <= 256 {
                        assert forall|q: int| 0 <= q < base - tl + pos implies !matches_at(
                            text,
                            needle@,
                            q,
                        ) by {
                            if q + n > base {
                                lemma_match_in_window(
                                    text,
                                    base - tl,
                                    tl + head_len,
                                    needle@,
                                    q - (base - tl),
                                );
                            }
                        }
                    }
                }
                return Some(global_base - prev_tail.len() + pos);
            }
        }
        proof {
            // No occurrence straddles the start of this chunk within the first `keep` bytes.
            if n <= 256 {
                assert forall|q: int|
                    0 <= q < base && q + n > base && q + n <= base + head_len implies !matches_at(
                    text,
                    needle@,
                    q,
                ) by {
                    if tl > 0 && chunk@.len() > 0 {
                        lemma_match_in_window(text, base - tl, tl + head_len, needle@, q - (base - tl));
                    }
                }
            }
        }
        let in_chunk = memmem(chunk, needle);
        if let Some(pos) = in_chunk {
            proof {
                lemma_match_in_window(text, base, chunk@.len() as int, needle@, pos as int);
                if n <= 256 {
                    assert forall|q: int| 0 <= q < base + pos implies !matches_at(
                        text,
                        needle@,
                        q,
                    ) by {
                        if q >= base {
                            lemma_match_in_window(text, base, chunk@.len() as int, needle@, q - base);
                        }
                    }
                }
            }
            return Some(global_base + pos);
        }
        proof {
            if n <= 256 {
                assert forall|q: int|
                    0 <= q && q + n <= base + chunk@.len() implies !matches_at(text, needle@, q) by {
                    if q >= base {
                        lemma_match_in_window(text, base, chunk@.len() as int, needle@, q - base);
                    }
                }
            }
        }
        if keep > 0 {
            if chunk.len() >= keep {
                let mut t: Vec<u8> = Vec::new();
                let mut k: usize = chunk.len() - keep;
                while k < chunk.len()
                    invariant
                        keep <= chunk@.len(),
                        chunk@.len() - keep <= k <= chunk@.len(),
                        t@ == chunk@.subrange(chunk@.len() - keep, k as int),
                    decreases chunk@.len() - k,
                {
                    t.push(chunk[k]);
                    k = k + 1;
                }
                prev_tail = t;
            } else if chunk.len() != 0 {
                prev_tail = roll_tail(&prev_tail, chunk, keep);
            }
        }
        global_base = global_base + chunk.len();
        ci = ci + 1;
        proof {
            let nb = global_base as int;
            assert(text.subrange(0, nb) =~= joined(chunks@.take(ci as int))) by {
                assert(joined(chunks@.take(ci as int)) == joined(chunks@.take(ci - 1)) + chunks@[ci
                    - 1]@);
                assert forall|k: int| 0 <= k < nb implies #[trigger] text.subrange(0, nb)[k]
                    == joined(chunks@.take(ci as int))[k] by {
                    if k < base {
                        assert(text.subrange(0, base)[k] == text[k]);
                    } else {
                        assert(text.subrange(base, nb)[k - base] == text[k]);
                    }
                }
            }
            assert(prev_tail@ =~= tail_of(text, nb, keep as int)) by {
                let ntl = if keep < nb { keep as int } else { nb };
                assert forall|k: int| 0 <= k < ntl implies #[trigger] tail_of(text, nb, keep as int)[k]
                    == text[nb - ntl + k] by {}
                if keep == 0 {
                } else if chunk@.len() >= keep {
                    assert forall|k: int| 0 <= k < keep implies #[trigger] prev_tail@[k]
                        == text[nb - keep + k] by {
                        assert(text.subrange(base, nb)[chunk@.len() - keep + k] == text[nb - keep + k]);
                    }
                } else if chunk@.len() == 0 {
                } else {
                    assert forall|k: int| 0 <= k < prev_tail@.len() implies #[trigger] prev_tail@[k]
                        == text[nb - prev_tail@.len() + k] by {
                        if nb - prev_tail@.len() + k < base {
                            assert(text.subrange(0, base)[nb - prev_tail@.len() + k] == text[nb
                                - prev_tail@.len() + k]);
                        } else {
                            assert(text.subrange(base, nb)[nb - prev_tail@.len() + k - base]
                                == text[nb - prev_tail@.len() + k]);
                        }
                    }
                }
            }
        }
    }
    proof {
        lemma_joined_take_all(chunks@);
        if n <= 256 {
            assert forall|q: int| !matches_at(text, needle@, q) by {}
        }
    }
    None
}

} // verus!
