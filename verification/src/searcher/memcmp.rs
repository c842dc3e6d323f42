use vstd::prelude::*;

verus! {

/// -1, 0 or 1 as `a_len` is below, equal to or above `b_len`.
pub open spec fn length_order(a_len: int, b_len: int) -> int {
    if a_len < b_len {
        -1
    } else if a_len == b_len {
        0
    } else {
        1
    }
}

/// Three-way comparison of `a` and `b` from index `i` on: the difference of the first
/// differing bytes at or after `i`, or the order of the lengths when the common part agrees.
pub open spec fn compare_from(a: Seq<u8>, b: Seq<u8>, i: int) -> int
    decreases (if a.len() < b.len() { a.len() as int } else { b.len() as int }) - i,
{
    let common = if a.len() < b.len() { a.len() as int } else { b.len() as int };
    if i < 0 || i >= common {
        length_order(a.len() as int, b.len() as int)
    } else if a[i] != b[i] {
        a[i] - b[i]
    } else {
        compare_from(a, b, i + 1)
    }
}

/// The value `memcmp` gives for `a` and `b`.
pub open spec fn compare_spec(a: Seq<u8>, b: Seq<u8>) -> int {
    compare_from(a, b, 0)
}

/// The comparison from index `i` is zero exactly when the lengths agree and so do all
/// bytes from `i` on.
pub proof fn lemma_compare_from_zero(a: Seq<u8>, b: Seq<u8>, i: int)
    requires
        0 <= i <= a.len(),
        i <= b.len(),
    ensures
        (compare_from(a, b, i) == 0) <==> (a.len() == b.len() && forall|k: int|
            i <= k < a.len() ==> a[k] == b[k]),
    decreases a.len() - i,
{
    if i < a.len() && i < b.len() {
        lemma_compare_from_zero(a, b, i + 1);
    }
}

/// `memcmp` gives zero exactly for equal byte strings.
pub proof fn lemma_compare_zero_iff_equal(a: Seq<u8>, b: Seq<u8>)
    ensures
        (compare_spec(a, b) == 0) <==> (a == b),
{
    lemma_compare_from_zero(a, b, 0);
    if a.len() == b.len() && forall|k: int| 0 <= k < a.len() ==> a[k] == b[k] {
        assert(a =~= b);
    }
}

/// The sign of `memcmp` flips when the arguments are swapped.
pub proof fn lemma_compare_antisymmetric(a: Seq<u8>, b: Seq<u8>, i: int)
    requires
        0 <= i,
    ensures
        compare_from(a, b, i) == -compare_from(b, a, i),
    decreases (if a.len() < b.len() { a.len() as int } else { b.len() as int }) - i,
{
    let common = if a.len() < b.len() { a.len() as int } else { b.len() as int };
    if i < common && a[i] == b[i] {
        lemma_compare_antisymmetric(a, b, i + 1);
    }
}

/// Agreeing bytes between `i` and `j` do not change the comparison.
pub proof fn lemma_compare_skips_agreeing(a: Seq<u8>, b: Seq<u8>, i: int, j: int)
    requires
        0 <= i <= j <= a.len(),
        j <= b.len(),
        forall|k: int| i <= k < j ==> a[k] == b[k],
    ensures
        compare_from(a, b, i) == compare_from(a, b, j),
    decreases j - i,
{
    if i < j {
        lemma_compare_skips_agreeing(a, b, i + 1, j);
    }
}

/// `x - y` as a signed 32-bit value.
fn byte_difference(x: u8, y: u8) -> (d: i32)
    ensures
        d == x - y,
{
    x as i32 - y as i32
}

/// For slices of equal length: the difference of the first differing bytes at or after
/// `from`, or `None` when all of them agree.
fn first_byte_difference(a: &[u8], b: &[u8], from: usize) -> (r: Option<i32>)
    requires
        a@.len() == b@.len(),
        from <= a@.len(),
    ensures
        match r {
            Some(d) => d != 0 && d == compare_from(a@, b@, from as int),
            None => forall|k: int| from <= k < a@.len() ==> a@[k] == b@[k],
        },
{
    let mut i = from;
    while i < a.len()
        invariant
            a@.len() == b@.len(),
            from <= i <= a@.len(),
            forall|k: int| from <= k < i ==> a@[k] == b@[k],
            compare_from(a@, b@, from as int) == compare_from(a@, b@, i as int),
        decreases a@.len() - i,
    {
        if a[i] != b[i] {
            return Some(byte_difference(a[i], b[i]));
        }
        i = i + 1;
    }
    None
}

/// For slices of equal length: the difference of the first differing bytes, or `None`
/// when the slices are equal.
pub fn cmp_bytes(a: &[u8], b: &[u8]) -> (r: Option<i32>)
    requires
        a@.len() == b@.len(),
    ensures
        match r {
            Some(d) => d != 0 && d == compare_spec(a@, b@),
            None => a@ == b@,
        },
{
    let r = first_byte_difference(a, b, 0);
    proof {
        if r is None {
            assert(a@ =~= b@);
        }
    }
    r
}

/// Comparison of two slices of equal length: zero when equal, else the difference of the
/// first differing bytes.
pub fn _memcmp(a: &[u8], b: &[u8]) -> (r: i32)
    requires
        a@.len() == b@.len(),
    ensures
        r == compare_spec(a@, b@),
{
    compare_same_len(a, b)
}

/// The word-chunked comparison behind `_memcmp`: longer inputs are first checked eight
/// bytes at a time, and only a chunk that differs is scanned byte by byte.
fn compare_same_len(a: &[u8], b: &[u8]) -> (r: i32)
    requires
        a@.len() == b@.len(),
    ensures
        r == compare_spec(a@, b@),
{
    let len = a.len();
    let word: usize = 8;
    if len >= 16 {
        let mut i: usize = 0;
        while i <= len - word
            invariant
                a@.len() == b@.len(),
                len == a@.len(),
                len >= 16,
                word == 8,
                i <= len,
                forall|k: int| 0 <= k < i ==> a@[k] == b@[k],
                compare_from(a@, b@, 0) == compare_from(a@, b@, i as int),
            decreases len - i,
        {
            let mut same = true;
            let mut j: usize = 0;
            while j < word
                invariant
                    a@.len() == b@.len(),
                    len == a@.len(),
                    word == 8,
                    i + word <= len,
                    j <= word,
                    same ==> forall|k: int| i <= k < i + j ==> a@[k] == b@[k],
                decreases word - j,
            {
                if a[i + j] != b[i + j] {
                    same = false;
                }
                j = j + 1;
            }
            if !same {
                match first_byte_difference(a, b, i) {
                    Some(d) => { return d; },
                    None => {
                        proof {
                            lemma_compare_from_zero(a@, b@, i as int);
                        }
                        return 0;
                    },
                }
            }
            proof {
                lemma_compare_skips_agreeing(a@, b@, i as int, (i + word) as int);
            }
            i = i + word;
        }
        match first_byte_difference(a, b, i) {
            Some(d) => d,
            None => {
                proof {
                    lemma_compare_from_zero(a@, b@, i as int);
                }
                0
            },
        }
    } else {
        match first_byte_difference(a, b, 0) {
            Some(d) => d,
            None => {
                proof {
                    lemma_compare_from_zero(a@, b@, 0);
                }
                0
            },
        }
    }
}

/// Lexicographic comparison of two byte strings: the difference of the first differing
/// bytes, or -1, 0, 1 as `a` is shorter than, as long as or longer than `b` when one is a
/// prefix of the other.
pub fn memcmp(a: &[u8], b: &[u8]) -> (r: i32)
    ensures
        r == compare_spec(a@, b@),
{
    let common_len = if a.len() < b.len() { a.len() } else { b.len() };
    let a_common = &a[0..common_len];
    let b_common = &b[0..common_len];
    let diff = _memcmp(a_common, b_common);
    proof {
        lemma_common_prefix_decides(a@, b@, common_len);
    }
    if diff != 0 {
        return diff;
    }
    if a.len() < b.len() {
        -1
    } else if a.len() == b.len() {
        0
    } else {
        1
    }
}

/// The comparison of the common-length prefixes decides the comparison of the whole
/// strings, and when it is zero the order of the lengths does.
proof fn lemma_common_prefix_decides(a: Seq<u8>, b: Seq<u8>, n: usize)
    requires
        n == (if a.len() < b.len() { a.len() as int } else { b.len() as int }),
    ensures
        compare_spec(a.subrange(0, n as int), b.subrange(0, n as int)) != 0 ==> compare_spec(
            a.subrange(0, n as int),
            b.subrange(0, n as int),
        ) == compare_spec(a, b),
        compare_spec(a.subrange(0, n as int), b.subrange(0, n as int)) == 0 ==> compare_spec(a, b)
            == length_order(a.len() as int, b.len() as int),
{
    lemma_common_prefix_compare(a, b, n as int, 0);
    lemma_compare_from_zero(a.subrange(0, n as int), b.subrange(0, n as int), 0);
    if compare_spec(a.subrange(0, n as int), b.subrange(0, n as int)) == 0 {
        assert forall|k: int| 0 <= k < n implies a[k] == b[k] by {
            assert(a.subrange(0, n as int)[k] == b.subrange(0, n as int)[k]);
        }
        lemma_prefix_agrees(a, b, n as int, 0);
    }
}

/// Comparing the common-length prefixes gives the same value as comparing the whole
/// strings, unless the prefixes agree.
proof fn lemma_common_prefix_compare(a: Seq<u8>, b: Seq<u8>, n: int, i: int)
    requires
        n == (if a.len() < b.len() { a.len() as int } else { b.len() as int }),
        0 <= i <= n,
    ensures
        compare_from(a.subrange(0, n), b.subrange(0, n), i) != 0 ==> compare_from(
            a.subrange(0, n),
            b.subrange(0, n),
            i,
        ) == compare_from(a, b, i),
    decreases n - i,
{
    if i < n {
        lemma_common_prefix_compare(a, b, n, i + 1);
    }
}

/// When the common-length prefixes agree, the comparison is the order of the lengths.
proof fn lemma_prefix_agrees(a: Seq<u8>, b: Seq<u8>, n: int, i: int)
    requires
        n == (if a.len() < b.len() { a.len() as int } else { b.len() as int }),
        0 <= i <= n,
        forall|k: int| i <= k < n ==> a[k] == b[k],
    ensures
        compare_from(a, b, i) == length_order(a.len() as int, b.len() as int),
    decreases n - i,
{
    if i < n {
        lemma_prefix_agrees(a, b, n, i + 1);
    }
}

} // verus!
