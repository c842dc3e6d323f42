use chappie::searcher::boyermoore::{has_prefix_bytes, longest_common_suffix_bytes, BoyerMoore};
use chappie::searcher::memchr::{_memchr, memchr};
use chappie::searcher::memcmp::{_memcmp, cmp_bytes, memcmp};

fn expected_memcmp(a: &[u8], b: &[u8]) -> i32 {
    for (&x, &y) in a.iter().zip(b.iter()) {
        if x != y {
            return x as i32 - y as i32;
        }
    }
    match a.len().cmp(&b.len()) {
        core::cmp::Ordering::Less => -1,
        core::cmp::Ordering::Equal => 0,
        core::cmp::Ordering::Greater => 1,
    }
}

fn assert_memcmp(a: &[u8], b: &[u8]) {
    assert_eq!(memcmp(a, b), expected_memcmp(a, b), "a={a:?}, b={b:?}",);
}

fn assert_memcmp_same_len(a: &[u8], b: &[u8]) {
    assert_eq!(a.len(), b.len());
    assert_eq!(_memcmp(a, b), expected_memcmp(a, b), "a={a:?}, b={b:?}",);
}

#[test]
fn equal_slices_return_zero() {
    assert_memcmp(b"", b"");
    assert_memcmp(b"abc", b"abc");
    assert_memcmp(&[0, 1, 2, 3, 255], &[0, 1, 2, 3, 255]);
}

#[test]
fn first_different_byte_decides_sign_and_difference() {
    assert_eq!(memcmp(b"abc", b"abd"), b'c' as i32 - b'd' as i32);
    assert_eq!(memcmp(b"abd", b"abc"), b'd' as i32 - b'c' as i32);
    assert_eq!(memcmp(&[1, 2, 200], &[1, 2, 100]), 100);
    assert_eq!(memcmp(&[1, 2, 100], &[1, 2, 200]), -100);
}

#[test]
fn nul_bytes_are_compared_as_regular_bytes() {
    assert_memcmp(&[1, 0, 2], &[1, 0, 2]);
    assert_memcmp(&[1, 0, 2], &[1, 0, 3]);
    assert_memcmp(&[1, 0, 255], &[1, 1, 0]);
}

#[test]
fn common_prefix_uses_length_as_tiebreaker() {
    assert_eq!(memcmp(b"abc", b"abcd"), -1);
    assert_eq!(memcmp(b"abcd", b"abc"), 1);
    assert_eq!(memcmp(b"", b"x"), -1);
    assert_eq!(memcmp(b"x", b""), 1);
}

#[test]
fn mismatches_after_word_sized_prefix_are_found() {
    let mut a = vec![0u8; 128];
    let mut b = vec![0u8; 128];
    for mismatch_index in [16usize, 31, 32, 63, 64, 100, 127] {
        a.fill(0);
        b.fill(0);
        a[mismatch_index] = 10;
        b[mismatch_index] = 20;
        assert_memcmp_same_len(&a, &b);

        a[mismatch_index] = 250;
        b[mismatch_index] = 1;
        assert_memcmp_same_len(&a, &b);
    }
}

fn generated(len: usize, seed: u64) -> Vec<u8> {
    let mut x = seed | 1;
    let mut out = Vec::with_capacity(len);
    for _ in 0..len {
        x = x.wrapping_mul(6364136223846793005).wrapping_add(1);
        out.push((x >> 32) as u8);
    }
    out
}

#[test]
fn generated_cases_match_reference_comparator() {
    for a_len in 0..80 {
        for b_len in 0..80 {
            let a = generated(a_len, a_len as u64 * 17 + 3);
            let mut b = generated(b_len, b_len as u64 * 31 + 9);
            let common = a_len.min(b_len);
            for i in 0..common.min(24) {
                b[i] = a[i];
            }
            assert_memcmp(&a, &b);
        }
    }
}

#[test]
fn memcmp_same_len_matches_reference_for_all_mismatch_positions() {
    for len in 0..=256 {
        let a = vec![0u8; len];
        let b = vec![0u8; len];
        assert_memcmp_same_len(&a, &b);
        assert_eq!(cmp_bytes(&a, &b), None);
        for mismatch_index in 0..len {
            let mut a = vec![0u8; len];
            let mut b = vec![0u8; len];
            a[mismatch_index] = 1;
            b[mismatch_index] = 2;
            assert_memcmp_same_len(&a, &b);
            assert_eq!(cmp_bytes(&a, &b), Some(-1));
            a[mismatch_index] = 250;
            b[mismatch_index] = 10;
            assert_memcmp_same_len(&a, &b);
            assert_eq!(cmp_bytes(&a, &b), Some(240));
        }
    }
}

#[test]
fn memcmp_is_antisymmetric_on_examples() {
    let cases: [(&[u8], &[u8]); 4] = [(b"abc", b"abd"), (b"", b"z"), (b"same", b"same"), (&[0, 255], &[0, 1, 2])];
    for (a, b) in cases {
        assert_eq!(memcmp(a, b), -memcmp(b, a));
    }
}

fn expected_memchr(s: &[u8], c: u8) -> Option<usize> {
    s.iter().position(|&b| b == c)
}

#[test]
fn empty_slice_returns_none() {
    assert_eq!(_memchr(b"", b'a'), None);
}

#[test]
fn finds_byte_at_start_middle_and_end() {
    assert_eq!(_memchr(b"hello", b'h'), Some(0));
    assert_eq!(_memchr(b"hello", b'l'), Some(2));
    assert_eq!(_memchr(b"hello", b'o'), Some(4));
}

#[test]
fn returns_first_match() {
    assert_eq!(_memchr(b"banana", b'a'), Some(1));
    assert_eq!(_memchr(b"aaaa", b'a'), Some(0));
}

#[test]
fn returns_none_when_missing() {
    assert_eq!(_memchr(b"hello", b'z'), None);
    assert_eq!(_memchr(&[1, 2, 3, 4], 0), None);
}

#[test]
fn finds_zero_and_high_bytes() {
    assert_eq!(_memchr(&[1, 2, 0, 3], 0), Some(2));
    assert_eq!(_memchr(&[0x10, 0x80, 0xff, 0x7f], 0xff), Some(2));
}

#[test]
fn handles_lengths_around_word_size() {
    let word = core::mem::size_of::<usize>();
    for len in 0..=(word * 3 + 3) {
        for hit in 0..len {
            let mut data = vec![b'a'; len];
            data[hit] = b'x';
            assert_eq!(_memchr(&data, b'x'), Some(hit), "len={len} hit={hit}");
        }
        let data = vec![b'a'; len];
        assert_eq!(_memchr(&data, b'x'), None, "len={len} missing");
    }
}

#[test]
fn handles_unaligned_subslices() {
    let word = core::mem::size_of::<usize>();
    let mut backing = vec![b'a'; word * 4 + 16];
    for offset in 0..word {
        for len in 0..=(word * 2 + 3) {
            let start = offset;
            let end = start + len;
            let slice = &backing[start..end];
            assert_eq!(_memchr(slice, b'x'), None, "offset={offset} len={len} missing");
            if len > 0 {
                let hit = len - 1;
                backing[start + hit] = b'x';
                let slice = &backing[start..end];
                assert_eq!(_memchr(slice, b'x'), Some(hit), "offset={offset} len={len} hit={hit}");
                backing[start + hit] = b'a';
            }
        }
    }
}

#[test]
fn matches_naive_scan_for_many_inputs() {
    let needles = [0, b'a', b'x', 0x7f, 0x80, 0xff];
    for len in 0..257usize {
        let mut data = Vec::with_capacity(len);
        for i in 0..len {
            data.push(((i * 37 + len * 11) & 0xff) as u8);
        }
        for &needle in &needles {
            assert_eq!(_memchr(&data, needle), expected_memchr(&data, needle), "len={len} needle={needle}");
            assert_eq!(memchr(&data, needle), expected_memchr(&data, needle), "len={len} needle={needle}");
        }
    }
}

fn naive_find(text: &[u8], pattern: &[u8]) -> Option<usize> {
    if pattern.is_empty() {
        return Some(0);
    }
    if pattern.len() > text.len() {
        return None;
    }
    text.windows(pattern.len()).position(|window| window == pattern)
}

fn naive_all(text: &[u8], pattern: &[u8]) -> Vec<usize> {
    if pattern.len() > text.len() {
        return Vec::new();
    }
    text.windows(pattern.len())
        .enumerate()
        .filter(|(_, w)| *w == pattern)
        .map(|(i, _)| i)
        .collect()
}

fn assert_find_eq_naive(text: &[u8], pattern: &[u8]) {
    let bm = BoyerMoore::new(pattern);
    assert_eq!(bm.find(text), naive_find(text, pattern), "text={text:?}, pattern={pattern:?}",);
    assert_eq!(bm.search(text), naive_all(text, pattern), "text={text:?}, pattern={pattern:?}",);
}

#[test]
fn find_returns_first_match_for_basic_positions() {
    assert_find_eq_naive(b"abc", b"a");
    assert_find_eq_naive(b"abc", b"abc");
    assert_find_eq_naive(b"xxabc", b"abc");
    assert_find_eq_naive(b"abcxx", b"abc");
    assert_find_eq_naive(b"xxabcxx", b"abc");
    assert_find_eq_naive(b"abcabc", b"abc");
    assert_find_eq_naive(b"aaaaa", b"aa");
}

#[test]
fn find_returns_none_when_pattern_is_absent_or_too_long() {
    assert_find_eq_naive(b"", b"a");
    assert_find_eq_naive(b"abc", b"d");
    assert_find_eq_naive(b"abc", b"abcd");
    assert_find_eq_naive(b"aaaaa", b"b");
    assert_find_eq_naive(b"abababab", b"abba");
}

#[test]
fn find_handles_binary_bytes() {
    let text = [0x00, 0xff, 0x10, 0x20, 0x00, 0xff, 0x10, 0x21, 0x80, 0x00, 0xff];
    assert_find_eq_naive(&text, &[0x00]);
    assert_find_eq_naive(&text, &[0xff, 0x10]);
    assert_find_eq_naive(&text, &[0x00, 0xff, 0x10, 0x21]);
    assert_find_eq_naive(&text, &[0x80, 0x00, 0xff]);
    assert_find_eq_naive(&text, &[0xff, 0xff]);
}

fn generated_bytes(len: usize, seed: u64) -> Vec<u8> {
    generated(len, seed)
}

#[test]
fn find_matches_naive_search_for_generated_data() {
    for text_len in 0..128 {
        for pattern_len in 1..=32 {
            for seed in 0..4u64 {
                let text = generated_bytes(text_len, seed + 0x1234);
                let pattern = if pattern_len <= text_len && seed % 2 == 0 {
                    let start = (seed as usize * 7 + text_len / 3) % (text_len - pattern_len + 1);
                    text[start..start + pattern_len].to_vec()
                } else {
                    generated_bytes(pattern_len, seed + 0x5678)
                };
                assert_find_eq_naive(&text, &pattern);
            }
        }
    }
}

#[test]
#[should_panic(expected = "Pattern must not be empty")]
fn new_rejects_empty_pattern() {
    let _ = BoyerMoore::try_new(b"").expect("Pattern must not be empty");
}

#[test]
fn boyermoore_test_longest_common_suffix() {
    let i = longest_common_suffix_bytes("ababc".as_bytes(), "babc".as_bytes());
    println!("{}", i);
    assert_eq!(i, 4);
    assert_eq!(chappie::fuzzy::boyermoore::longest_common_suffix_bytes("ababc".as_bytes(), "babc".as_bytes()), 4);
    assert!(has_prefix_bytes(b"abcd", b"ab"));
    assert!(!has_prefix_bytes(b"ab", b"abc"));
}

#[test]
fn boyermoore_test_boyermoore() {
    let bm = BoyerMoore::new("abc".as_bytes());
    let i: Vec<usize> = bm.search("abcadceagedcabcge".as_bytes());
    println!("{:?}", i);
    assert_eq!(i, vec![0, 12]);
    let fbm = chappie::fuzzy::boyermoore::BoyerMoore::new("abc");
    let j: Vec<usize> = fbm.find("abcadceagedcabcge");
    assert_eq!(j, vec![0, 12]);
}

const MIXED_TEXT: &str = "12396874,这是中文文本，包含一些特殊字符：@#%&*()，以及英文文字: Hello World! <>/。阿拉伯文: السلام عليكم。英文,韩文: 안녕하세요。日文: こんにちは。#RustExample 英文";

#[test]
fn boyermoore_test_boyermoore2() {
    let pattern = "英文";
    let bm = BoyerMoore::new(pattern.as_bytes());
    let text = MIXED_TEXT;
    for i in bm.find(text.as_bytes()) {
        println!("{},{:?}", i, String::from_utf8_lossy(&text.as_bytes()[i..i + pattern.as_bytes().len()]));
        assert_eq!(&text.as_bytes()[i..i + pattern.len()], pattern.as_bytes());
    }
    let fbm = chappie::fuzzy::boyermoore::BoyerMoore::new(pattern);
    let all = fbm.find(text);
    assert_eq!(all, naive_all(text.as_bytes(), pattern.as_bytes()));
    for i in all {
        println!("{},{:?}", i, String::from_utf8_lossy(&text.as_bytes()[i..i + pattern.as_bytes().len()]));
    }
}

#[test]
fn test_boyermoore_stream() {
    let pattern = "英文";
    let bm = BoyerMoore::new(pattern.as_bytes());
    let text = MIXED_TEXT;
    let found = bm.stream(text.as_bytes());
    assert!(!found.is_empty());
    for i in found {
        println!("{},{:?}", i, String::from_utf8_lossy(&text.as_bytes()[i..i + pattern.as_bytes().len()]));
        assert_eq!(&text.as_bytes()[i..i + pattern.len()], pattern.as_bytes());
    }
}
