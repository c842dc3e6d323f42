use chappie::searcher::memmem::{
    memmem, memmem_chunks, memmem_packed_pair, memmem_small_slices_no_alloc,
    memmem_two_slices_no_alloc, modified_horspool, PackedPair, TwoWayLongNeedle,
};

fn naive_memmem(haystack: &[u8], needle: &[u8]) -> Option<usize> {
    if needle.is_empty() {
        return Some(0);
    }
    if needle.len() > haystack.len() {
        return None;
    }
    haystack
        .windows(needle.len())
        .position(|window| window == needle)
}

fn two_way_find(haystack: &[u8], needle: &[u8]) -> Option<usize> {
    let finder = TwoWayLongNeedle::new(haystack, needle);
    finder.find()
}

fn assert_two_way_eq_naive(haystack: &[u8], needle: &[u8]) {
    assert_eq!(
        two_way_find(haystack, needle),
        naive_memmem(haystack, needle),
        "haystack={haystack:?}, needle={needle:?}",
    );
}

fn assert_modified_horspool_eq_naive(haystack: &[u8], needle: &[u8]) {
    assert_eq!(
        modified_horspool(haystack, needle),
        naive_memmem(haystack, needle),
        "haystack={haystack:?}, needle={needle:?}",
    );
}

fn assert_packed_pair_eq_naive(haystack: &[u8], needle: &[u8]) {
    if needle.len() < 3 || haystack.len() < needle.len() {
        return;
    }
    let pair = PackedPair::new(needle).expect("needle length >= 3 has a valid packed pair");
    assert_eq!(
        memmem_packed_pair(haystack, needle, pair),
        expected_public_memmem(haystack, needle),
        "haystack={haystack:?}, needle={needle:?}",
    );
}

fn assert_packed_pair_avx2_eq_naive(haystack: &[u8], needle: &[u8]) {
    assert!(needle.len() >= 3);
    assert!(haystack.len() >= needle.len());
    let pair = PackedPair::new(needle).expect("needle length >= 3 has a valid packed pair");
    let got = memmem_packed_pair(haystack, needle, pair);
    assert_eq!(
        got,
        naive_memmem(haystack, needle),
        "haystack={haystack:?}, needle={needle:?}, pair={pair:?}",
    );
}

fn expected_public_memmem(haystack: &[u8], needle: &[u8]) -> Option<usize> {
    if needle.is_empty() {
        return None;
    }
    naive_memmem(haystack, needle)
}

fn assert_memmem_eq_naive(haystack: &[u8], needle: &[u8]) {
    assert_eq!(
        memmem(haystack, needle),
        expected_public_memmem(haystack, needle),
        "haystack={haystack:?}, needle={needle:?}",
    );
}

fn assert_memmem_chunks_eq_joined(chunks: &[&[u8]], needle: &[u8]) {
    let joined = chunks
        .iter()
        .flat_map(|chunk| chunk.iter().copied())
        .collect::<Vec<_>>();
    assert_eq!(
        memmem_chunks(chunks, needle),
        expected_public_memmem(&joined, needle),
        "chunks={chunks:?}, needle={needle:?}",
    );
}

fn assert_memmem_small_slices_eq_joined(parts: &[&[u8]], needle: &[u8]) {
    let joined = parts
        .iter()
        .flat_map(|part| part.iter().copied())
        .collect::<Vec<_>>();
    assert_eq!(
        memmem_small_slices_no_alloc(parts, needle),
        expected_public_memmem(&joined, needle),
        "parts={parts:?}, needle={needle:?}",
    );
}

fn assert_memmem_two_slices_eq_joined(left: &[u8], right: &[u8], needle: &[u8]) {
    let joined = left.iter().chain(right.iter()).copied().collect::<Vec<_>>();
    assert_eq!(
        memmem_two_slices_no_alloc(left, right, needle),
        expected_public_memmem(&joined, needle),
        "left={left:?}, right={right:?}, needle={needle:?}",
    );
}

fn generated_bytes(len: usize, seed: u64) -> Vec<u8> {
    let mut x = seed | 1;
    let mut out = Vec::with_capacity(len);
    for _ in 0..len {
        x = x.wrapping_mul(6364136223846793005).wrapping_add(1);
        out.push((x >> 32) as u8);
    }
    out
}

fn generated_nonzero_bytes(len: usize, seed: u64) -> Vec<u8> {
    generated_bytes(len, seed)
        .into_iter()
        .map(|b| (b % 251) + 1)
        .collect()
}

fn all_words(alphabet: &[u8], len: usize) -> Vec<Vec<u8>> {
    if len == 0 {
        return vec![Vec::new()];
    }
    let prev = all_words(alphabet, len - 1);
    let mut out = Vec::with_capacity(prev.len() * alphabet.len());
    for word in prev {
        for &b in alphabet {
            let mut next = word.clone();
            next.push(b);
            out.push(next);
        }
    }
    out
}

#[test]
fn memmem_empty_needle_returns_none_by_current_api() {
    assert_memmem_eq_naive(b"", b"");
    assert_memmem_eq_naive(b"abc", b"");
    assert_memmem_eq_naive(&[0, 1, 2], b"");
}

#[test]
fn memmem_one_byte_needle_uses_memchr_cases() {
    assert_memmem_eq_naive(b"", b"a");
    assert_memmem_eq_naive(b"abc", b"a");
    assert_memmem_eq_naive(b"abc", b"b");
    assert_memmem_eq_naive(b"abc", b"c");
    assert_memmem_eq_naive(b"abc", b"d");
    assert_memmem_eq_naive(&[0, 1, 2, 0xff], &[0]);
    assert_memmem_eq_naive(&[0, 1, 2, 0xff], &[0xff]);
    assert_memmem_eq_naive(&[0, 1, 2, 0xff], &[3]);
}

#[test]
fn memmem_two_byte_needle_covers_start_middle_end_and_absent() {
    assert_memmem_eq_naive(b"ab", b"ab");
    assert_memmem_eq_naive(b"xab", b"ab");
    assert_memmem_eq_naive(b"abx", b"ab");
    assert_memmem_eq_naive(b"xxabxx", b"ab");
    assert_memmem_eq_naive(b"aaaaa", b"aa");
    assert_memmem_eq_naive(b"ababab", b"ba");
    assert_memmem_eq_naive(b"abcdef", b"zz");
    assert_memmem_eq_naive(&[0, 0xff, 0x10, 0xff], &[0xff, 0x10]);
    assert_memmem_eq_naive(&[0, 0xff, 0x10, 0xff], &[0x10, 0x10]);
}

#[test]
fn memmem_short_needles_cover_modified_horspool_basic_cases() {
    assert_memmem_eq_naive(b"abcdef", b"abc");
    assert_memmem_eq_naive(b"abcdef", b"bcd");
    assert_memmem_eq_naive(b"abcdef", b"def");
    assert_memmem_eq_naive(b"abcdef", b"xyz");
    assert_memmem_eq_naive(b"xxabcabc", b"abc");
    assert_memmem_eq_naive(b"abcabcabc", b"abcabc");
    assert_memmem_eq_naive(b"the quick brown fox", b"quick");
    assert_memmem_eq_naive(b"the quick brown fox", b"fox");
    assert_memmem_eq_naive(b"the quick brown fox", b"slow");
}

#[test]
fn packed_pair_memmem_matches_naive_for_basic_cases() {
    assert_packed_pair_eq_naive(b"", b"abc");
    assert_packed_pair_eq_naive(b"abc", b"");
    assert_packed_pair_eq_naive(b"abc", b"a");
    assert_packed_pair_eq_naive(b"abc", b"ab");
    assert_packed_pair_eq_naive(b"abcdef", b"abc");
    assert_packed_pair_eq_naive(b"abcdef", b"bcd");
    assert_packed_pair_eq_naive(b"abcdef", b"def");
    assert_packed_pair_eq_naive(b"abcdef", b"xyz");
    assert_packed_pair_eq_naive(b"xxabcabc", b"abc");
    assert_packed_pair_eq_naive(b"abcabcabc", b"abcabc");
}

#[test]
fn packed_pair_memmem_matches_naive_for_generated_data() {
    for &haystack_len in &[0usize, 1, 2, 3, 7, 15, 31, 32, 33, 64, 127, 256, 511] {
        for &needle_len in &[0usize, 1, 2, 3, 4, 8, 16, 31, 32, 64, 128] {
            if needle_len > haystack_len {
                let haystack = generated_bytes(haystack_len, haystack_len as u64 + 0x9000);
                let needle = generated_bytes(needle_len, needle_len as u64 + 0x9100);
                assert_packed_pair_eq_naive(&haystack, &needle);
                continue;
            }

            for seed in 0..4u64 {
                let mut haystack = generated_bytes(haystack_len, seed + 0x9200);
                let needle = if needle_len > 0 && seed % 2 == 0 {
                    let start = (seed as usize * 17 + haystack_len / 3)
                        % (haystack_len - needle_len + 1);
                    haystack[start..start + needle_len].to_vec()
                } else {
                    let mut needle = generated_bytes(needle_len, seed + 0x9300);
                    if needle_len > 2 && !haystack.is_empty() {
                        needle[needle_len - 1] = 0;
                        haystack.iter_mut().for_each(|b| *b = (*b % 251) + 1);
                    }
                    needle
                };

                assert_packed_pair_eq_naive(&haystack, &needle);
            }
        }
    }
}

#[test]
fn packed_pair_avx2_matches_naive_for_basic_positions() {
    assert_packed_pair_avx2_eq_naive(b"abcdef", b"abc");
    assert_packed_pair_avx2_eq_naive(b"abcdef", b"bcd");
    assert_packed_pair_avx2_eq_naive(b"abcdef", b"def");
    assert_packed_pair_avx2_eq_naive(b"abcdef", b"xyz");
    assert_packed_pair_avx2_eq_naive(b"xxabcabc", b"abc");
    assert_packed_pair_avx2_eq_naive(b"abcabcabc", b"abcabc");
    assert_packed_pair_avx2_eq_naive(b"aaaaa", b"aaa");
    assert_packed_pair_avx2_eq_naive(b"abababab", b"baba");
}

#[test]
fn packed_pair_avx2_matches_naive_for_vector_boundaries() {
    for &needle_len in &[3usize, 4, 8, 16, 31, 32, 33, 64] {
        for &candidate_count in &[1usize, 2, 31, 32, 33, 63, 64, 65, 127] {
            let haystack_len = needle_len + candidate_count - 1;
            let mut haystack =
                generated_nonzero_bytes(haystack_len, needle_len as u64 + 0x7100);
            let mut needle = generated_nonzero_bytes(needle_len, needle_len as u64 + 0x7200);
            needle[needle_len - 1] = 0;

            assert_packed_pair_avx2_eq_naive(&haystack, &needle);

            let expected = haystack_len - needle_len;
            haystack[expected..].copy_from_slice(&needle);
            assert_packed_pair_avx2_eq_naive(&haystack, &needle);
        }
    }
}

#[test]
fn packed_pair_avx2_matches_naive_for_binary_and_generated_data() {
    let binary = [
        0x00, 0xff, 0x10, 0x20, 0x00, 0xff, 0x10, 0x21, 0x80, 0x00, 0xff,
    ];
    assert_packed_pair_avx2_eq_naive(&binary, &[0x00, 0xff, 0x10]);
    assert_packed_pair_avx2_eq_naive(&binary, &[0x00, 0xff, 0x10, 0x21]);
    assert_packed_pair_avx2_eq_naive(&binary, &[0x80, 0x00, 0xff]);

    for &haystack_len in &[64usize, 127, 256, 511, 1024] {
        for &needle_len in &[3usize, 5, 17, 32, 64, 128] {
            if needle_len > haystack_len {
                continue;
            }

            for seed in 0..4u64 {
                let mut haystack = generated_bytes(haystack_len, seed + 0x7300);
                let needle = if seed % 2 == 0 {
                    let start = (seed as usize * 29 + haystack_len / 4)
                        % (haystack_len - needle_len + 1);
                    haystack[start..start + needle_len].to_vec()
                } else {
                    let mut needle = generated_nonzero_bytes(needle_len, seed + 0x7400);
                    needle[needle_len - 1] = 0;
                    haystack.iter_mut().for_each(|b| *b = (*b % 251) + 1);
                    needle
                };

                assert_packed_pair_avx2_eq_naive(&haystack, &needle);
            }
        }
    }
}

#[test]
fn memmem_returns_first_match_for_overlapping_and_repeated_data() {
    assert_memmem_eq_naive(b"aaaaa", b"aaa");
    assert_memmem_eq_naive(b"baaaaa", b"aaa");
    assert_memmem_eq_naive(b"abababab", b"abab");
    assert_memmem_eq_naive(b"abababab", b"baba");
    assert_memmem_eq_naive(b"abcabcabcabcd", b"abcabcd");
    assert_memmem_eq_naive(b"mississippi", b"issi");
    assert_memmem_eq_naive(b"mississippi", b"ssi");
}

#[test]
fn memmem_handles_boundaries_and_exact_lengths() {
    assert_memmem_eq_naive(b"", b"a");
    assert_memmem_eq_naive(b"a", b"a");
    assert_memmem_eq_naive(b"a", b"aa");
    assert_memmem_eq_naive(b"abc", b"abc");
    assert_memmem_eq_naive(b"abc", b"abcd");
    assert_memmem_eq_naive(b"xxabcdef", b"abcdef");
    assert_memmem_eq_naive(b"abcdefxx", b"abcdef");
    assert_memmem_eq_naive(b"xabcdefx", b"abcdef");
}

#[test]
fn memmem_chunks_matches_current_empty_needle_api() {
    assert_memmem_chunks_eq_joined(&[], b"");
    assert_memmem_chunks_eq_joined(&[b"abc"], b"");
    assert_memmem_chunks_eq_joined(&[b"ab", b"cd"], b"");
}

#[test]
fn memmem_chunks_finds_matches_inside_chunks() {
    assert_memmem_chunks_eq_joined(&[b"abcdef"], b"bcd");
    assert_memmem_chunks_eq_joined(&[b"ab", b"cdef"], b"def");
    assert_memmem_chunks_eq_joined(&[b"", b"ab", b"", b"cdef"], b"cd");
    assert_memmem_chunks_eq_joined(&[b"ab", b"", b"cd"], b"zz");
}

#[test]
fn memmem_chunks_finds_matches_across_chunk_boundaries() {
    assert_memmem_chunks_eq_joined(&[b"ab", b"cd"], b"bc");
    assert_memmem_chunks_eq_joined(&[b"abc", b"def"], b"cde");
    assert_memmem_chunks_eq_joined(&[b"xxab", b"cabc"], b"abc");
    assert_memmem_chunks_eq_joined(&[b"hello ", b"wor", b"ld"], b"world");
}

#[test]
fn memmem_chunks_finds_matches_across_many_small_chunks() {
    assert_memmem_chunks_eq_joined(&[b"a", b"b", b"c", b"d"], b"abcd");
    assert_memmem_chunks_eq_joined(&[b"xx", b"a", b"b", b"c", b"d", b"yy"], b"abcd");
    assert_memmem_chunks_eq_joined(&[b"12", b"3", b"45", b"6", b"789"], b"34567");
    assert_memmem_chunks_eq_joined(&[b"a", b"a", b"a", b"a", b"b"], b"aaaab");
}

#[test]
fn memmem_chunks_matches_joined_search_for_generated_splits() {
    for haystack_len in 0..96 {
        let haystack = generated_bytes(haystack_len, haystack_len as u64 + 0xe000);

        for needle_len in 1..=haystack_len.min(32) {
            let needle = if needle_len <= haystack_len && needle_len % 2 == 0 {
                let start = haystack_len.saturating_sub(needle_len) / 2;
                haystack[start..start + needle_len].to_vec()
            } else {
                generated_bytes(needle_len, needle_len as u64 + 0xe100)
            };

            for &split in &[1usize, 2, 3, 5, 8, 13] {
                let chunks = haystack
                    .chunks(split)
                    .chain(std::iter::once(&b""[..]))
                    .collect::<Vec<_>>();
                assert_memmem_chunks_eq_joined(&chunks, &needle);
            }
        }
    }
}

#[test]
fn memmem_small_slices_matches_current_empty_needle_api() {
    assert_memmem_small_slices_eq_joined(&[], b"");
    assert_memmem_small_slices_eq_joined(&[b"abc"], b"");
    assert_memmem_small_slices_eq_joined(&[b"ab", b"cd"], b"");
    assert_memmem_small_slices_eq_joined(&[b"a", b"b", b"c", b"d"], b"");
}

#[test]
fn memmem_small_slices_finds_matches_inside_parts() {
    assert_memmem_small_slices_eq_joined(&[b"abcdef"], b"bcd");
    assert_memmem_small_slices_eq_joined(&[b"ab", b"cdef"], b"def");
    assert_memmem_small_slices_eq_joined(&[b"", b"ab", b"", b"cdef"], b"cd");
    assert_memmem_small_slices_eq_joined(&[b"ab", b"", b"cd"], b"zz");
}

#[test]
fn memmem_small_slices_finds_matches_across_many_parts_without_joining() {
    assert_memmem_small_slices_eq_joined(&[b"ab", b"cd"], b"bc");
    assert_memmem_small_slices_eq_joined(&[b"abc", b"def"], b"cde");
    assert_memmem_small_slices_eq_joined(&[b"hello ", b"wor", b"ld"], b"world");
    assert_memmem_small_slices_eq_joined(&[b"a", b"b", b"c", b"d"], b"abcd");
    assert_memmem_small_slices_eq_joined(&[b"xx", b"a", b"b", b"cdef"], b"abcdef");
    assert_memmem_small_slices_eq_joined(&[b"12", b"3", b"45", b"6789"], b"34567");
}

#[test]
fn memmem_small_slices_returns_earliest_logical_match() {
    assert_eq!(
        memmem_small_slices_no_alloc(&[b"abcxx".as_slice(), b"abc".as_slice()], b"abc"),
        Some(0)
    );
    assert_eq!(
        memmem_small_slices_no_alloc(&[b"xxab".as_slice(), b"cabc".as_slice()], b"abc"),
        Some(2)
    );
    assert_eq!(
        memmem_small_slices_no_alloc(
            &[b"xx".as_slice(), b"ab".as_slice(), b"cabc".as_slice()],
            b"abc"
        ),
        Some(2)
    );
}

#[test]
fn memmem_small_slices_matches_joined_search_for_generated_splits() {
    for &haystack_len in &[0usize, 1, 2, 3, 4, 7, 15, 31, 63, 95] {
        let haystack = generated_bytes(haystack_len, haystack_len as u64 + 0xf200);

        for needle_len in 1..=haystack_len.min(24) {
            let needle = if needle_len % 2 == 0 {
                let start = haystack_len.saturating_sub(needle_len) / 2;
                haystack[start..start + needle_len].to_vec()
            } else {
                generated_bytes(needle_len, needle_len as u64 + 0xf300)
            };

            let splits = [
                (0, 0, 0),
                (0, haystack_len / 2, haystack_len / 2),
                (haystack_len / 3, haystack_len / 3, haystack_len * 2 / 3),
                (haystack_len / 4, haystack_len / 2, haystack_len * 3 / 4),
                (haystack_len, haystack_len, haystack_len),
            ];

            for (a, b, c) in splits {
                let parts = [
                    &haystack[..a],
                    &haystack[a..b],
                    &haystack[b..c],
                    &haystack[c..],
                ];
                assert_memmem_small_slices_eq_joined(&parts, &needle);
            }
        }
    }
}

#[test]
fn memmem_two_slices_matches_current_empty_needle_api() {
    assert_memmem_two_slices_eq_joined(b"", b"", b"");
    assert_memmem_two_slices_eq_joined(b"abc", b"def", b"");
}

#[test]
fn memmem_two_slices_finds_matches_inside_each_slice() {
    assert_memmem_two_slices_eq_joined(b"abcdef", b"xyz", b"bcd");
    assert_memmem_two_slices_eq_joined(b"abc", b"defxyz", b"efx");
    assert_memmem_two_slices_eq_joined(b"", b"abcdef", b"bcd");
    assert_memmem_two_slices_eq_joined(b"abcdef", b"", b"bcd");
}

#[test]
fn memmem_two_slices_finds_matches_across_gap_without_joining() {
    assert_memmem_two_slices_eq_joined(b"ab", b"cd", b"bc");
    assert_memmem_two_slices_eq_joined(b"abc", b"def", b"cde");
    assert_memmem_two_slices_eq_joined(b"hello wor", b"ld !!!", b"world");
    assert_memmem_two_slices_eq_joined(b"xxab", b"cabc", b"abc");
    assert_memmem_two_slices_eq_joined(b"12", b"3456789", b"23456");
}

#[test]
fn memmem_two_slices_returns_earliest_logical_match() {
    assert_eq!(
        memmem_two_slices_no_alloc(b"abcxx", b"abc", b"abc"),
        Some(0)
    );
    assert_eq!(
        memmem_two_slices_no_alloc(b"xxab", b"cabc", b"abc"),
        Some(2)
    );
    assert_eq!(
        memmem_two_slices_no_alloc(b"xx", b"abcabc", b"abc"),
        Some(2)
    );
}

#[test]
fn memmem_two_slices_matches_joined_search_for_generated_splits() {
    for haystack_len in 0..128 {
        let haystack = generated_bytes(haystack_len, haystack_len as u64 + 0xf000);

        for needle_len in 1..=haystack_len.min(48) {
            let needle = if needle_len % 2 == 0 {
                let start = haystack_len.saturating_sub(needle_len) / 2;
                haystack[start..start + needle_len].to_vec()
            } else {
                generated_bytes(needle_len, needle_len as u64 + 0xf100)
            };

            for split in 0..=haystack_len {
                assert_memmem_two_slices_eq_joined(
                    &haystack[..split],
                    &haystack[split..],
                    &needle,
                );
            }
        }
    }
}

#[test]
fn memmem_handles_binary_and_utf8_bytes() {
    let binary = [
        0x00, 0xff, 0x10, 0x20, 0x00, 0xff, 0x10, 0x21, 0x80, 0x00, 0xff,
    ];

    assert_memmem_eq_naive(&binary, &[0x00, 0xff, 0x10]);
    assert_memmem_eq_naive(&binary, &[0x00, 0xff, 0x10, 0x21]);
    assert_memmem_eq_naive(&binary, &[0x80, 0x00, 0xff]);
    assert_memmem_eq_naive(&binary, &[0xff, 0xff]);

    let text = "这是中文文本，包含英文 English，还有 emoji 😀 和日文 こんにちは";
    assert_memmem_eq_naive(text.as_bytes(), "中文".as_bytes());
    assert_memmem_eq_naive(text.as_bytes(), "English".as_bytes());
    assert_memmem_eq_naive(text.as_bytes(), "😀".as_bytes());
    assert_memmem_eq_naive(text.as_bytes(), "こんにちは".as_bytes());
    assert_memmem_eq_naive(text.as_bytes(), "不存在".as_bytes());
}

#[test]
fn memmem_matches_naive_for_all_small_binary_inputs() {
    let alphabet = [0u8, 1, 2];

    for haystack_len in 0..=7 {
        let haystacks = all_words(&alphabet, haystack_len);

        for needle_len in 0..=4 {
            let needles = all_words(&alphabet, needle_len);

            for haystack in &haystacks {
                for needle in &needles {
                    assert_memmem_eq_naive(haystack, needle);
                }
            }
        }
    }
}

#[test]
fn memmem_matches_naive_for_generated_modified_horspool_path() {
    for haystack_len in 0..256 {
        for needle_len in 3..=haystack_len.min(128) {
            for seed in 0..4u64 {
                let haystack = generated_bytes(haystack_len, seed + 0x1111);
                let needle = if seed % 2 == 0 {
                    let start = (seed as usize * 13 + haystack_len / 7)
                        % (haystack_len - needle_len + 1);
                    haystack[start..start + needle_len].to_vec()
                } else {
                    generated_bytes(needle_len, seed + 0x2222)
                };

                assert_memmem_eq_naive(&haystack, &needle);
            }
        }
    }
}

#[test]
fn memmem_matches_naive_for_needle_lengths_around_algorithm_boundaries() {
    for &needle_len in &[1usize, 2, 3, 15, 16, 31, 32, 64, 128, 255, 256, 257, 300] {
        let haystack_len = needle_len + 64;
        let haystack = generated_bytes(haystack_len, needle_len as u64 + 0x3333);

        assert_memmem_eq_naive(&haystack, &haystack[..needle_len]);

        let middle = 17usize;
        assert_memmem_eq_naive(&haystack, &haystack[middle..middle + needle_len]);

        assert_memmem_eq_naive(&haystack, &haystack[haystack_len - needle_len..]);

        let absent = vec![0xa5; needle_len];
        assert_memmem_eq_naive(&haystack, &absent);
    }
}

#[test]
fn memmem_matches_naive_for_generated_two_way_long_needle_path() {
    for &haystack_len in &[260usize, 320, 511, 777] {
        for &needle_len in &[257usize, 258, 300] {
            if needle_len > haystack_len {
                continue;
            }

            for seed in 0..4u64 {
                let haystack = generated_bytes(haystack_len, seed + 0x4444);
                let needle = if seed % 2 == 0 {
                    let start = (seed as usize * 19 + haystack_len / 4)
                        % (haystack_len - needle_len + 1);
                    haystack[start..start + needle_len].to_vec()
                } else {
                    generated_bytes(needle_len, seed + 0x5555)
                };

                assert_memmem_eq_naive(&haystack, &needle);
            }
        }
    }
}

#[test]
fn memmem_two_way_path_handles_periodic_long_needles() {
    let mut haystack = vec![b'x'; 80];
    let mut needle = vec![b'a'; 300];
    needle[299] = b'b';
    haystack.extend_from_slice(&needle);
    haystack.extend_from_slice(&vec![b'y'; 80]);

    assert_memmem_eq_naive(&haystack, &needle);

    let absent = vec![b'a'; 300];
    assert_memmem_eq_naive(&haystack, &absent);
}

#[test]
fn modified_horspool_finds_basic_positions() {
    assert_modified_horspool_eq_naive(b"abcdef", b"abc");
    assert_modified_horspool_eq_naive(b"abcdef", b"bcd");
    assert_modified_horspool_eq_naive(b"abcdef", b"def");
    assert_modified_horspool_eq_naive(b"abcdef", b"xyz");
    assert_modified_horspool_eq_naive(b"xxabcabc", b"abc");
    assert_modified_horspool_eq_naive(b"abcabcabc", b"abcabc");
}

#[test]
fn modified_horspool_matches_naive_search_for_generated_data() {
    for haystack_len in 3..160 {
        for needle_len in 3..=haystack_len.min(64) {
            for seed in 0..4u64 {
                let haystack = generated_bytes(haystack_len, seed + 0x4321);
                let needle = if seed % 2 == 0 {
                    let start = (seed as usize * 11 + haystack_len / 5)
                        % (haystack_len - needle_len + 1);
                    haystack[start..start + needle_len].to_vec()
                } else {
                    generated_bytes(needle_len, seed + 0x8765)
                };

                assert_modified_horspool_eq_naive(&haystack, &needle);
            }
        }
    }
}

#[test]
fn two_way_long_needle_handles_empty_and_bounds() {
    assert_two_way_eq_naive(b"", b"");
    assert_two_way_eq_naive(b"", b"a");
    assert_two_way_eq_naive(b"a", b"");
    assert_two_way_eq_naive(b"abc", b"abcd");
    assert_two_way_eq_naive(b"abc", b"abc");
}

#[test]
fn two_way_long_needle_finds_basic_positions() {
    assert_two_way_eq_naive(b"abcdef", b"a");
    assert_two_way_eq_naive(b"abcdef", b"abc");
    assert_two_way_eq_naive(b"abcdef", b"cd");
    assert_two_way_eq_naive(b"abcdef", b"ef");
    assert_two_way_eq_naive(b"abcdef", b"zz");
    assert_two_way_eq_naive(b"xxabcabc", b"abc");
    assert_two_way_eq_naive(b"abcabcabc", b"abcabc");
}

#[test]
fn two_way_long_needle_handles_periodic_needles() {
    assert_two_way_eq_naive(b"aaaaaaaaab", b"aaaab");
    assert_two_way_eq_naive(b"zzzzababababx", b"ababx");
    assert_two_way_eq_naive(b"abcabcabcabcd", b"abcabcd");
    assert_two_way_eq_naive(b"bbbbbbbbbbbb", b"bbbbbb");
    assert_two_way_eq_naive(b"aaaaaaaaaaaa", b"baaaa");
}

#[test]
fn two_way_long_needle_handles_binary_bytes() {
    let haystack = [
        0x00, 0xff, 0x10, 0x20, 0x00, 0xff, 0x10, 0x21, 0x80, 0x00, 0xff,
    ];

    assert_two_way_eq_naive(&haystack, &[0x00]);
    assert_two_way_eq_naive(&haystack, &[0x00, 0xff, 0x10]);
    assert_two_way_eq_naive(&haystack, &[0x00, 0xff, 0x10, 0x21]);
    assert_two_way_eq_naive(&haystack, &[0x80, 0x00, 0xff]);
    assert_two_way_eq_naive(&haystack, &[0xff, 0xff]);
}

#[test]
fn two_way_long_needle_matches_naive_search_for_generated_data() {
    for haystack_len in 0..96 {
        for needle_len in 0..48 {
            for seed in 0..4u64 {
                let haystack = generated_bytes(haystack_len, seed + 0x1234);
                let needle = if needle_len <= haystack_len && seed % 2 == 0 {
                    let start = if needle_len == 0 {
                        0
                    } else {
                        (seed as usize * 7 + haystack_len / 3) % (haystack_len - needle_len + 1)
                    };
                    haystack[start..start + needle_len].to_vec()
                } else {
                    generated_bytes(needle_len, seed + 0x5678)
                };

                assert_two_way_eq_naive(&haystack, &needle);
            }
        }
    }
}
