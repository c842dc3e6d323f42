use chappie::fuzzy::fzf_sw::{score_window, FzfV2Matcher};

#[test]
fn matches_fzf_v2_ascii_scores() {
    let mut matcher = FzfV2Matcher::new();

    let cases: &[(&[u8], &[u8], usize, usize, i16, &[usize])] = &[
        (b"fooBarbaz1", b"oBZ", 2, 9, 49, &[2, 3, 8]),
        (b"foo bar baz", b"fbb", 0, 9, 78, &[0, 4, 8]),
        (b"/AutomatorDocument.icns", b"rdoc", 9, 13, 79, &[9, 10, 11, 12]),
        (b"/man1/zshcompctl.1", b"zshc", 6, 10, 109, &[6, 7, 8, 9]),
        (b"/.oh-my-zsh/cache", b"zshc", 8, 13, 102, &[8, 9, 10, 12]),
    ];

    for &(text, pattern, start, end, score, positions) in cases {
        let matched = matcher.find_best(pattern, &[text]).unwrap();
        assert_eq!(
            (matched.start, matched.end, matched.score),
            (start, end, score),
            "{} / {}",
            String::from_utf8_lossy(text),
            String::from_utf8_lossy(pattern)
        );
        assert_eq!(matched.positions, positions);
    }
}

#[test]
fn rejects_case_sensitive_non_match() {
    let mut matcher = FzfV2Matcher::new();
    assert!(matcher
        .find_best_case_sensitive(b"oBZ", &[b"fooBarbaz"])
        .is_none());
}

#[test]
fn supports_cross_slice_input() {
    let mut matcher = FzfV2Matcher::new();
    let parts: &[&[u8]] = &[b"/.oh-", b"my-zsh", b"/cache"];
    let matched = matcher.find_best(b"zshc", parts).unwrap();

    assert_eq!((matched.start, matched.end, matched.score), (8, 13, 102));
    assert_eq!(matched.positions, [8, 9, 10, 12]);
}

#[test]
fn uses_single_and_two_char_fast_paths() {
    let mut matcher = FzfV2Matcher::new();

    let single = matcher.find_best(b"b", &[b"foo bar"]).unwrap();
    assert_eq!((single.start, single.end, single.score), (4, 5, 36));

    let two = matcher.find_best(b"fb", &[b"foobar fb"]).unwrap();
    assert_eq!((two.start, two.end, two.score), (7, 9, 62));
}

#[test]
fn v2_empty_or_longer_pattern_finds_nothing() {
    let mut matcher = FzfV2Matcher::new();
    assert!(matcher.find_best(b"", &[b"abc"]).is_none());
    assert!(matcher.find_best(b"abcd", &[b"abc"]).is_none());
    assert!(matcher.find_best(b"xyz", &[b"abc"]).is_none());
    assert!(matcher.find_best(b"q", &[b"abc"]).is_none());
}

#[test]
fn v2_whole_text_run_at_start() {
    let mut matcher = FzfV2Matcher::new();
    let matched = matcher.find_best(b"abc", &[b"abc"]).unwrap();
    assert_eq!((matched.start, matched.end), (0, 3));
    assert_eq!(matched.positions, [0, 1, 2]);
}

#[test]
fn v2_parts_give_same_result_as_whole() {
    let mut matcher = FzfV2Matcher::new();
    let whole = matcher.find_best(b"rdoc", &[b"/AutomatorDocument.icns"]).unwrap();
    let split = matcher
        .find_best(b"rdoc", &[b"/Automa", b"torDoc", b"ument.icns"])
        .unwrap();
    assert_eq!((whole.start, whole.end, whole.score), (split.start, split.end, split.score));
    assert_eq!(whole.positions, split.positions);
}

#[test]
fn v2_bounds_match_positions_result() {
    let mut matcher = FzfV2Matcher::new();
    let full = matcher.find_best(b"fbb", &[b"foo bar baz"]).unwrap();
    let bounds = matcher.find_best_bounds_prepared(&[b"foo bar baz"], false).unwrap();
    assert_eq!((bounds.start, bounds.end, bounds.score), (full.start, full.end, full.score));
}

#[test]
fn v2_large_case_sensitive_uses_greedy_window() {
    let mut text = vec![b'x'; 60_000];
    text[10] = b'A';
    text[20] = b'B';
    let mut matcher = FzfV2Matcher::new();
    let matched = matcher.find_best_case_sensitive(b"AB", &[&text]).unwrap();
    assert_eq!((matched.start, matched.end), (10, 21));
    assert_eq!(matched.positions, [10, 20]);
    assert_eq!(matched.score, score_window(&[&text], &[10, 20]));
}

#[test]
fn v2_large_case_insensitive_finds_nothing() {
    let text = vec![b'a'; 60_000];
    let mut matcher = FzfV2Matcher::new();
    assert!(matcher.find_best(b"aa", &[&text]).is_none());
}

#[test]
fn score_window_exact_values() {
    // "foo bar": 'b' after a space: 16 + 10 * 2.
    assert_eq!(score_window(&[b"foo bar"], &[4]), 36);
    // 'a' then a gap of one byte then 'c': 16 + 0 + 2 * 0 (first), gap -3, 16 + 0.
    assert_eq!(score_window(&[b"xabc"], &[1, 3]), 16 - 3 + 16);
}

#[test]
fn v2_positions_spell_the_pattern_after_a_long_gap() {
    let mut matcher = FzfV2Matcher::new();
    let mut text = vec![b'a'];
    text.extend(std::iter::repeat(b'.').take(40));
    text.push(b'b');
    text.push(b'c');
    let matched = matcher.find_best(b"abc", &[&text]).unwrap();
    assert_eq!(matched.positions, [0, 41, 42]);
    for (i, &pos) in matched.positions.iter().enumerate() {
        assert_eq!(text[pos], b"abc"[i]);
    }
}

#[test]
fn v2_finds_a_match_exactly_when_the_pattern_is_a_subsequence() {
    let mut matcher = FzfV2Matcher::new();
    assert!(matcher.find_best(b"xyz", &[b"x-y-z"]).is_some());
    assert!(matcher.find_best(b"xzy", &[b"x-y-z"]).is_none());
    assert!(matcher.find_best(b"xy", &[b"yx"]).is_none());
    assert!(matcher.find_best(b"XY", &[b"x..y"]).is_some());
    assert!(matcher.find_best_case_sensitive(b"XY", &[b"x..y"]).is_none());
}
