use chappie::fuzzy::fzf::FzfMatcher;

#[test]
fn matches_ordered_path_subsequence() {
    let mut matcher = FzfMatcher::new();
    let matches = matcher.find_parts(b"fb", &[b"/home/unvdb/foo/bar.rs"]);

    assert_eq!(matches.len(), 1);
    assert_eq!(
        &b"/home/unvdb/foo/bar.rs"[matches[0].start..matches[0].end],
        b"foo/b"
    );
}

#[test]
fn matches_fzf_v1_ascii_scores() {
    let mut matcher = FzfMatcher::new();

    let cases: &[(&[u8], &[u8], usize, usize, i16, &[usize])] = &[
        (b"fooBarbaz1", b"oBZ", 2, 9, 49, &[2, 3, 8]),
        (b"foo bar baz", b"fbb", 0, 9, 78, &[0, 4, 8]),
        (
            b"/AutomatorDocument.icns",
            b"rdoc",
            9,
            13,
            79,
            &[9, 10, 11, 12],
        ),
        (b"/man1/zshcompctl.1", b"zshc", 6, 10, 109, &[6, 7, 8, 9]),
        (b"/.oh-my-zsh/cache", b"zshc", 8, 13, 102, &[8, 9, 10, 12]),
    ];

    for &(text, pattern, start, end, score, positions) in cases {
        let matched = matcher.find_best(pattern, &[text]).unwrap();
        assert_eq!(
            (matched.start, matched.end, matched.score),
            (start, end, score),
            "{} / {}",
            String::from_utf8_lossy(text),
            String::from_utf8_lossy(pattern)
        );
        assert_eq!(matched.positions, positions);
    }
}

#[test]
fn rejects_wrong_order() {
    let mut matcher = FzfMatcher::new();
    let matches = matcher.find_parts(b"abc", &[b"/tmp/c/b/a"]);

    assert!(matches.is_empty());
}

#[test]
fn prefers_path_boundary_over_flat_gap() {
    let mut matcher = FzfMatcher::new();
    let boundary = matcher.find_parts(b"fb", &[b"/tmp/foo/bar.rs"])[0].score;
    let flat = matcher.find_parts(b"fb", &[b"/tmp/fooxxxbar.rs"])[0].score;

    assert!(boundary > flat);
}

#[test]
fn matches_case_insensitive_ascii() {
    let mut matcher = FzfMatcher::new();
    let matches = matcher.find_parts(b"fb", &[b"/tmp/Foo/Bar.rs"]);

    assert_eq!(matches.len(), 1);
    assert_eq!(matches[0].positions, [5, 9]);
}

#[test]
fn supports_cross_slice_without_copy() {
    let mut matcher = FzfMatcher::new();
    let matches = matcher.find_parts(b"abc", &[b"/a", b"/b", b"/c"]);

    assert_eq!(matches.len(), 1);
    assert_eq!(matches[0].start, 1);
    assert_eq!(matches[0].end, 6);
    assert_eq!(matches[0].positions, [1, 3, 5]);
}

#[test]
fn rejects_overly_sparse_path_match() {
    let mut matcher = FzfMatcher::new();
    let path = b"/home/unvdb/cproject/ak-udb-tx-h/src/test/locale/koi8-to-win1251/expected/test-koi8-varchar.sql.out";
    let matches = matcher.find_parts(b"parse", &[path]);

    assert!(matches.is_empty(), "unexpected sparse match: {:?}", matches);
}


#[test]
fn v1_positions_spell_the_pattern() {
    let mut matcher = FzfMatcher::new();
    let text = b"src/fuzzy/fzf_sw.rs";
    let matched = matcher.find_best(b"fzsw", &[text]).unwrap();
    assert_eq!(matched.positions.len(), 4);
    for (i, &pos) in matched.positions.iter().enumerate() {
        assert_eq!(text[pos], b"fzsw"[i]);
    }
}
