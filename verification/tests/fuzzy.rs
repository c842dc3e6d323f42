use chappie::fuzzy::{CompiledPattern, FuzzyAlgorithm, FuzzySearch};

#[test]
fn fuzzy_search_uses_v1_filter_by_default() {
    let pattern = CompiledPattern::new(b"fb");
    let mut search = FuzzySearch::new();
    let matches = search
        .begin(FuzzyAlgorithm::V1, &pattern)
        .find_with_positions(&[b"foobar fb"])
        .into_iter()
        .collect::<Vec<_>>();

    assert_eq!(matches.len(), 1);
    assert_eq!((matches[0].start, matches[0].end), (0, 4));
}

#[test]
fn fuzzy_search_exposes_fast_v1_filter() {
    let pattern = CompiledPattern::new(b"fb");
    let mut search = FuzzySearch::new();
    let matches = search
        .begin(FuzzyAlgorithm::V1, &pattern)
        .find_with_positions(&[b"/home/unvdb/foo/bar.rs"])
        .into_iter()
        .collect::<Vec<_>>();

    assert_eq!(matches.len(), 1);
    assert_eq!(
        &b"/home/unvdb/foo/bar.rs"[matches[0].start..matches[0].end],
        b"foo/b"
    );
}

#[test]
fn fuzzy_search_supports_cross_slice_input() {
    let pattern = CompiledPattern::new(b"zshc");
    let mut search = FuzzySearch::new();
    let parts: &[&[u8]] = &[b"/.oh-", b"my-zsh", b"/cache"];
    let matches = search
        .begin(FuzzyAlgorithm::V1, &pattern)
        .find_with_positions(parts)
        .into_iter()
        .collect::<Vec<_>>();

    assert_eq!(matches.len(), 1);
    assert_eq!((matches[0].start, matches[0].end), (8, 13));
}

#[test]
fn fuzzy_search_exposes_precise_v2_scoring() {
    let pattern = CompiledPattern::new(b"zshc");
    let mut search = FuzzySearch::new();
    let matches = search
        .begin(FuzzyAlgorithm::V2, &pattern)
        .find_with_positions(&[b"/.oh-my-zsh/cache"])
        .into_iter()
        .collect::<Vec<_>>();

    assert_eq!(matches.len(), 1);
    assert_eq!(
        (matches[0].start, matches[0].end, matches[0].score),
        (8, 13, 102)
    );
    assert_eq!(matches[0].positions, [8, 9, 10, 12]);
}

#[test]
fn fuzzy_search_v2_uses_smart_case() {
    let mut search = FuzzySearch::new();
    let insensitive = CompiledPattern::new(b"fb");
    let sensitive = CompiledPattern::new(b"FB");

    assert_eq!(
        search
            .begin(FuzzyAlgorithm::V2, &insensitive)
            .find_with_positions(&[b"FooBar"])
            .unwrap()
            .positions,
        [0, 3]
    );
    assert!(search
        .begin(FuzzyAlgorithm::V2, &sensitive)
        .find_with_positions(&[b"foobar"])
        .is_none());
}

#[test]
fn prepared_session_selects_algorithm_and_output_shape() {
    let pattern = CompiledPattern::new(b"fb");
    let mut search = FuzzySearch::new();

    let mut v1 = search.begin(FuzzyAlgorithm::V1, &pattern);
    let bounds = v1.find_bounds(&[b"FooBar"]).unwrap();
    assert_eq!((bounds.start, bounds.end), (0, 4));

    let mut v2 = search.begin(FuzzyAlgorithm::V2, &pattern);
    let matched = v2.find_with_positions(&[b"FooBar"]).unwrap();
    assert_eq!((matched.start, matched.end), (0, 4));
    assert_eq!(matched.positions, [0, 3]);
}

#[test]
fn compiled_pattern_matches_uncompiled_search() {
    let mut search = FuzzySearch::new();
    let compiled = CompiledPattern::new(b"zshc");
    let first = search
        .begin(FuzzyAlgorithm::V2, &compiled)
        .find_bounds(&[b"/.oh-my-zsh/cache"]);
    let second = search
        .begin(FuzzyAlgorithm::V2, &compiled)
        .find_bounds(&[b"/.oh-my-zsh/cache"]);

    assert_eq!(first, second);
}

#[test]
fn session_v2_bounds_without_positions() {
    let pattern = CompiledPattern::new(b"fbb");
    let mut search = FuzzySearch::new();
    let bounds = search
        .begin(FuzzyAlgorithm::V2, &pattern)
        .find_bounds(&[b"foo bar baz"])
        .unwrap();
    assert_eq!((bounds.start, bounds.end, bounds.score), (0, 9, 78));
}
