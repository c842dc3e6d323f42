use chappie::fuzzy::bitap::{Bitap, Match};

#[test]
fn test_bitapsearch() {
    let p = "跳去前几行字";
    let t = "如果你想从一个字符串中跳过前几个字并从之后的位置开始截取";
    let actual = Bitap::new(p).fuzzy_search(t, 2);
    println!("{:?}: find({:?}, {:?})", actual, p, t);
}

#[test]
fn test_lev_search() {
    let test_cases = vec![
        ("hello world", "world", 0, Some(6)),
        ("hello world", "worlf", 1, Some(6)),
        ("hello world", "hello wold", 1, Some(0)),
        ("hell world", "hello", 1, Some(0)),
        ("ababcababc", "abc", 0, Some(2)),
        ("hello", "world", 0, None),
        ("abcdef", "abcdef", 0, Some(0)),
        ("abc", "abcdef", 0, None),
        ("hello", "", 0, Some(0)),
        ("", "a", 0, None),
    ];

    for (text, pattern, k, _expected) in test_cases {
        for i in Bitap::new(pattern).fuzzy_search(text, k) {
            println!("text:{},pattern:{},{:?}", text, pattern, i);
        }
    }
}

fn m(distance: usize, end: usize) -> Match {
    Match { distance, end }
}

#[test]
fn bitap_exact_search_finds_every_start() {
    assert_eq!(Bitap::new("abc").search("ababcababc"), vec![2, 7]);
    assert_eq!(Bitap::new("abc").search("xyz"), Vec::<usize>::new());
    assert_eq!(Bitap::new("").search("hello"), vec![1, 2, 3, 4, 5]);
}

#[test]
fn bitap_fuzzy_search_values() {
    assert_eq!(Bitap::new("world").fuzzy_search("hello world", 0), vec![m(0, 10)]);
    assert_eq!(Bitap::new("worlf").fuzzy_search("hello world", 1), vec![m(1, 9), m(1, 10)]);
    assert_eq!(Bitap::new("hello wold").fuzzy_search("hello world", 1), vec![m(1, 10)]);
    assert_eq!(Bitap::new("hello").fuzzy_search("hell world", 1), vec![m(1, 3), m(1, 4)]);
    assert_eq!(Bitap::new("abc").fuzzy_search("ababcababc", 0), vec![m(0, 4), m(0, 9)]);
    assert_eq!(Bitap::new("world").fuzzy_search("hello", 0), vec![]);
    assert_eq!(Bitap::new("abcdef").fuzzy_search("abc", 0), vec![]);
    assert_eq!(Bitap::new("a").fuzzy_search("", 0), vec![]);
}

#[test]
fn bitap_fuzzy_search_wide_characters() {
    let p = "跳去前几行字";
    let t = "如果你想从一个字符串中跳过前几个字并从之后的位置开始截取";
    assert_eq!(Bitap::new(p).fuzzy_search(t, 2), vec![m(2, 16)]);
}

#[test]
fn bitap_distance_capped_by_pattern_length() {
    // Asking for more edits than the pattern has characters behaves as the pattern length.
    assert_eq!(
        Bitap::new("ab").fuzzy_search("xy", 9),
        Bitap::new("ab").fuzzy_search("xy", 2)
    );
}
