use chappie::fuzzy::levenshtein::{levenshtein, min3};

struct TestCase {
    s: &'static str,
    t: String,
    wanted: usize,
}

#[test]
fn test_levenshtein() {
    let test_cases = vec![
        TestCase {
            s: "a",
            t: "a".to_string(),
            wanted: 0,
        },
        TestCase {
            s: "ab",
            t: "ab".to_string(),
            wanted: 0,
        },
        TestCase {
            s: "ab",
            t: "aa".to_string(),
            wanted: 1,
        },
        TestCase {
            s: "ab",
            t: "aaa".to_string(),
            wanted: 2,
        },
        TestCase {
            s: "bbb",
            t: "a".to_string(),
            wanted: 3,
        },
        TestCase {
            s: "kitten",
            t: "sitting".to_string(),
            wanted: 3,
        },
        TestCase {
            s: "ёлка",
            t: "ёлочка".to_string(),
            wanted: 2,
        },
        TestCase {
            s: "ветер",
            t: "ёлочка".to_string(),
            wanted: 6,
        },
        TestCase {
            s: "中国",
            t: "中华人民共和国".to_string(),
            wanted: 5,
        },
        TestCase {
            s: "小日本",
            t: "中华人民共和国".to_string(),
            wanted: 7,
        },
        TestCase {
            s: "小日本",
            t: "中华人民共和国".to_string(),
            wanted: 7,
        },
    ];

    for test in test_cases {
        let distance = levenshtein(test.s, &test.t); // t 的引用传递
        assert_eq!(
            distance, test.wanted,
            "got distance {}, expected {} for '{}' in '{}'",
            distance, test.wanted, test.s, test.t
        );
    }
}

#[test]
fn levenshtein_edges_and_min3() {
    assert_eq!(levenshtein("", ""), 0);
    assert_eq!(levenshtein("", "abc"), 3);
    assert_eq!(levenshtein("abc", ""), 3);
    assert_eq!(levenshtein("flaw", "lawn"), 2);
    assert_eq!(min3(3, 1, 2), 1);
    assert_eq!(min3(5, 5, 5), 5);
}
