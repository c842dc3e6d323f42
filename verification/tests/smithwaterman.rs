use chappie::fuzzy::smithwaterman::{SmithWaterman, MATCH, MAXDIMS, MISMATCH};
use chappie::fuzzy::Match;
use core::str;

fn match_tuples(matches: &[Match]) -> Vec<(i16, usize, usize)> {
    matches.iter().map(|m| (m.score, m.start, m.end)).collect()
}

// ── ASCII exact ──────────────────────────────────────────────────────────

#[test]
fn test_exact_ascii_middle() {
    //let mut cache = vec![0i16; MAXDIMS];
    let mut sw = SmithWaterman::new();
    let text = "say hello world";
    let matches = sw.find(b"hello", text.as_bytes());
    assert_eq!(matches.len(), 1);
    assert_eq!(&text[matches[0].start..matches[0].end], "hello");
    assert_eq!(matches[0].score, MATCH * 5);
}

#[test]
fn test_exact_ascii_at_start() {
    // let mut cache = vec![0i16; MAXDIMS];
    let mut sw = SmithWaterman::new();
    let text = "hello world";
    let matches = sw.find(b"hello", text.as_bytes());
    assert_eq!(matches.len(), 1);
    assert_eq!(matches[0].start, 0);
    assert_eq!(&text[matches[0].start..matches[0].end], "hello");
}

#[test]
fn test_exact_ascii_at_end() {
    //let mut cache = vec![0i16; MAXDIMS];
    let mut sw = SmithWaterman::new();
    let text = "say hello";
    let matches = sw.find("hello".as_bytes(), text.as_bytes());
    assert_eq!(matches.len(), 1);
    assert_eq!(matches[0].end, text.len());
    assert_eq!(&text[matches[0].start..matches[0].end], "hello");
}

#[test]
fn test_exact_ascii_full_text() {
    //let mut cache = vec![0i16; MAXDIMS];
    let mut sw = SmithWaterman::new();
    let text = "hello";
    let matches = sw.find("hello".as_bytes(), text.as_bytes());
    assert_eq!(matches.len(), 1);
    assert_eq!(matches[0].start, 0);
    assert_eq!(matches[0].end, text.len());
    assert_eq!(matches[0].score, MATCH * 5);
}

#[test]
fn test_find_parts_exact_match_across_slice_boundary() {
    //let mut cache = vec![0i16; MAXDIMS];
    let mut sw = SmithWaterman::new();
    let parts: &[&[u8]] = &[b"say he", b"llo world"];

    let matches = sw.find_parts(b"hello", parts);

    assert_eq!(matches.len(), 1);
    assert_eq!(matches[0].start, 4);
    assert_eq!(matches[0].end, 9);
    assert_eq!(matches[0].score, MATCH * 5);
}

#[test]
fn test_find_parts_fuzzy_match_across_slice_boundary() {
    //let mut cache = vec![0i16; MAXDIMS];
    let mut sw = SmithWaterman::new();
    let parts: &[&[u8]] = &[b"abc h", b"xllo xyz"];

    let matches = sw.find_parts(b"hello", parts);

    assert_eq!(matches.len(), 1);
    assert_eq!(matches[0].start, 4);
    assert_eq!(matches[0].end, 9);
    assert_eq!(matches[0].score, 4 * MATCH + MISMATCH);
}

#[test]
fn test_find_parts_keeps_byte_offsets_after_multibyte_parts() {
    //let mut cache = vec![0i16; MAXDIMS];
    let mut sw = SmithWaterman::new();
    let parts: &[&[u8]] = &["中".as_bytes(), "文he".as_bytes(), b"llo"];

    let matches = sw.find_parts(b"hello", parts);

    assert_eq!(matches.len(), 1);
    assert_eq!(matches[0].start, 6);
    assert_eq!(matches[0].end, 11);
}

#[test]
fn test_find_parts_matches_joined_find_for_many_splits() {
    let text = b"prefix hello middle hxllo suffix";
    let pattern = b"hello";

    for split1 in 0..text.len() {
        for split2 in split1..text.len() {
            //let mut joined_cache = vec![0i16; MAXDIMS];
            let mut joined_sw = SmithWaterman::new();
            let joined = joined_sw.find(pattern, text);

            // let mut parts_cache = vec![0i16; MAXDIMS];
            let mut parts_sw = SmithWaterman::new();
            let parts = [&text[..split1], &text[split1..split2], &text[split2..]];
            let split = parts_sw.find_parts(pattern, &parts);

            assert_eq!(match_tuples(&split), match_tuples(&joined));
        }
    }
}

#[test]
fn test_find_parts_defaults_to_prefilter_and_matches_full_on_sparse_text() {
    let pattern = b"abcdefghijklmnop";
    let mut text = vec![b'x'; 512];
    text[460..476].copy_from_slice(b"abcdxfghijklmnop");

    // let mut full_cache = vec![0i16; MAXDIMS];
    let mut full_sw = SmithWaterman::new();
    let full = full_sw.find_parts_full(pattern, &[&text]);

    // let mut prefiltered_cache = vec![0i16; MAXDIMS];
    let mut prefiltered_sw = SmithWaterman::new();
    let prefiltered = prefiltered_sw.find_parts(pattern, &[&text]);

    assert_eq!(match_tuples(&prefiltered), match_tuples(&full));
}

#[test]
fn test_find_parts_prefiltered_default_matches_across_slice_boundary() {
    let pattern = b"hello";
    let parts: &[&[u8]] = &[b"abc h", b"xllo xyz"];

    //let mut cache = vec![0i16; MAXDIMS];
    let mut sw = SmithWaterman::new();
    let matches = sw.find_parts(pattern, parts);

    assert_eq!(matches.len(), 1);
    assert_eq!(matches[0].start, 4);
    assert_eq!(matches[0].end, 9);
    assert_eq!(matches[0].score, 4 * MATCH + MISMATCH);
}

#[test]
fn test_find_parts_prefiltered_default_handles_large_sparse_text() {
    let pattern = b"abcdefghijklmnop";
    let mut text = vec![b'x'; 4096];
    text[3500..3516].copy_from_slice(b"abcdxfghijklmnop");
    let parts = [&text[..1200], &text[1200..3000], &text[3000..]];

    //let mut cache = vec![0i16; MAXDIMS];
    let mut sw = SmithWaterman::new();
    let matches = sw.find_parts(pattern, &parts);

    assert_eq!(matches.len(), 1);
    assert_eq!(matches[0].start, 3500);
    assert_eq!(matches[0].end, 3516);
    assert_eq!(matches[0].score, 15 * MATCH + MISMATCH);
}

#[test]
fn test_find_parts_prefiltered_default_clamps_candidate_window_to_cache() {
    let pattern: Vec<u8> = (0..80).collect();
    let mut text = vec![b'x'; 4096];
    text[2048..2048 + pattern.len()].copy_from_slice(&pattern);

    let mut sw = SmithWaterman::new();
    let matches = sw.find_parts(&pattern, &[&text]);

    assert_eq!(matches.len(), 1);
    assert_eq!(matches[0].start, 2048);
    assert_eq!(matches[0].end, 2048 + pattern.len());
    assert_eq!(matches[0].score, MATCH * pattern.len() as i16);
}

// ── score verification ───────────────────────────────────────────────────

#[test]
fn test_score_one_substitution() {
    //let mut cache = vec![0i16; MAXDIMS];
    let mut sw = SmithWaterman::new();
    // "hxllo" vs "hello": 4 MATCH + 1 MISMATCH = 4*3 + 1*(-2) = 10
    let matches = sw.find("hello".as_bytes(), "hxllo".as_bytes());
    assert_eq!(matches.len(), 1);
    assert_eq!(matches[0].score, 4 * MATCH + MISMATCH); // 10
    assert_eq!(&"hxllo"[matches[0].start..matches[0].end], "hxllo");
}

#[test]
fn test_no_match_two_substitutions() {
    //let mut cache = vec![0i16; MAXDIMS];
    let mut sw = SmithWaterman::new();
    // "hxxlo" vs "hello": 3*3 + 2*(-2) = 5, threshold = 10 → no match
    let matches = sw.find("hello".as_bytes(), "hxxlo".as_bytes());
    assert_eq!(matches.len(), 0);
}

#[test]
fn test_no_match_completely_different() {
    // let mut cache = vec![0i16; MAXDIMS];
    let mut sw = SmithWaterman::new();
    let matches = sw.find("zzzzz".as_bytes(), "abcdefgh".as_bytes());
    assert_eq!(matches.len(), 0);
}

// ── byte offset correctness ──────────────────────────────────────────────

#[test]
fn test_byte_offset_ascii_middle() {
    //let mut cache = vec![0i16; MAXDIMS];
    let mut sw = SmithWaterman::new();
    let text = "abc hello xyz";
    let matches = sw.find("hello".as_bytes(), text.as_bytes());
    assert_eq!(matches.len(), 1);
    assert_eq!(matches[0].start, 4); // "abc " = 4 bytes
    assert_eq!(matches[0].end, 9); // "abc hello" = 9 bytes
    assert_eq!(&text[matches[0].start..matches[0].end], "hello");
}

#[test]
fn test_byte_offset_after_multibyte_chars() {
    let mut cache = vec![0i16; MAXDIMS];
    let mut sw = SmithWaterman::new();
    // "中" = 3 bytes, "文" = 3 bytes → "中文" = 6 bytes before "hello"
    let text = "中文hello";
    let matches = sw.find("hello".as_bytes(), text.as_bytes());
    assert_eq!(matches.len(), 1);
    assert_eq!(matches[0].start, 6);
    assert_eq!(&text[matches[0].start..matches[0].end], "hello");
}

#[test]
fn test_byte_offset_mixed_cjk_ascii() {
    let mut cache = vec![0i16; MAXDIMS];
    let mut sw = SmithWaterman::new();
    let text = "abc端口def";
    let matches = sw.find("端口".as_bytes(), text.as_bytes());
    assert_eq!(matches.len(), 1);
    assert_eq!(matches[0].start, 3); // "abc" = 3 bytes
    assert_eq!(&text[matches[0].start..matches[0].end], "端口");
}

// ── Unicode exact matches ────────────────────────────────────────────────

#[test]
fn test_chinese_exact() {
    let mut cache = vec![0i16; MAXDIMS];
    let mut sw = SmithWaterman::new();
    let text = "检查端口是否启动的函数";
    let matches = sw.find("端口".as_bytes(), text.as_bytes());
    assert_eq!(matches.len(), 1);
    assert_eq!(&text[matches[0].start..matches[0].end], "端口");
}

#[test]
fn test_japanese_exact() {
    let mut cache = vec![0i16; MAXDIMS];
    let mut sw = SmithWaterman::new();
    let text = "こんにちは世界";
    let matches = sw.find("にちは".as_bytes(), text.as_bytes());
    assert_eq!(matches.len(), 1);
    assert_eq!(&text[matches[0].start..matches[0].end], "にちは");
}

#[test]
fn test_korean_exact() {
    let mut cache = vec![0i16; MAXDIMS];
    let mut sw = SmithWaterman::new();
    let text = "안녕하세요 세계";
    let matches = sw.find("하세요".as_bytes(), text.as_bytes());
    assert_eq!(matches.len(), 1);
    assert_eq!(&text[matches[0].start..matches[0].end], "하세요");
}

#[test]
fn test_arabic_exact() {
    let mut cache = vec![0i16; MAXDIMS];
    let mut sw = SmithWaterman::new();
    let text = "السلام عليكم";
    // "لسلام" is a substring starting at char index 1
    let matches = sw.find("لسلام".as_bytes(), text.as_bytes());
    assert_eq!(matches.len(), 1);
    assert_eq!(&text[matches[0].start..matches[0].end], "لسلام");
}

#[test]
fn test_chinese_unicode_score() {
    let mut cache = vec![0i16; MAXDIMS];
    let mut sw = SmithWaterman::new();
    let text = "端口";
    let pattern = "端口";
    let matches = sw.find(pattern.as_bytes(), text.as_bytes());
    assert_eq!(matches.len(), 1);
    assert_eq!(matches[0].score, MATCH * pattern.len() as i16); // byte-length scoring
}

// ── numbers and special characters ──────────────────────────────────────

#[test]
fn test_numbers_exact() {
    let mut cache = vec![0i16; MAXDIMS];
    let mut sw = SmithWaterman::new();
    let text = "abc12345def";
    let matches = sw.find("12345".as_bytes(), text.as_bytes());
    assert_eq!(matches.len(), 1);
    assert_eq!(&text[matches[0].start..matches[0].end], "12345");
}

#[test]
fn test_numbers_fuzzy() {
    let mut cache = vec![0i16; MAXDIMS];
    let mut sw = SmithWaterman::new();
    // "12x45" vs "12345": 4 match + 1 mismatch = 10, threshold = 10
    let text = "abc12345def";
    let matches = sw.find("12x45".as_bytes(), text.as_bytes());
    assert_eq!(matches.len(), 1);
    assert_eq!(&text[matches[0].start..matches[0].end], "12345");
}

// ── case sensitivity ─────────────────────────────────────────────────────

#[test]
fn test_case_sensitive_exact() {
    let mut cache = vec![0i16; MAXDIMS];
    let mut sw = SmithWaterman::new();
    // uppercase "HELLO" should not match lowercase "hello" pattern
    // All 5 chars mismatch: score = 5*(-2) = -10, clamped to 0
    let matches = sw.find("hello".as_bytes(), "HELLO WORLD".as_bytes());
    assert_eq!(matches.len(), 0);
}

#[test]
fn test_case_sensitive_partial() {
    let mut cache = vec![0i16; MAXDIMS];
    let mut sw = SmithWaterman::new();
    // Pattern "hello" vs text containing "Hello": H≠h is clamped to 0 in local alignment,
    // so the alignment starts from 'e'. Score = 4*3 = 12, threshold = 10. Match is "ello".
    let text = "say Hello";
    let matches = sw.find("hello".as_bytes(), text.as_bytes());
    assert_eq!(matches.len(), 1);
    assert_eq!(&text[matches[0].start..matches[0].end], "ello");
}

// ── sorted output ────────────────────────────────────────────────────────

#[test]
fn test_results_sorted_by_start() {
    let mut cache = vec![0i16; MAXDIMS];
    let mut sw = SmithWaterman::new();
    let text = "hello world hello";
    let matches = sw.find("hello".as_bytes(), text.as_bytes());
    assert!(!matches.is_empty());
    for i in 1..matches.len() {
        assert!(matches[i].start >= matches[i - 1].start);
    }
}

// ── cache reuse across calls ─────────────────────────────────────────────

#[test]
fn test_reuse_across_calls() {
    let mut cache = vec![0i16; MAXDIMS];
    let mut sw = SmithWaterman::new();

    let text = "say hello world";
    let m1 = sw.find("hello".as_bytes(), text.as_bytes());
    assert_eq!(&text[m1[0].start..m1[0].end], "hello");

    let m2 = sw.find("world".as_bytes(), text.as_bytes());
    assert_eq!(&text[m2[0].start..m2[0].end], "world");

    let m3 = sw.find("say".as_bytes(), text.as_bytes());
    assert_eq!(&text[m3[0].start..m3[0].end], "say");
}

// ── valid UTF-8 slices for fuzzy Unicode ─────────────────────────────────

#[test]
fn test_fuzzy_chinese_valid_utf8_slice() {
    let mut cache = vec![0i16; MAXDIMS];
    let mut sw = SmithWaterman::new();
    let text = "如果你想从一个字符串中跳过前几个字，并从之后的位跳当前几个字";
    let pattern = "跳去前几行字";
    let matches = sw.find(pattern.as_bytes(), text.as_bytes());
    // Verify all returned slices are valid UTF-8 (no panic on indexing)
    for m in &matches {
        let slice = &text[m.start..m.end];
        assert!(std::str::from_utf8(slice.as_bytes()).is_ok());
    }
}

#[test]
fn test_mixed_unicode_valid_slices() {
    let mut cache = vec![0i16; MAXDIMS];
    let mut sw = SmithWaterman::new();
    let text = "12396874,这是中文文本，包含一些特殊字符：@#%&*()，以及英文文字: Hello World! <>/。阿拉伯文: السلام عليكم。韩文: 안녕하세요。日文: こんにちは。#RustExample";
    let patterns = [
        "Hxllo",
        "لسلام عليك",
        "하세요",
        "にちは",
        "96974",
        "RustUxample",
    ];
    for pattern in patterns {
        let matches = sw.find(pattern.as_bytes(), text.as_bytes());
        for m in &matches {
            let slice = &text[m.start..m.end];
            assert!(
                std::str::from_utf8(slice.as_bytes()).is_ok(),
                "pattern={pattern} produced invalid UTF-8 slice [{}, {}]",
                m.start,
                m.end
            );
        }
    }
}

// ── long text ────────────────────────────────────────────────────────────

#[test]
fn test_long_text_exact() {
    let mut cache = vec![0i16; MAXDIMS];
    let mut sw = SmithWaterman::new();
    let text = "Elasticsearch is a distributed search and analytics engine, scalable data store and vector database optimized for speed and relevance on production-scale workloads.";
    let pattern = "applications"; // not present → should be empty or fuzzy
    let matches = sw.find(pattern.as_bytes(), text.as_bytes());
    // Just verify no panic; slices must be valid if any
    for m in &matches {
        let _ = &text[m.start..m.end];
    }
}

#[test]
fn test_long_text_fuzzy() {
    let mut cache = vec![0i16; MAXDIMS];
    let mut sw = SmithWaterman::new();
    let text = "Elasticsearch is a distributed search and analytics engine, scalable data store and vector database optimized for speed and relevance on production-scale workloads. Elasticsearch is the foundation of Elastics open Stack platform. Search in near real-time over massive datasets, perform vector searches, integrate with generative AI applications, and much more.";
    let pattern = "apelicetions";
    let matches = sw.find(pattern.as_bytes(), text.as_bytes());
    for m in &matches {
        let slice = &text[m.start..m.end];
        assert!(std::str::from_utf8(slice.as_bytes()).is_ok());
    }
}

// ── regression tests ─────────────────────────────────────────────────────

#[test]
fn test_smith_waterman() {
    let mut cache = vec![0i16; MAXDIMS];
    let mut sw = SmithWaterman::new();

    let text = "Elasticsearch is a distributed search and analytics engine, scalable data store and vector database optimized for speed and relevance on production-scale workloads. Elasticsearch is the foundation of Elastics open Stack platform. Search in near real-time over massive datasets, perform vector searches, integrate with generative AI applications, and much more.";
    let pattern = "applications";

    let m = sw.find(pattern.as_bytes(), text.as_bytes());
    for v in m.iter() {
        println!("{:?}", &text[v.start..v.end]);
    }

    let text = "Elasticsearch is a distributed search and analytics engine, scalable data store and vector database optimized for speed and relevance on production-scale workloads. Elasticsearch is the foundation of Elastics open Stack platform. Search in near real-time over massive datasets, perform vector searches, integrate with generative AI applications, and much more.";
    let pattern = "apelicetions";

    let m = sw.find(pattern.as_bytes(), text.as_bytes());
    for v in m.iter() {
        println!(
            "{:?}",
            String::from_utf8_lossy(&text.as_bytes()[v.start..v.end])
        );
    }

    let text = "如果你想从一个字符串中跳过前几个字，并从之后的位跳当前几个字";
    let pattern = "跳去前几行字";
    let m = sw.find(pattern.as_bytes(), text.as_bytes());
    for v in m.iter() {
        println!(
            "{:?}",
            String::from_utf8_lossy(&text.as_bytes()[v.start..v.end])
        );
    }

    let text = "12396874,这是中文文本，包含一些特殊字符：@#%&*()，以及英文文字: Hello World! <>/。阿拉伯文: السلام عليكم。韩文: 안녕하세요。日文: こんにちは。#RustExample";

    let patterns = vec![
        "ec",
        "Hxllo",
        "لسلام عليك",
        "하세요",
        "にちは",
        "[@#%&*()]+",
        "96974",
        "@#?&*",
        "RustUxample",
    ];

    for pattern in patterns {
        let m = sw.find(pattern.as_bytes(), text.as_bytes());
        for v in m.iter() {
            println!(
                "pattern:{},get:{:?}",
                pattern,
                String::from_utf8_lossy(&text.as_bytes()[v.start..v.end])
            );
        }
    }

    let text = "hxllo，abc，htllo";
    let pattern = "hello";

    let m = sw.find(pattern.as_bytes(), text.as_bytes());
    for v in m.iter() {
        println!(
            "{:?}",
            String::from_utf8_lossy(&text.as_bytes()[v.start..v.end])
        );
    }
}

#[test]
fn test_smith_waterman3() {
    let mut cache = vec![0i16; MAXDIMS];
    let mut sw = SmithWaterman::new();

    let text = "hello abc";
    let pattern = "hxlloo";

    let m = sw.find(pattern.as_bytes(), text.as_bytes());
    for v in m.iter() {
        println!(
            "pattern:{},get:{:?}",
            pattern,
            str::from_utf8(&text.as_bytes()[v.start..v.end]).unwrap()
        );
    }
}

#[test]
fn test_smith_waterman2() {
    let mut cache = vec![0i16; MAXDIMS];
    let mut sw = SmithWaterman::new();

    let text = "检查端口是否启动的函数";
    let pattern = "端口";

    let m = sw.find(pattern.as_bytes(), text.as_bytes());
    for v in m.iter() {
        println!(
            "pattern:{},get:{:?}",
            pattern,
            str::from_utf8(&text.as_bytes()[v.start..v.end]).unwrap()
        );
    }
}

