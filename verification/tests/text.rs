use chappie::text::{warp_str, SimpleTextEngine};

#[test]
fn test_string() {
    let mut eg = SimpleTextEngine::new("", 3, 3);

    let a = "12345\n22345\n32345\n";
    eg.push_str(a);
    let num = eg.get_line_count();
    println!("{}", num);

    let num = eg.get_line_count();
    println!("{}", num);
    let b = "42345\n52345\n62399\n";
    eg.push_str(b);
    let num = eg.get_line_count();
    println!("{}", num);

    let a = "12345\n22345\n32345\n";
    eg.push_str(a);
    let num = eg.get_line_count();
    println!("{}", num);

    let (line, _) = eg.get_line(8, "", false);
    println!("{:?}", line.unwrap());

    let (line, _) = eg.get_line(11, "", false);
    println!("{:?}", line.unwrap());
}

#[test]
fn text_engine_counts_and_pages() {
    let mut eg = SimpleTextEngine::new("", 3, 3);
    let a = "12345\n22345\n32345\n";
    let b = "42345\n52345\n62399\n";
    eg.push_str(a);
    assert_eq!(eg.get_line_count(), 7);
    assert_eq!(eg.get_line_count(), 7);
    eg.push_str(b);
    assert_eq!(eg.get_line_count(), 13);
    eg.push_str(a);
    assert_eq!(eg.get_line_count(), 19);
    assert_eq!(eg.get_max_scroll_num(), Some(16));

    let (line, meta) = eg.get_line(8, "", false);
    assert_eq!(line.unwrap(), vec!["45\n", "523", "45\n"]);
    let nums: Vec<usize> = meta.iter().map(|m| m.get_line_num()).collect();
    assert_eq!(nums, vec![8, 9, 10]);

    let (line, meta) = eg.get_line(11, "", false);
    assert_eq!(line.unwrap(), vec!["623", "99\n", "123"]);
    let nums: Vec<usize> = meta.iter().map(|m| m.get_line_num()).collect();
    assert_eq!(nums, vec![11, 12, 13]);
}

#[test]
fn text_engine_past_end_and_range() {
    let mut eg = SimpleTextEngine::new("ab\ncdefgh\n", 2, 4);
    assert_eq!(eg.get_max_scroll_num(), None);
    let (lines, meta) = eg.get_start_end(1, 10);
    assert_eq!(lines.unwrap(), vec!["ab\n", "cdef", "gh\n"]);
    assert_eq!(meta.len(), 3);
    assert_eq!(eg.get_line_count(), 4);
    let (lines, meta) = eg.get_line(5, "", false);
    assert!(lines.is_none());
    assert!(meta.is_empty());
}

#[test]
fn text_engine_pattern_filters_rows() {
    let mut eg = SimpleTextEngine::new("alpha\nbeta\ngamma\n", 10, 20);
    let (lines, meta) = eg.get_line(1, "gm", true);
    assert_eq!(lines.unwrap(), vec!["gamma\n"]);
    assert_eq!(meta[0].get_line_num(), 3);
    assert!(meta[0].get_match().is_some());
}

#[test]
fn warp_str_splits_and_wraps() {
    assert_eq!(warp_str("12345\n22\n", 3), vec!["123", "45\n", "22\n"]);
    assert_eq!(warp_str("abc", 5), vec!["abc"]);
    assert_eq!(warp_str("", 5), Vec::<String>::new());
    // A wide character at the start of a row wider than the row leaves an empty row.
    assert_eq!(warp_str("中", 1), vec!["", "中"]);
}

/// A Rust-like source text of `lines` lines, some of them longer than a row, standing in for
/// a source file on disk.
fn source_text(lines: usize) -> String {
    let mut s = String::new();
    for i in 0..lines {
        match i % 5 {
            0 => s.push_str(&format!("fn item_{}() -> usize {{", i)),
            1 => s.push_str(&format!("    let value = {} * 2; // a comment that runs on well past the width of one row of the pager", i)),
            2 => s.push_str("    value"),
            3 => s.push_str("}"),
            _ => {}
        }
        s.push('\n');
    }
    s
}

#[test]
fn test_next_line1() {
    let text = source_text(1700);
    let mut eg = SimpleTextEngine::new(&text, 37, 75);
    for i in (1..=1800).step_by(37) {
        println!("--------{}---------", i);
        if let (Some(a1), meta) = eg.get_line(i, "", true) {
            assert_eq!(a1.len(), meta.len());
            for v in a1.into_iter() {
                println!("{:?}", v);
            }
        }
        println!("{:?}", eg.get_max_scroll_num())
    }
    println!("--------{}---------", 1666);
    let (a1, meta) = eg.get_line(1666, "", true);
    let a1 = a1.unwrap();
    assert_eq!(a1.len(), meta.len());
    assert_eq!(meta[0].get_line_num(), 1666);
    for v in a1.into_iter() {
        println!("{:?}", v);
    }
    println!("{:?}", eg.get_max_scroll_num());
}

#[test]
fn test_get_last() {
    let text = source_text(1500);
    let mut eg = SimpleTextEngine::new(&text, 37, 10000);
    eg.get_line(100, "", true);
    let last = eg.get_line_count();
    println!("last_line:{}", last);
    assert_eq!(last, 1501);
    if let (Some(a1), _) = eg.get_line(1594 + 1, "", true) {
        for v in a1.into_iter() {
            println!("{:?}", v);
        }
    }
    assert!(eg.get_line(1594 + 1, "", true).0.is_none());
}

#[test]
fn test_get_start_end() {
    let text = source_text(200);
    let mut eg = SimpleTextEngine::new(&text, 37, 75);
    let (a1, meta) = eg.get_start_end(3, 96);
    let a1 = a1.unwrap();
    assert_eq!(a1.len(), 94);
    assert_eq!(meta[0].get_line_num(), 3);
    for v in a1.into_iter() {
        println!("{:?}", v);
    }
}

#[test]
fn fresh_pager_reads_the_texts_rows_from_any_row() {
    let text = "12345\n22\nabcdefgh\nxy\n";
    let rows = warp_str(text, 3);
    for n in 1..=rows.len() {
        let mut eg = SimpleTextEngine::new(text, 2, 3);
        let (lines, meta) = eg.get_line(n, "", false);
        let end = if n - 1 + 2 < rows.len() { n - 1 + 2 } else { rows.len() };
        assert_eq!(lines.unwrap(), rows[n - 1..end].to_vec());
        let nums: Vec<usize> = meta.iter().map(|m| m.get_line_num()).collect();
        assert_eq!(nums, (n..=end).collect::<Vec<usize>>());
    }
}

#[test]
fn counted_rows_match_the_texts_rows() {
    let text = "12345\n22\nabcdefgh\nxy";
    let mut eg = SimpleTextEngine::new(text, 2, 3);
    assert_eq!(eg.get_line_count(), warp_str(text, 3).len());
    let with_newline = "12345\n22\n";
    let mut eg = SimpleTextEngine::new(with_newline, 2, 3);
    assert_eq!(eg.get_line_count(), warp_str(with_newline, 3).len() + 1);
}

#[test]
fn counting_rows_records_page_groups_that_reads_then_use() {
    let mut text = String::new();
    for i in 0..40 {
        text.push_str(&format!("row {} holds a few words\n", i));
    }
    let rows = warp_str(&text, 8);
    let mut eg = SimpleTextEngine::new(&text, 2, 8);
    assert_eq!(eg.get_line_count(), rows.len() + 1);
    for n in 1..=rows.len() {
        let (lines, meta) = eg.get_line(n, "", false);
        let end = if n - 1 + 2 < rows.len() { n - 1 + 2 } else { rows.len() };
        assert_eq!(lines.unwrap(), rows[n - 1..end].to_vec());
        let nums: Vec<usize> = meta.iter().map(|m| m.get_line_num()).collect();
        assert_eq!(nums, (n..=end).collect::<Vec<usize>>());
    }
}
