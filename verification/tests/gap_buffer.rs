use chappie::gap_buffer::{GapBuffer, GapBytes};

fn text_of(bytes: &GapBytes<'_>) -> String {
    let (left, right) = bytes.as_str();
    format!("{}{}", left, right)
}

#[test]
fn gap_buffer_test_insert() {
    let mut gb = GapBuffer::new(15);
    gb.insert(0, "helloworld".as_bytes());
    gb.insert(2, "w".as_bytes());
    println!("{:?},{}", gb.get_buffer(), gb.gap_size());
    let len = gb.text_len();
    println!("{:?}", text_of(&gb.get_text(0, len)));
    println!("{:?}", text_of(&gb.get_text(0, 2)));
    println!("{:?}", text_of(&gb.get_text(4, 7)));
    println!("{:?}", text_of(&gb.get_text(4, 10)));
    println!("{:?}", text_of(&gb.get_text(3, 8)));
    println!("{:?}", text_of(&gb.get_text(9, 11)));
    assert_eq!(text_of(&gb.get_text(0, len)), "hewlloworld");
    assert_eq!(text_of(&gb.get_text(0, 2)), "he");
    assert_eq!(text_of(&gb.get_text(4, 7)), "low");
    assert_eq!(text_of(&gb.get_text(4, 10)), "loworl");
    assert_eq!(text_of(&gb.get_text(3, 8)), "llowo");
    assert_eq!(text_of(&gb.get_text(9, 11)), "ld");
}

#[test]
fn test_delete() {
    let mut gb = GapBuffer::new(10);
    gb.insert(0, "Hello".as_bytes());
    gb.delete(1, 1);
    let len = gb.text_len();
    assert_eq!(gb.get_text(0, len).iter(), b"ello".to_vec());
}

#[test]
fn delete_undoes_insert_and_index_zero_is_noop() {
    let mut gb = GapBuffer::new(4);
    gb.insert(0, b"abcdef");
    gb.insert(3, b"XYZ");
    assert_eq!(gb.get_text(0, gb.text_len()).iter(), b"abcXYZdef".to_vec());
    gb.delete(6, 3);
    assert_eq!(gb.get_text(0, gb.text_len()).iter(), b"abcdef".to_vec());
    gb.delete(0, 3);
    assert_eq!(gb.get_text(0, gb.text_len()).iter(), b"abcdef".to_vec());
    gb.backspace(2);
    assert_eq!(gb.get_text(0, gb.text_len()).iter(), b"acdef".to_vec());
}

#[test]
fn delete_past_end_removes_before_gap() {
    let mut gb = GapBuffer::new(8);
    gb.insert(0, b"abcdef");
    gb.move_gap_to(2);
    // position 100 lies past the text: the two bytes before the gap go.
    gb.delete(100, 2);
    assert_eq!(gb.get_text(0, gb.text_len()).iter(), b"cdef".to_vec());
    // an insert past the end lands at the gap
    gb.insert(50, b"Z");
    assert_eq!(gb.get_text(0, gb.text_len()).iter(), b"Zcdef".to_vec());
}

#[test]
fn gap_moves_keep_text_and_expand_grows() {
    let mut gb = GapBuffer::new(2);
    gb.insert(0, b"xy");
    gb.move_gap_to_last();
    gb.move_gap_to(0);
    assert_eq!(gb.get_text(0, 2).iter(), b"xy".to_vec());
    gb.expand_gap(10);
    assert!(gb.gap_size() >= 10);
    assert_eq!(gb.get_text(0, 2).iter(), b"xy".to_vec());
}

#[test]
fn gap_bytes_text_keeps_left_piece_when_spanning() {
    let gb = GapBytes::new(b"abc", b"def");
    assert_eq!(gb.len(), 6);
    assert_eq!(gb.text(1, 2).iter(), b"b".to_vec());
    assert_eq!(gb.text(1, 5).iter(), b"abcde".to_vec());
    assert_eq!(gb.text(4, 6).iter(), b"ef".to_vec());
    assert_eq!(GapBytes::empty().iter(), Vec::<u8>::new());
    assert_eq!(gb.left(), b"abc");
    assert_eq!(gb.right(), b"def");
}

#[test]
fn test_iter() {
    let mut gb = GapBuffer::new(15);
    gb.insert(0, "helloworld".as_bytes());
    gb.insert(2, "我们".as_bytes());
    let len = gb.text_len();
    let s = gb.get_text(0, len);
    println!("{:?}", text_of(&s));
    let pairs = s.char_indices();
    for (i, byte) in pairs.iter().enumerate() {
        println!("{}: {:?}", i, byte);
    }
    let expected: Vec<(usize, char)> = "he我们lloworld".char_indices().collect();
    assert_eq!(pairs, expected);
}
