use chappie::edit::EditTextBuffer;

#[test]
fn test_calculate_lines() {
    let txt = "12345678910";
    let line_count = EditTextBuffer::calculate_lines(txt.len(), 5);
    println!("line_count: {}", line_count);
}

#[test]
fn calculate_lines_rounds_up() {
    assert_eq!(EditTextBuffer::calculate_lines(11, 5), 3);
    assert_eq!(EditTextBuffer::calculate_lines(10, 5), 2);
    assert_eq!(EditTextBuffer::calculate_lines(0, 5), 1);
    assert_eq!(EditTextBuffer::calculate_lines(1, 5), 1);
    assert_eq!(EditTextBuffer::calculate_lines(3, 0), usize::MAX);
}

fn buffer(lines: &[&str]) -> EditTextBuffer {
    EditTextBuffer::from_lines(lines.iter().map(|l| l.to_string()).collect(), 2, 3)
}

fn texts(b: &mut EditTextBuffer) -> Vec<String> {
    b.get_line_content(1, 100).0
}

#[test]
fn edit_cursor_positions() {
    let b = buffer(&["hello", "world"]);
    assert_eq!(b.calculate_x_y(0, 1), (0, 1));
    assert_eq!(b.calculate_x_y(1, 1), (0, 4));
    assert_eq!(b.calculate_x_y(2, 0), (1, 0));
    assert_eq!(b.calculate_x_y(9, 2), (1, 2));
    assert_eq!(b.get_text_len(0), 5);
    assert_eq!(b.get_text_len(7), 0);
}

#[test]
fn edit_test_insert() {
    let mut b = buffer(&["hello", "world"]);
    b.insert(1, 1, 'X');
    b.insert(2, 0, 'Y');
    assert_eq!(texts(&mut b), vec!["hel", "lXo", "Ywo", "rld"]);
    let mut b = buffer(&["ab"]);
    b.insert(0, 4, 'Z');
    assert_eq!(texts(&mut b), vec!["ab ", " Z"]);
}

#[test]
fn edit_insert_newline_splits() {
    let mut b = buffer(&["hello", "world"]);
    b.insert_newline(0, 2);
    assert_eq!(texts(&mut b), vec!["he", "llo", "wor", "ld"]);
}

#[test]
fn edit_backspace_cases() {
    let mut b = buffer(&["hello", "world"]);
    b.backspace(0, 2);
    assert_eq!(texts(&mut b), vec!["hll", "o", "wor", "ld"]);
    let mut b = buffer(&["hello", "world"]);
    b.backspace(2, 0);
    assert_eq!(texts(&mut b), vec!["hel", "low", "orl", "d"]);
    let mut b = buffer(&["", "x"]);
    b.backspace(0, 0);
    assert_eq!(texts(&mut b), vec!["x"]);
}

#[test]
fn edit_rows_and_next_line() {
    let mut b = buffer(&["hello", "world"]);
    let (rows, metas) = b.get_line_content(1, 10);
    assert_eq!(rows, vec!["hel", "lo", "wor", "ld"]);
    let nums: Vec<usize> = metas.iter().map(|m| m.get_line_num()).collect();
    assert_eq!(nums, vec![1, 2, 3, 4]);
    assert_eq!(metas[1].get_line_offset(), 3);
    assert_eq!(metas[1].get_txt_len(), 2);
    assert_eq!(metas[2].get_line_index(), 1);
    let (next, meta) = b.get_next_line(&metas[0], 1);
    assert_eq!(next.unwrap(), "lo");
    assert_eq!(meta.get_line_num(), 2);
    assert_eq!(meta.get_line_end(), 5);
}
