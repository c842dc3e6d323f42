use chappie::common::ring_vec::RingVec;
use chappie::handle::edit::{
    backspace_step, cursor_after_backspace, delete_char_offset, find_visual_line_for_abs_offset, join_offset,
    line_abs_start, line_cursor_from_byte_offset, line_cursor_from_char_position, prev_line_char_len,
    previous_cursor_size_at_line_start, refresh_cursor_bytes, sync_cursor_to_abs_offset, BackspaceStep, CacheStr,
    CursorSync, HandleEdit, LineState,
};

fn row(parts: &[&str]) -> CacheStr {
    CacheStr::new(parts.iter().map(|p| p.to_string()).collect())
}

fn state(file_start: usize, offset: usize, len: usize, line: usize) -> LineState {
    LineState::new(file_start, offset, len, line, len, 0, file_start)
}

fn ring<T>(items: Vec<T>) -> RingVec<T> {
    let mut r = RingVec::with_capacity(items.len() + 1);
    for x in items {
        r.push(x);
    }
    r
}

#[test]
fn cursor_from_char_position_counts_bytes_across_parts() {
    let line = row(&["aé", "中b"]);
    let c = line_cursor_from_char_position(&line, 0);
    assert_eq!((c.cursor_x, c.bytes_cursor, c.bytes_cursor_size), (0, 0, 0));
    let c = line_cursor_from_char_position(&line, 2);
    assert_eq!((c.cursor_x, c.bytes_cursor, c.bytes_cursor_size), (2, 3, 2));
    let c = line_cursor_from_char_position(&line, 3);
    assert_eq!((c.cursor_x, c.bytes_cursor, c.bytes_cursor_size), (3, 6, 3));
    let c = line_cursor_from_char_position(&line, 9);
    assert_eq!((c.cursor_x, c.bytes_cursor, c.bytes_cursor_size), (4, 7, 1));
}

#[test]
fn cursor_from_byte_offset_snaps_to_character_start() {
    let line = row(&["aé", "中b"]);
    let c = line_cursor_from_byte_offset(&line, 2);
    assert_eq!((c.cursor_x, c.bytes_cursor, c.bytes_cursor_size), (1, 1, 1));
    let c = line_cursor_from_byte_offset(&line, 4);
    assert_eq!((c.cursor_x, c.bytes_cursor, c.bytes_cursor_size), (2, 3, 2));
    let c = line_cursor_from_byte_offset(&line, 6);
    assert_eq!((c.cursor_x, c.bytes_cursor, c.bytes_cursor_size), (3, 6, 3));
    let c = line_cursor_from_byte_offset(&line, 100);
    assert_eq!((c.cursor_x, c.bytes_cursor, c.bytes_cursor_size), (4, 7, 1));
}

#[test]
fn visual_line_prefers_the_next_row_on_a_boundary() {
    let meta = ring(vec![state(0, 0, 5, 0), state(0, 5, 5, 0), state(20, 0, 3, 1)]);
    assert_eq!(line_abs_start(&state(20, 4, 1, 0)), 24);
    assert_eq!(find_visual_line_for_abs_offset(&meta, 5), Some(1));
    assert_eq!(find_visual_line_for_abs_offset(&meta, 3), Some(0));
    assert_eq!(find_visual_line_for_abs_offset(&meta, 22), Some(2));
    assert_eq!(find_visual_line_for_abs_offset(&meta, 12), Some(2));
    assert_eq!(find_visual_line_for_abs_offset(&ring(vec![state(10, 0, 2, 0)]), 3), Some(0));
    assert_eq!(find_visual_line_for_abs_offset(&ring(Vec::<LineState>::new()), 3), None);
}

#[test]
fn size_before_a_row_start() {
    let content = ring(vec![row(&["ab", "c\n"]), row(&["de"]), row(&["中"])]);
    let meta = ring(vec![state(0, 0, 4, 0), state(4, 0, 2, 1), state(4, 2, 3, 1)]);
    assert_eq!(previous_cursor_size_at_line_start(&content, &meta, 0), 0);
    assert_eq!(previous_cursor_size_at_line_start(&content, &meta, 1), 1);
    assert_eq!(previous_cursor_size_at_line_start(&content, &meta, 2), 1);
    let content2 = ring(vec![row(&["ab中"]), row(&["x"])]);
    let meta2 = ring(vec![state(0, 0, 5, 0), state(0, 5, 1, 0)]);
    assert_eq!(previous_cursor_size_at_line_start(&content2, &meta2, 1), 3);
}

#[test]
fn refresh_and_sync_place_the_cursor() {
    let content = ring(vec![row(&["abc"]), row(&["dé"])]);
    let meta = ring(vec![state(0, 0, 3, 0), state(0, 3, 3, 0)]);
    let c = refresh_cursor_bytes(&content, &meta, 2, 1).unwrap();
    assert_eq!((c.cursor_x, c.bytes_cursor, c.bytes_cursor_size), (2, 3, 2));
    let c = refresh_cursor_bytes(&content, &meta, 0, 1).unwrap();
    assert_eq!((c.cursor_x, c.bytes_cursor, c.bytes_cursor_size), (0, 0, 1));
    assert!(refresh_cursor_bytes(&content, &meta, 0, 5).is_none());
    let (first, place) = sync_cursor_to_abs_offset(&content, &meta, 5);
    assert_eq!(first.unwrap().get_line_offset(), 0);
    match place {
        CursorSync::At(y, c) => assert_eq!((y, c.cursor_x, c.bytes_cursor, c.bytes_cursor_size), (1, 1, 1, 1)),
        _ => panic!("expected a cursor place"),
    }
    let (first, place) = sync_cursor_to_abs_offset(&ring(Vec::<CacheStr>::new()), &ring(Vec::<LineState>::new()), 5);
    assert!(first.is_none());
    assert!(matches!(place, CursorSync::Home));
}

#[test]
fn backspace_steps() {
    let _handle = HandleEdit::new();
    let top = state(0, 0, 3, 0);
    let later = state(40, 3, 3, 2);
    let row_start = state(10, 0, 4, 1);
    assert_eq!(backspace_step(true, 3, 2, &top, None, 0), BackspaceStep::PopCommand);
    assert_eq!(backspace_step(false, 0, 0, &top, None, 0), BackspaceStep::Nothing);
    assert_eq!(backspace_step(false, 0, 0, &later, None, 0), BackspaceStep::JoinWithRowAbove);
    assert_eq!(backspace_step(false, 0, 1, &top, None, 0), BackspaceStep::Nothing);
    assert_eq!(backspace_step(false, 0, 1, &top, Some(&row_start), 0), BackspaceStep::DeleteNewline { at: 9 });
    assert_eq!(backspace_step(false, 2, 1, &top, Some(&row_start), 2), BackspaceStep::DeleteChar);
    assert_eq!(delete_char_offset(&row_start, 2, 1), 11);
    assert_eq!(join_offset(&later), 42);
    let meta = ring(vec![state(0, 0, 3, 0), state(3, 0, 2, 1)]);
    assert_eq!(prev_line_char_len(&meta, 1), 2);
    assert_eq!(prev_line_char_len(&meta, 0), 0);
    assert_eq!(cursor_after_backspace(0, 1, 2), (2, 0));
    assert_eq!(cursor_after_backspace(3, 1, 2), (2, 1));
    assert_eq!(cursor_after_backspace(0, 0, 0), (0, 0));
}
