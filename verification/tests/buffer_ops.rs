use textbuffer::{Buffer, BufferKind, BufferSet, Cursor, EditAction, Selection};
use textbuffer::keys::shifted_char;

fn chars(s: &str) -> Vec<char> {
    s.chars().collect()
}

fn lines_of(b: &Buffer) -> Vec<String> {
    b.lines.iter().map(|l| l.content.iter().collect()).collect()
}

fn buffer(content: &str) -> Buffer {
    Buffer::new(BufferKind::Other, content)
}

#[test]
fn new_empty_buffer_has_one_empty_line() {
    let b = buffer("");
    assert_eq!(lines_of(&b), vec![String::new()]);
    assert_eq!(b.cursor, Cursor { line: 0, index: 0 });
}

#[test]
fn new_splits_on_newlines() {
    let b = buffer("ab\ncd\nef");
    assert_eq!(lines_of(&b), vec!["ab".to_string(), "cd".to_string(), "ef".to_string()]);
}

#[test]
fn new_drops_trailing_line_ending() {
    let b = buffer("ab\ncd\n");
    assert_eq!(lines_of(&b), vec!["ab".to_string(), "cd".to_string()]);
}

#[test]
fn new_strips_carriage_returns() {
    let b = buffer("a\r\nb\r");
    assert_eq!(lines_of(&b), vec!["a".to_string(), "b\r".to_string()]);
}

#[test]
fn insert_into_empty_buffer() {
    let mut b = buffer("");
    b.insert_string(&chars("ab"));
    assert_eq!(lines_of(&b), vec!["ab".to_string()]);
    assert_eq!(b.cursor, Cursor { line: 0, index: 2 });
}

#[test]
fn insert_with_newline_splits_line() {
    let mut b = buffer("ab");
    b.cursor = Cursor { line: 0, index: 2 };
    b.insert_string(&chars("\ncd"));
    assert_eq!(lines_of(&b), vec!["ab".to_string(), "cd".to_string()]);
    assert_eq!(b.cursor, Cursor { line: 1, index: 2 });
}

#[test]
fn insert_in_middle_of_line() {
    let mut b = buffer("xy");
    b.cursor = Cursor { line: 0, index: 1 };
    b.insert_string(&chars("ab"));
    assert_eq!(lines_of(&b), vec!["xaby".to_string()]);
    assert_eq!(b.cursor, Cursor { line: 0, index: 3 });
}

#[test]
fn insert_multiline_in_middle() {
    let mut b = buffer("xy");
    b.cursor = Cursor { line: 0, index: 1 };
    b.insert_string(&chars("a\nb\nc"));
    assert_eq!(
        lines_of(&b),
        vec!["xa".to_string(), "b".to_string(), "cy".to_string()]
    );
    assert_eq!(b.cursor, Cursor { line: 2, index: 1 });
}

#[test]
fn insert_cursor_advances_by_newline_count() {
    let mut b = buffer("hello");
    b.cursor = Cursor { line: 0, index: 5 };
    b.insert_string(&chars("a\nb\nc\nd"));
    assert_eq!(b.cursor.line, 3);
}

#[test]
fn insert_then_delete_range_restores_buffer() {
    let mut b = buffer("hello\nworld");
    b.cursor = Cursor { line: 1, index: 2 };
    let start = b.cursor;
    let end = b.insert_at(start, &chars("XYZ"));
    assert_eq!(lines_of(&b), vec!["hello".to_string(), "woXYZrld".to_string()]);
    b.delete_range(start, end);
    assert_eq!(lines_of(&b), vec!["hello".to_string(), "world".to_string()]);
    assert_eq!(b.cursor, start);
}

#[test]
fn newline_action_splits_line() {
    let mut b = buffer("abcd");
    b.cursor = Cursor { line: 0, index: 2 };
    b.perform_action(EditAction::NewLine);
    assert_eq!(lines_of(&b), vec!["ab".to_string(), "cd".to_string()]);
    assert_eq!(b.cursor, Cursor { line: 1, index: 0 });
}

#[test]
fn insert_action_types_one_character() {
    let mut b = buffer("ac");
    b.cursor = Cursor { line: 0, index: 1 };
    b.perform_action(EditAction::Insert('b'));
    assert_eq!(lines_of(&b), vec!["abc".to_string()]);
    assert_eq!(b.cursor, Cursor { line: 0, index: 2 });
}

#[test]
fn insert_action_newline_char_routes_to_split() {
    let mut b = buffer("ab");
    b.cursor = Cursor { line: 0, index: 1 };
    b.perform_action(EditAction::Insert('\n'));
    assert_eq!(lines_of(&b), vec!["a".to_string(), "b".to_string()]);
    assert_eq!(b.cursor, Cursor { line: 1, index: 0 });
}

#[test]
fn backspace_at_document_start_is_noop() {
    let mut b = buffer("ab");
    b.perform_action(EditAction::Backspace);
    assert_eq!(lines_of(&b), vec!["ab".to_string()]);
    assert_eq!(b.cursor, Cursor { line: 0, index: 0 });
}

#[test]
fn backspace_deletes_previous_character() {
    let mut b = buffer("abc");
    b.cursor = Cursor { line: 0, index: 2 };
    b.perform_action(EditAction::Backspace);
    assert_eq!(lines_of(&b), vec!["ac".to_string()]);
    assert_eq!(b.cursor, Cursor { line: 0, index: 1 });
}

#[test]
fn backspace_at_line_start_merges_lines() {
    let mut b = buffer("abc\ndef");
    b.cursor = Cursor { line: 1, index: 0 };
    b.perform_action(EditAction::Backspace);
    assert_eq!(lines_of(&b), vec!["abcdef".to_string()]);
    assert_eq!(b.cursor, Cursor { line: 0, index: 3 });
}

#[test]
fn delete_removes_character_forward() {
    let mut b = buffer("abc");
    b.cursor = Cursor { line: 0, index: 1 };
    b.perform_action(EditAction::Delete);
    assert_eq!(lines_of(&b), vec!["ac".to_string()]);
    assert_eq!(b.cursor, Cursor { line: 0, index: 1 });
}

#[test]
fn delete_removes_whole_grapheme_cluster() {
    // An 'a' with a combining mark is one grapheme of two scalars; forward
    // deletion removes both at once.
    let mut b = buffer("a\u{310}e");
    assert_eq!(b.lines[0].content.len(), 3);
    b.perform_action(EditAction::Delete);
    assert_eq!(lines_of(&b), vec!["e".to_string()]);
    assert_eq!(b.cursor, Cursor { line: 0, index: 0 });
}

#[test]
fn delete_at_line_end_merges_next_line() {
    let mut b = buffer("ab\ncd");
    b.cursor = Cursor { line: 0, index: 2 };
    b.perform_action(EditAction::Delete);
    assert_eq!(lines_of(&b), vec!["abcd".to_string()]);
    assert_eq!(b.cursor, Cursor { line: 0, index: 2 });
}

#[test]
fn delete_at_document_end_is_noop() {
    let mut b = buffer("ab");
    b.cursor = Cursor { line: 0, index: 2 };
    b.perform_action(EditAction::Delete);
    assert_eq!(lines_of(&b), vec!["ab".to_string()]);
}

#[test]
fn rows_wrap_long_line() {
    let mut b = buffer("abcdefg");
    b.cols = 3;
    let rows = b.rows();
    let contents: Vec<String> = rows.iter().map(|r| r.content.iter().collect()).collect();
    assert_eq!(contents, vec!["abc".to_string(), "def".to_string(), "g".to_string()]);
    assert_eq!(rows[0].num, 1);
    assert_eq!(rows[1].num, 2);
    assert_eq!(rows[2].num, 3);
    assert_eq!(rows[1].index, 1);
    assert_eq!(rows[2].index, 2);
    assert!(rows.iter().all(|r| r.line_index == 0));
}

#[test]
fn rows_count_matches_ceiling_formula() {
    let mut b = buffer("abcdef");
    b.cols = 3;
    // A six-character line at width three wraps to exactly two rows.
    assert_eq!(b.rows().len(), 2);
    b.cols = 4;
    assert_eq!(b.rows().len(), 2);
    b.cols = 6;
    assert_eq!(b.rows().len(), 1);
}

#[test]
fn empty_line_still_yields_one_row() {
    let mut b = buffer("ab\n\ncd");
    b.cols = 10;
    let rows = b.rows();
    assert_eq!(rows.len(), 3);
    assert_eq!(rows[1].content.len(), 0);
    assert_eq!(rows[1].line_index, 1);
}

#[test]
fn visible_rows_skip_scroll_and_take_viewport() {
    let mut b = buffer("a\nb\nc\nd\ne");
    b.cols = 10;
    b.rows = 2;
    b.scroll_y_offset = 1;
    let vis = b.visible_rows();
    let contents: Vec<String> = vis.iter().map(|r| r.content.iter().collect()).collect();
    assert_eq!(contents, vec!["b".to_string(), "c".to_string()]);
    assert_eq!(vis[0].num, 2);
}

#[test]
fn click_on_wrapped_row_lands_clamped() {
    let mut b = buffer("abcdef");
    b.cols = 3;
    b.rows = 10;
    b.perform_action(EditAction::Click((5, 1)));
    // Row 1 is the second wrapped row "def"; x = 5 clamps to the row's
    // length 3, so the cursor lands at 1 * 3 + 3 = 6.
    assert_eq!(b.cursor, Cursor { line: 0, index: 6 });
}

#[test]
fn click_within_row_lands_at_cell() {
    let mut b = buffer("abcdef\nxy");
    b.cols = 3;
    b.rows = 10;
    b.perform_action(EditAction::Click((1, 2)));
    assert_eq!(b.cursor, Cursor { line: 1, index: 1 });
}

#[test]
fn click_outside_rows_leaves_cursor() {
    let mut b = buffer("ab");
    b.cols = 3;
    b.rows = 10;
    b.cursor = Cursor { line: 0, index: 1 };
    b.perform_action(EditAction::Click((0, 7)));
    assert_eq!(b.cursor, Cursor { line: 0, index: 1 });
}

#[test]
fn move_left_and_wrap_to_previous_line() {
    let mut b = buffer("ab\ncd");
    b.cursor = Cursor { line: 1, index: 1 };
    b.perform_action(EditAction::MoveLeft);
    assert_eq!(b.cursor, Cursor { line: 1, index: 0 });
    b.perform_action(EditAction::MoveLeft);
    assert_eq!(b.cursor, Cursor { line: 0, index: 2 });
    b.cursor = Cursor { line: 0, index: 0 };
    b.perform_action(EditAction::MoveLeft);
    assert_eq!(b.cursor, Cursor { line: 0, index: 0 });
}

#[test]
fn move_right_and_wrap_to_next_line() {
    let mut b = buffer("ab\ncd");
    b.cursor = Cursor { line: 0, index: 1 };
    b.perform_action(EditAction::MoveRight);
    assert_eq!(b.cursor, Cursor { line: 0, index: 2 });
    b.perform_action(EditAction::MoveRight);
    assert_eq!(b.cursor, Cursor { line: 1, index: 0 });
    b.cursor = Cursor { line: 1, index: 2 };
    b.perform_action(EditAction::MoveRight);
    assert_eq!(b.cursor, Cursor { line: 1, index: 2 });
}

#[test]
fn move_up_within_wrapped_line() {
    let mut b = buffer("abcdefg");
    b.cols = 3;
    b.cursor = Cursor { line: 0, index: 4 };
    b.perform_action(EditAction::MoveUp);
    assert_eq!(b.cursor, Cursor { line: 0, index: 1 });
}

#[test]
fn move_down_within_wrapped_line() {
    let mut b = buffer("abcdefg");
    b.cols = 3;
    b.cursor = Cursor { line: 0, index: 1 };
    b.perform_action(EditAction::MoveDown);
    assert_eq!(b.cursor, Cursor { line: 0, index: 4 });
}

#[test]
fn move_up_to_shorter_line_clamps() {
    let mut b = buffer("ab\nlonger");
    b.cols = 10;
    b.cursor = Cursor { line: 1, index: 5 };
    b.perform_action(EditAction::MoveUp);
    assert_eq!(b.cursor, Cursor { line: 0, index: 2 });
}

#[test]
fn move_down_to_shorter_line_clamps() {
    let mut b = buffer("longer\nab");
    b.cols = 10;
    b.cursor = Cursor { line: 0, index: 5 };
    b.perform_action(EditAction::MoveDown);
    assert_eq!(b.cursor, Cursor { line: 1, index: 2 });
}

#[test]
fn move_next_word_jumps_to_word_end() {
    let mut b = buffer("The quick brown");
    b.perform_action(EditAction::MoveNextWord);
    assert_eq!(b.cursor, Cursor { line: 0, index: 3 });
    b.perform_action(EditAction::MoveNextWord);
    assert_eq!(b.cursor, Cursor { line: 0, index: 9 });
}

#[test]
fn move_prev_word_jumps_to_word_start() {
    let mut b = buffer("The quick brown");
    b.cursor = Cursor { line: 0, index: 9 };
    b.perform_action(EditAction::MovePrevWord);
    assert_eq!(b.cursor, Cursor { line: 0, index: 4 });
    b.perform_action(EditAction::MovePrevWord);
    assert_eq!(b.cursor, Cursor { line: 0, index: 0 });
}

#[test]
fn word_moves_cross_line_boundaries() {
    let mut b = buffer("ab\ncd");
    b.cursor = Cursor { line: 0, index: 2 };
    b.perform_action(EditAction::MoveNextWord);
    assert_eq!(b.cursor, Cursor { line: 1, index: 0 });
    b.perform_action(EditAction::MovePrevWord);
    assert_eq!(b.cursor, Cursor { line: 0, index: 2 });
}

#[test]
fn selection_bounds_are_ordered_both_ways() {
    let mut b = buffer("abc\ndef");
    b.cursor = Cursor { line: 0, index: 1 };
    b.start_selection();
    b.cursor = Cursor { line: 1, index: 2 };
    let (s, e) = b.selection_bounds().unwrap();
    assert_eq!(s, Cursor { line: 0, index: 1 });
    assert_eq!(e, Cursor { line: 1, index: 2 });

    // Moving the cursor before the anchor swaps the endpoints.
    b.cursor = Cursor { line: 0, index: 0 };
    let mut c = buffer("abc\ndef");
    c.cursor = Cursor { line: 1, index: 2 };
    c.start_selection();
    c.cursor = Cursor { line: 0, index: 1 };
    let (s2, e2) = c.selection_bounds().unwrap();
    assert_eq!(s2, Cursor { line: 0, index: 1 });
    assert_eq!(e2, Cursor { line: 1, index: 2 });
}

#[test]
fn selection_bounds_none_without_selection() {
    let b = buffer("abc");
    assert!(b.selection_bounds().is_none());
}

#[test]
fn start_or_continue_keeps_existing_anchor() {
    let mut b = buffer("abcdef");
    b.cursor = Cursor { line: 0, index: 1 };
    b.start_or_continue_selection();
    b.cursor = Cursor { line: 0, index: 3 };
    b.start_or_continue_selection();
    match b.selection {
        Selection::Normal(a) => assert_eq!(a, Cursor { line: 0, index: 1 }),
        _ => panic!("selection should be anchored"),
    }
}

#[test]
fn delete_selection_removes_range() {
    let mut b = buffer("abc\ndef");
    b.cursor = Cursor { line: 0, index: 2 };
    b.start_selection();
    b.cursor = Cursor { line: 1, index: 1 };
    assert!(b.delete_selection());
    assert_eq!(lines_of(&b), vec!["abef".to_string()]);
    assert_eq!(b.cursor, Cursor { line: 0, index: 2 });
    assert!(!b.delete_selection());
}

#[test]
fn insert_replaces_selection() {
    let mut b = buffer("hello");
    b.cursor = Cursor { line: 0, index: 1 };
    b.start_selection();
    b.cursor = Cursor { line: 0, index: 4 };
    b.perform_action(EditAction::Insert('X'));
    assert_eq!(lines_of(&b), vec!["hXo".to_string()]);
    assert_eq!(b.cursor, Cursor { line: 0, index: 2 });
}

#[test]
fn clear_selection_keeps_text() {
    let mut b = buffer("abc");
    b.start_selection();
    b.perform_action(EditAction::ClearSelection);
    assert!(b.selection_bounds().is_none());
    assert_eq!(lines_of(&b), vec!["abc".to_string()]);
}

#[test]
fn scroll_saturates_at_both_ends() {
    let mut b = buffer("a\nb\nc");
    b.perform_action(EditAction::ScrollUp);
    assert_eq!(b.scroll_y_offset, 0);
    for _ in 0..5 {
        b.perform_action(EditAction::ScrollDown);
    }
    assert_eq!(b.scroll_y_offset, 3);
    b.perform_action(EditAction::ScrollUp);
    assert_eq!(b.scroll_y_offset, 2);
}

#[test]
fn buffer_set_starts_on_file_buffer() {
    let set = BufferSet::new("/tmp/file.rs".to_string(), "fn main() {}\n");
    assert_eq!(set.count(), 2);
    assert!(!set.current_is_first());
    assert!(set.current_is_last());
    match &set.current_buffer().kind {
        BufferKind::File(p) => assert_eq!(p, "/tmp/file.rs"),
        BufferKind::Other => panic!("current buffer should be the file buffer"),
    }
}

#[test]
fn goto_previous_without_wrap_stops_at_first() {
    let mut set = BufferSet::new("/a".to_string(), "x");
    assert!(set.goto_previous(false));
    assert!(set.current_is_first());
    // On the first buffer, refusing to wrap reports no move and stays put.
    assert!(!set.goto_previous(false));
    assert!(set.current_is_first());
    // Allowed to wrap, it moves to the last buffer.
    assert!(set.goto_previous(true));
    assert!(set.current_is_last());
}

#[test]
fn goto_next_wraps_only_when_allowed() {
    let mut set = BufferSet::new("/a".to_string(), "x");
    assert!(set.current_is_last());
    assert!(!set.goto_next(false));
    assert!(set.current_is_last());
    assert!(set.goto_next(true));
    assert!(set.current_is_first());
    assert!(set.goto_next(false));
    assert!(set.current_is_last());
}

#[test]
fn editing_through_current_buffer_mut() {
    let mut set = BufferSet::new("/a".to_string(), "hi");
    set.current_buffer_mut().perform_action(EditAction::MoveRight);
    assert_eq!(set.current_buffer().cursor, Cursor { line: 0, index: 1 });
}

#[test]
fn shifted_characters_map_to_symbols() {
    assert_eq!(shifted_char('1'), '!');
    assert_eq!(shifted_char('8'), '8');
    assert_eq!(shifted_char('/'), '?');
    assert_eq!(shifted_char(';'), ':');
    assert_eq!(shifted_char('a'), 'A');
    assert_eq!(shifted_char('z'), 'Z');
    assert_eq!(shifted_char('Q'), 'Q');
    assert_eq!(shifted_char(' '), ' ');
}
