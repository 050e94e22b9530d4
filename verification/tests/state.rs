use zeno_editor::state::EditorState;

#[test]
fn inserts_characters() {
    let mut editor = EditorState::new();
    editor.insert_str("a");
    editor.insert_str("b");
    editor.insert_str("c");
    assert_eq!(editor.text(), "abc");
    assert_eq!(editor.cursor(), 3);
    assert!(editor.selection_range().is_empty());
}

#[test]
fn backspace_deletes_previous_character() {
    let mut editor = EditorState::new();
    editor.insert_str("ab");
    editor.backspace();
    assert_eq!(editor.text(), "a");
    assert_eq!(editor.cursor(), 1);
    editor.backspace();
    assert_eq!(editor.text(), "");
    assert_eq!(editor.cursor(), 0);
    editor.backspace();
    assert_eq!(editor.text(), "");
    assert_eq!(editor.cursor(), 0);
}

#[test]
fn cursor_moves_left_and_right_with_bounds() {
    let mut editor = EditorState::new();
    editor.insert_str("ab");
    editor.move_left(false);
    assert_eq!(editor.cursor(), 1);
    editor.move_left(false);
    assert_eq!(editor.cursor(), 0);
    editor.move_left(false);
    assert_eq!(editor.cursor(), 0);
    editor.move_right(false);
    assert_eq!(editor.cursor(), 1);
    editor.move_right(false);
    assert_eq!(editor.cursor(), 2);
    editor.move_right(false);
    assert_eq!(editor.cursor(), 2);
}

#[test]
fn newline_inserts_and_moves_cursor() {
    let mut editor = EditorState::new();
    editor.insert_str("a");
    editor.insert_str("\n");
    editor.insert_str("b");
    assert_eq!(editor.text(), "a\nb");
    assert_eq!(editor.cursor(), 3);
}

#[test]
fn select_all_is_idempotent() {
    let mut editor = EditorState::new();
    editor.insert_str("abc");
    editor.move_left(false);
    editor.select_all();
    let first = (editor.anchor(), editor.cursor());
    editor.select_all();
    assert_eq!((editor.anchor(), editor.cursor()), first);
    assert_eq!(first, (0, 3));
}

#[test]
fn selection_collapses_to_lower_edge_on_move_left() {
    let mut editor = EditorState::new();
    editor.insert_str("ab");
    editor.select_all();
    assert_eq!(editor.anchor(), 0);
    assert_eq!(editor.cursor(), 2);
    editor.move_left(false);
    assert_eq!(editor.cursor(), 0);
    assert_eq!(editor.anchor(), 0);
}

#[test]
fn selection_collapses_to_upper_edge_on_move_right() {
    let mut editor = EditorState::new();
    editor.insert_str("ab");
    editor.select_all();
    editor.move_right(false);
    assert_eq!(editor.cursor(), 2);
    assert_eq!(editor.anchor(), 2);
}

#[test]
fn shift_navigation_extends_and_reverses_selection() {
    let mut editor = EditorState::new();
    editor.insert_str("ab");
    editor.move_left(true);
    assert_eq!(editor.anchor(), 2);
    assert_eq!(editor.cursor(), 1);
    assert!(editor.selection_reversed());
    assert_eq!(editor.selection_range(), 1..2);
    editor.move_right(true);
    assert_eq!(editor.cursor(), 2);
    assert!(!editor.selection_reversed());
    assert!(editor.selection_range().is_empty());
}

#[test]
fn replace_range_widens_to_character_boundary() {
    let mut editor = EditorState::new();
    editor.insert_str("a\u{e9}b");
    assert_eq!(editor.text().len(), 4);
    // The range's end falls one byte inside the 2-byte character, so the
    // whole character is deleted, never leaving a truncated encoding.
    editor.replace_range(1..2, "");
    assert_eq!(editor.text(), "ab");
    assert_eq!(editor.cursor(), 1);
    assert!(editor.text().is_char_boundary(editor.cursor()));
}

#[test]
fn replace_range_swaps_reversed_and_clamps() {
    let mut editor = EditorState::new();
    editor.insert_str("abcd");
    editor.replace_range(3..1, "x");
    assert_eq!(editor.text(), "axd");
    assert_eq!(editor.cursor(), 2);
    editor.replace_range(100..200, "!");
    assert_eq!(editor.text(), "axd!");
    assert_eq!(editor.cursor(), 4);
}

#[test]
fn insert_replaces_selection() {
    let mut editor = EditorState::new();
    editor.insert_str("hello");
    editor.select_all();
    editor.insert_str("hi");
    assert_eq!(editor.text(), "hi");
    assert_eq!(editor.cursor(), 2);
    assert_eq!(editor.anchor(), 2);
}

#[test]
fn delete_forward_removes_next_character() {
    let mut editor = EditorState::new();
    editor.insert_str("ab");
    editor.delete_forward();
    assert_eq!(editor.text(), "ab");
    assert_eq!(editor.cursor(), 2);
    editor.move_left(false);
    editor.move_left(false);
    editor.delete_forward();
    assert_eq!(editor.text(), "b");
    assert_eq!(editor.cursor(), 0);
}

#[test]
fn backspace_removes_whole_multibyte_character() {
    let mut editor = EditorState::new();
    editor.insert_str("a\u{1f600}");
    assert_eq!(editor.cursor(), 5);
    editor.backspace();
    assert_eq!(editor.text(), "a");
    assert_eq!(editor.cursor(), 1);
}

#[test]
fn backspace_and_delete_remove_selection() {
    let mut editor = EditorState::new();
    editor.insert_str("abc");
    editor.select_all();
    editor.backspace();
    assert_eq!(editor.text(), "");
    let mut editor = EditorState::new();
    editor.insert_str("abc");
    editor.select_all();
    editor.delete_forward();
    assert_eq!(editor.text(), "");
}

#[test]
fn set_text_clamps_cursor_and_collapses_selection() {
    let mut editor = EditorState::new();
    editor.insert_str("abcd");
    assert_eq!(editor.cursor(), 4);
    editor.set_text("ab".to_string());
    assert_eq!(editor.text(), "ab");
    assert_eq!(editor.cursor(), 2);
    assert_eq!(editor.anchor(), 2);
}

#[test]
fn set_cursor_and_set_selection_clamp_to_bounds() {
    let mut editor = EditorState::new();
    editor.insert_str("ab");
    editor.set_cursor(100);
    assert_eq!(editor.cursor(), 2);
    assert_eq!(editor.anchor(), 2);
    editor.set_selection(1, 100);
    assert_eq!(editor.anchor(), 1);
    assert_eq!(editor.cursor(), 2);
    assert_eq!(editor.selection_range(), 1..2);
}

#[test]
fn insert_then_backspace_restores_prior_state() {
    let mut editor = EditorState::new();
    editor.insert_str("a");
    editor.backspace();
    assert_eq!(editor.text(), "");
    assert_eq!(editor.cursor(), 0);
    let mut editor = EditorState::new();
    editor.insert_str("xy");
    editor.move_left(false);
    editor.insert_str("a");
    editor.backspace();
    assert_eq!(editor.text(), "xy");
    assert_eq!(editor.cursor(), 1);
}

#[test]
fn endpoints_stay_on_char_boundaries_across_operations() {
    let mut editor = EditorState::new();
    editor.insert_str("a\u{e9}\u{1f600}b");
    for _ in 0..6 {
        editor.move_left(false);
        assert!(editor.text().is_char_boundary(editor.cursor()));
        assert!(editor.text().is_char_boundary(editor.anchor()));
    }
    for _ in 0..6 {
        editor.move_right(true);
        assert!(editor.text().is_char_boundary(editor.cursor()));
        assert!(editor.text().is_char_boundary(editor.anchor()));
    }
    editor.backspace();
    assert!(editor.text().is_char_boundary(editor.cursor()));
    editor.insert_str("\u{20ac}");
    assert!(editor.text().is_char_boundary(editor.cursor()));
    assert!(editor.cursor() <= editor.text().len());
    assert!(editor.anchor() <= editor.text().len());
}
