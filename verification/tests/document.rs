use lib::editor::document::{CommandResult, EditorDocument, EditorError, Position, Range};

#[test]
fn replace_and_delete_edit_the_bytes_of_the_range() {
    let mut doc = EditorDocument::from_content("héllo world");
    doc.replace(Range::new(Position::new(7), Position::new(12)), "there")
        .unwrap();
    assert_eq!(doc.text(), "héllo there");
    doc.delete(Range::new(Position::new(0), Position::new(3))).unwrap();
    assert_eq!(doc.text(), "llo there");
    assert_eq!(doc.len_bytes(), 9);
}

#[test]
fn ranges_that_cut_a_character_or_run_past_the_end_are_refused() {
    let mut doc = EditorDocument::from_content("héllo");
    let cut = doc.delete(Range::new(Position::new(0), Position::new(2)));
    assert_eq!(cut, Err(EditorError::InvalidRange { start: 0, end: 2, length: 6 }));
    let past = doc.replace(Range::new(Position::new(4), Position::new(9)), "x");
    assert_eq!(past, Err(EditorError::InvalidRange { start: 4, end: 9, length: 6 }));
    let reversed = doc.delete(Range::new(Position::new(4), Position::new(3)));
    assert_eq!(reversed, Err(EditorError::InvalidRange { start: 4, end: 3, length: 6 }));
    assert_eq!(doc.text(), "héllo");
}

#[test]
fn union_covers_both_ranges() {
    let a = Range::new(Position::new(4), Position::new(9));
    let b = Range::new(Position::new(2), Position::new(6));
    assert_eq!(a.union(&b), Range::new(Position::new(2), Position::new(9)));
    assert_eq!(b.union(&a), Range::new(Position::new(2), Position::new(9)));
}

#[test]
fn command_results() {
    let plain = CommandResult::success();
    assert!(plain.success && !plain.content_changed && plain.modified_range.is_none());
    let range = Range::new(Position::new(1), Position::new(3));
    let changed = CommandResult::success_with_change(range, Position::new(3))
        .with_message("done".to_string());
    assert_eq!(changed.modified_range, Some(range));
    assert_eq!(changed.new_cursor, Some(Position::new(3)));
    assert_eq!(changed.message.as_deref(), Some("done"));
    assert!(changed.content_changed);
    assert_eq!(
        EditorError::command_failed("x".to_string()),
        EditorError::CommandFailed { message: "x".to_string() }
    );
}
