use lib::editor::commands::common::count_message;
use lib::editor::commands::{
    BatchDeleteEventsCommand, DeleteEventCommand, EffectOperation, EventEffectCommand,
    ToggleEventTypeCommand,
};
use lib::editor::document::{EditorDocument, EditorError, Position, Range};

const SCRIPT: &str = "[Script Info]\nTitle: Test\n\n[Events]\nFormat: Layer, Start, End, Style, Name, MarginL, MarginR, MarginV, Effect, Text\nDialogue: 0,0:00:00.00,0:00:05.00,Default,,0,0,0,,Hello\nComment: 0,0:00:05.00,0:00:10.00,Default,,0,0,0,Banner;30,Note, with comma\nDialogue: 1,0:00:10.00,0:00:15.00,Default,Actor,0,0,0,,World 字\n\n[Fonts]\nDialogue: not an event here\n";

const LINE0: &str = "Dialogue: 0,0:00:00.00,0:00:05.00,Default,,0,0,0,,Hello\n";
const LINE1: &str = "Comment: 0,0:00:05.00,0:00:10.00,Default,,0,0,0,Banner;30,Note, with comma\n";
const LINE2: &str = "Dialogue: 1,0:00:10.00,0:00:15.00,Default,Actor,0,0,0,,World 字\n";

fn document() -> EditorDocument {
    EditorDocument::from_content(SCRIPT)
}

fn at(offset: usize) -> Position {
    Position::new(offset)
}

#[test]
fn delete_removes_the_event_line_with_its_line_break() {
    let mut doc = document();
    let result = DeleteEventCommand::new(1).execute(&mut doc).unwrap();
    assert_eq!(doc.text(), SCRIPT.replacen(LINE1, "", 1));
    let start = SCRIPT.find(LINE1).unwrap();
    assert!(result.success && result.content_changed);
    assert_eq!(result.modified_range, Some(Range::new(at(start), at(start))));
    assert_eq!(result.new_cursor, Some(at(start)));
    assert_eq!(result.message, None);
}

#[test]
fn delete_of_a_missing_index_fails_and_changes_nothing() {
    let mut doc = document();
    let error = DeleteEventCommand::new(9).execute(&mut doc).unwrap_err();
    assert_eq!(
        error,
        EditorError::CommandFailed { message: "Event index 9 not found".to_string() }
    );
    assert_eq!(doc.text(), SCRIPT);
}

#[test]
fn commands_fail_without_an_events_section() {
    let content = "[Script Info]\nDialogue: 0,a,b,c,d,0,0,0,,x\n";
    let expected = EditorError::CommandFailed { message: "No [Events] section found".to_string() };
    let mut doc = EditorDocument::from_content(content);
    assert_eq!(DeleteEventCommand::new(0).execute(&mut doc).unwrap_err(), expected);
    assert_eq!(ToggleEventTypeCommand::all().execute(&mut doc).unwrap_err(), expected);
    assert_eq!(BatchDeleteEventsCommand::new(vec![0]).execute(&mut doc).unwrap_err(), expected);
    let effect = EventEffectCommand::new(vec![], "x".to_string(), EffectOperation::Clear);
    assert_eq!(effect.execute(&mut doc).unwrap_err(), expected);
    assert_eq!(doc.text(), content);
}

#[test]
fn batch_delete_removes_each_listed_event_once() {
    let mut doc = document();
    let result = BatchDeleteEventsCommand::new(vec![2, 0, 2, 7]).execute(&mut doc).unwrap();
    let expected = SCRIPT.replacen(LINE0, "", 1).replacen(LINE2, "", 1);
    assert_eq!(doc.text(), expected);
    let start = SCRIPT.find(LINE0).unwrap();
    assert!(result.content_changed);
    assert_eq!(result.modified_range, Some(Range::new(at(start), at(start))));
    assert_eq!(result.new_cursor, Some(at(start)));
}

#[test]
fn batch_delete_of_unknown_indices_changes_nothing() {
    let mut doc = document();
    let result = BatchDeleteEventsCommand::new(vec![5, 6]).execute(&mut doc).unwrap();
    assert!(result.success && !result.content_changed);
    assert_eq!(result.modified_range, None);
    assert_eq!(doc.text(), SCRIPT);
}

#[test]
fn batch_delete_with_no_indices_succeeds_without_reading_the_script() {
    let mut doc = EditorDocument::from_content("no sections at all");
    let result = BatchDeleteEventsCommand::new(vec![]).execute(&mut doc).unwrap();
    assert!(result.success && !result.content_changed);
    assert_eq!(doc.text(), "no sections at all");
}

#[test]
fn toggle_switches_dialogue_and_comment() {
    let mut doc = document();
    let result = ToggleEventTypeCommand::all().execute(&mut doc).unwrap();
    let expected = SCRIPT
        .replacen(LINE0, &LINE0.replacen("Dialogue:", "Comment:", 1), 1)
        .replacen(LINE1, &LINE1.replacen("Comment:", "Dialogue:", 1), 1)
        .replacen(LINE2, &LINE2.replacen("Dialogue:", "Comment:", 1), 1);
    assert_eq!(doc.text(), expected);
    assert!(result.content_changed);
    assert_eq!(result.message.as_deref(), Some("Toggled type for 3 events"));
    let start0 = SCRIPT.find(LINE0).unwrap();
    let start2 = SCRIPT.find(LINE2).unwrap();
    // the furthest end is that of the last line, measured at its old start
    let end = start2 + LINE2.len() - 1 - 1;
    assert_eq!(result.modified_range, Some(Range::new(at(start0), at(end))));
    assert_eq!(result.new_cursor, Some(at(expected.len())));
}

#[test]
fn toggle_twice_restores_the_script() {
    let mut doc = document();
    let command = ToggleEventTypeCommand::new(vec![0, 1]);
    command.execute(&mut doc).unwrap();
    assert_ne!(doc.text(), SCRIPT);
    command.execute(&mut doc).unwrap();
    assert_eq!(doc.text(), SCRIPT);
}

#[test]
fn toggle_of_unknown_indices_reports_nothing_toggled() {
    let mut doc = document();
    let result = ToggleEventTypeCommand::single(3).execute(&mut doc).unwrap();
    assert!(result.success && !result.content_changed);
    assert_eq!(result.message.as_deref(), Some("No events were toggled"));
    assert_eq!(doc.text(), SCRIPT);
}

#[test]
fn toggle_constructors_and_description() {
    assert_eq!(ToggleEventTypeCommand::single(4).event_indices, vec![4]);
    assert!(ToggleEventTypeCommand::all().event_indices.is_empty());
    let command = ToggleEventTypeCommand::new(vec![1, 2]);
    assert_eq!(command.description(), "Toggle event type");
    let command = command.with_description("Swap".to_string());
    assert_eq!(command.description(), "Swap");
    assert_eq!(command.event_indices, vec![1, 2]);
}

#[test]
fn effect_append_keeps_the_other_fields() {
    let mut doc = document();
    let command = EventEffectCommand::new(vec![1], "fade".to_string(), EffectOperation::Append);
    let result = command.execute(&mut doc).unwrap();
    let new_line = "Comment: 0,0:00:05.00,0:00:10.00,Default,,0,0,0,Banner;30 fade,Note, with comma\n";
    assert_eq!(doc.text(), SCRIPT.replacen(LINE1, new_line, 1));
    assert_eq!(result.message.as_deref(), Some("Effect appended for 1 events"));
    let start = SCRIPT.find(LINE1).unwrap();
    assert_eq!(
        result.modified_range,
        Some(Range::new(at(start), at(start + new_line.len() - 1)))
    );
}

#[test]
fn effect_operations_on_an_empty_and_a_filled_effect() {
    let cases = [
        (EffectOperation::Replace, "Hello", "x", "x", "set"),
        (EffectOperation::Clear, "Note, with comma", "x", "", "cleared"),
        (EffectOperation::Prepend, "Note, with comma", "y", "y Banner;30", "prepended"),
        (EffectOperation::Append, "Hello", "z", "z", "appended"),
    ];
    for (operation, marker, effect, expected_effect, name) in cases {
        let index = if marker == "Hello" { 0 } else { 1 };
        let mut doc = document();
        let command = EventEffectCommand::new(vec![index], effect.to_string(), operation);
        let result = command.execute(&mut doc).unwrap();
        let text = doc.text();
        let line = text.lines().find(|l| l.ends_with(marker)).unwrap();
        let fields: Vec<&str> = line.splitn(10, ',').collect();
        assert_eq!(fields[8], expected_effect, "{name}");
        assert_eq!(
            result.message.as_deref(),
            Some(format!("Effect {name} for 1 events").as_str())
        );
    }
}

#[test]
fn effect_rewrites_the_type_with_one_space_and_passes_over_broken_lines() {
    let content = "[Events]\nDialogue:0,a,b,c,d,1,2,3,e,text\nComment:   broken\n";
    let mut doc = EditorDocument::from_content(content);
    let command = EventEffectCommand::new(vec![], "k".to_string(), EffectOperation::Replace);
    let result = command.execute(&mut doc).unwrap();
    assert_eq!(doc.text(), "[Events]\nDialogue: 0,a,b,c,d,1,2,3,k,text\nComment:   broken\n");
    assert_eq!(result.message.as_deref(), Some("Effect set for 1 events"));
    let mut untouched = EditorDocument::from_content("[Events]\nComment: only,two\n");
    let result = command.execute(&mut untouched).unwrap();
    assert_eq!(result.message.as_deref(), Some("No events were modified"));
    assert!(!result.content_changed);
}

#[test]
fn effect_description_and_memory() {
    let command = EventEffectCommand::new(vec![1, 2], "abc".to_string(), EffectOperation::Clear);
    assert_eq!(command.description(), "Modify event effect");
    assert_eq!(
        command.memory_usage(),
        std::mem::size_of::<EventEffectCommand>() + 2 * std::mem::size_of::<usize>() + 3
    );
}

#[test]
fn delete_descriptions_and_memory() {
    assert_eq!(DeleteEventCommand::new(0).description(), "Delete event");
    assert_eq!(
        DeleteEventCommand::new(0).memory_usage(),
        std::mem::size_of::<DeleteEventCommand>()
    );
    let batch = BatchDeleteEventsCommand::new(vec![1, 2, 3]);
    assert_eq!(batch.description(), "Delete multiple events");
    assert_eq!(
        batch.memory_usage(),
        std::mem::size_of::<BatchDeleteEventsCommand>() + 3 * std::mem::size_of::<usize>()
    );
}

#[test]
fn events_end_at_the_next_section_and_lines_may_end_with_crlf() {
    let content = "[Events]\r\nDialogue: 0,a,b,c,d,1,2,3,,one\r\n[Other]\r\nDialogue: 0,a,b,c,d,1,2,3,,two\r\n";
    let mut doc = EditorDocument::from_content(content);
    ToggleEventTypeCommand::all().execute(&mut doc).unwrap();
    assert_eq!(
        doc.text(),
        "[Events]\r\nComment: 0,a,b,c,d,1,2,3,,one\r\n[Other]\r\nDialogue: 0,a,b,c,d,1,2,3,,two\r\n"
    );
    let mut doc = EditorDocument::from_content(content);
    assert!(DeleteEventCommand::new(1).execute(&mut doc).is_err());
    DeleteEventCommand::new(0).execute(&mut doc).unwrap();
    assert_eq!(doc.text(), "[Events]\r\n[Other]\r\nDialogue: 0,a,b,c,d,1,2,3,,two\r\n");
}

#[test]
fn the_last_event_may_lack_a_line_break() {
    let content = "[Events]\nComment: 0,a,b,c,d,1,2,3,,end";
    let mut doc = EditorDocument::from_content(content);
    DeleteEventCommand::new(0).execute(&mut doc).unwrap();
    assert_eq!(doc.text(), "[Events]\n");
}

#[test]
fn count_messages_write_the_count_in_decimal() {
    assert_eq!(count_message("Toggled type for ", 0, " events"), "Toggled type for 0 events");
    assert_eq!(count_message("n=", 9, ""), "n=9");
    assert_eq!(count_message("", 10, "!"), "10!");
    assert_eq!(count_message("<", 1205, ">"), "<1205>");
    assert_eq!(count_message("", usize::MAX, ""), usize::MAX.to_string());
}
