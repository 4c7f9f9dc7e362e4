use lib::editor::commands::{
    BatchDeleteEventsCommand, DeleteEventCommand, EffectOperation, EventEffectCommand,
    ToggleEventTypeCommand,
};
use lib::editor::document::EditorDocument;
use lib::editor::fields::{parse_event_line, EventType};
use lib::editor::lines::collect_event_lines;

const SCRIPT: &str = "[Script Info]\nTitle: Test\n\n[Events]\nFormat: Layer, Start, End, Style, Name, MarginL, MarginR, MarginV, Effect, Text\nDialogue: 0,0:00:00.00,0:00:05.00,Default,,0,0,0,,Hello\nComment: 0,0:00:05.00,0:00:10.00,Default,,0,0,0,Banner;30,Note, with comma\nDialogue: 1,0:00:10.00,0:00:15.00,Default,Actor,0,0,0,,World 字\nComment: broken\n\n[Fonts]\nDialogue: not an event here\n";

fn event_texts(content: &str) -> Vec<String> {
    collect_event_lines(content)
        .unwrap()
        .iter()
        .map(|line| line.line.to_string())
        .collect()
}

fn run_delete(command: &DeleteEventCommand) -> String {
    let mut doc = EditorDocument::from_content(SCRIPT);
    command.execute(&mut doc).unwrap();
    doc.text()
}

fn run_batch(indices: Vec<usize>) -> String {
    let mut doc = EditorDocument::from_content(SCRIPT);
    BatchDeleteEventsCommand::new(indices).execute(&mut doc).unwrap();
    doc.text()
}

#[test]
fn toggle_changes_only_the_selected_event_texts() {
    let before = event_texts(SCRIPT);
    let mut doc = EditorDocument::from_content(SCRIPT);
    ToggleEventTypeCommand::new(vec![1, 3]).execute(&mut doc).unwrap();
    let after = event_texts(&doc.text());
    assert_eq!(after.len(), before.len());
    assert_eq!(after[0], before[0]);
    assert_eq!(after[1], before[1].replacen("Comment:", "Dialogue:", 1));
    assert_eq!(after[2], before[2]);
    assert_eq!(after[3], "Dialogue: broken");
}

#[test]
fn toggling_the_same_events_twice_gives_the_texts_back() {
    for indices in [vec![], vec![0], vec![3, 1], vec![9]] {
        let command = ToggleEventTypeCommand::new(indices);
        let mut doc = EditorDocument::from_content(SCRIPT);
        command.execute(&mut doc).unwrap();
        command.execute(&mut doc).unwrap();
        assert_eq!(event_texts(&doc.text()), event_texts(SCRIPT));
    }
}

#[test]
fn delete_removes_exactly_one_event_text() {
    let before = event_texts(SCRIPT);
    for index in 0..before.len() {
        let after = event_texts(&run_delete(&DeleteEventCommand::new(index)));
        let mut expected = before.clone();
        expected.remove(index);
        assert_eq!(after, expected);
    }
}

#[test]
fn batch_delete_keeps_the_unlisted_event_texts_in_order() {
    let before = event_texts(SCRIPT);
    let after = event_texts(&run_batch(vec![3, 0, 8]));
    assert_eq!(after, vec![before[1].clone(), before[2].clone()]);
}

#[test]
fn batch_delete_ignores_order_and_repeats() {
    assert_eq!(run_batch(vec![2, 0, 2, 0]), run_batch(vec![0, 2]));
    assert_eq!(run_batch(vec![3, 1]), run_batch(vec![1, 3, 3]));
}

#[test]
fn batch_of_one_does_what_a_single_delete_does() {
    for index in 0..4 {
        assert_eq!(run_batch(vec![index]), run_delete(&DeleteEventCommand::new(index)));
    }
}

#[test]
fn changed_effect_reads_back_with_the_other_fields_kept() {
    let cases = [
        (EffectOperation::Replace, "fx"),
        (EffectOperation::Clear, "fx"),
        (EffectOperation::Append, "more"),
        (EffectOperation::Prepend, "first"),
    ];
    let before = event_texts(SCRIPT);
    for (operation, effect) in cases {
        let mut doc = EditorDocument::from_content(SCRIPT);
        EventEffectCommand::new(vec![1, 2, 3], effect.to_string(), operation)
            .execute(&mut doc)
            .unwrap();
        let after = event_texts(&doc.text());
        assert_eq!(after.len(), before.len());
        assert_eq!(after[0], before[0]);
        assert_eq!(after[3], before[3]);
        for index in [1, 2] {
            let old = parse_event_line(&before[index]).unwrap();
            let new = parse_event_line(&after[index]).unwrap();
            assert_eq!(new.event_type, old.event_type);
            let current = old.fields[8];
            let expected = match operation {
                EffectOperation::Replace => effect.to_string(),
                EffectOperation::Clear => String::new(),
                EffectOperation::Append if current.is_empty() => effect.to_string(),
                EffectOperation::Append => format!("{current} {effect}"),
                EffectOperation::Prepend if current.is_empty() => effect.to_string(),
                EffectOperation::Prepend => format!("{effect} {current}"),
            };
            assert_eq!(new.fields[8], expected);
            for field in (0..10).filter(|&field| field != 8) {
                assert_eq!(new.fields[field], old.fields[field]);
            }
        }
        let comment = parse_event_line(&after[1]).unwrap();
        assert_eq!(comment.event_type, EventType::Comment);
    }
}

#[test]
fn setting_or_clearing_the_same_effect_twice_is_like_once() {
    for operation in [EffectOperation::Replace, EffectOperation::Clear] {
        let command = EventEffectCommand::new(vec![0, 1, 3], "Banner;5".to_string(), operation);
        let mut doc = EditorDocument::from_content(SCRIPT);
        command.execute(&mut doc).unwrap();
        let once = doc.text();
        command.execute(&mut doc).unwrap();
        assert_eq!(doc.text(), once);
    }
}

#[test]
fn toggling_switches_the_type_and_keeps_every_field() {
    let before = event_texts(SCRIPT);
    let mut doc = EditorDocument::from_content(SCRIPT);
    ToggleEventTypeCommand::all().execute(&mut doc).unwrap();
    let after = event_texts(&doc.text());
    for index in 0..3 {
        let old = parse_event_line(&before[index]).unwrap();
        let new = parse_event_line(&after[index]).unwrap();
        assert_ne!(new.event_type, old.event_type);
        assert_eq!(new.fields, old.fields);
    }
    assert!(parse_event_line(&after[3]).is_none());
}
