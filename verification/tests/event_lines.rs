use lib::editor::fields::{parse_event_line, EventType};
use lib::editor::lines::collect_event_lines;

#[test]
fn event_lines_are_numbered_in_order_within_the_events_section() {
    let content = "[Events]\nFormat: x\nDialogue: a\n\nComment: b\r\nOther: c\nComment: d\n[Fonts]\nDialogue: e\n";
    let lines = collect_event_lines(content).unwrap();
    let found: Vec<(usize, &str)> = lines.iter().map(|l| (l.index, l.line)).collect();
    assert_eq!(found, vec![(0, "Dialogue: a"), (1, "Comment: b"), (2, "Comment: d")]);
    let second = &lines[1];
    assert_eq!(&content[second.start..second.end], "Comment: b");
    assert_eq!(&content[second.start..second.end_with_newline], "Comment: b\r\n");
}

#[test]
fn no_events_section_is_an_error() {
    assert!(collect_event_lines("[Script Info]\nDialogue: x\n").is_err());
    assert!(collect_event_lines("").is_err());
    assert!(collect_event_lines("[Events]").unwrap().is_empty());
}

#[test]
fn fields_split_at_the_first_nine_commas() {
    let parsed = parse_event_line("Comment:  1,0:00:00.00,0:00:01.00,Sign,Me,10,20,30,fx,a, b").unwrap();
    assert_eq!(parsed.event_type, EventType::Comment);
    assert_eq!(
        parsed.fields,
        vec!["1", "0:00:00.00", "0:00:01.00", "Sign", "Me", "10", "20", "30", "fx", "a, b"]
    );
    assert!(parse_event_line("Dialogue: 1,2,3").is_none());
    assert!(parse_event_line("Format: 1,2,3,4,5,6,7,8,9,10").is_none());
}
