use lib::tags::{empty_override, DiagnosticKind};

/// Runs recovery for the backslash at byte `backslash` of `input`, with the cursors just
/// past it; returns the span, the offset and the cursors afterwards.
fn recover(input: &str, backslash: usize, start_pos: usize) -> (String, usize, usize, usize) {
    let chars: Vec<char> = input.chars().collect();
    let mut byte_pos = backslash + 1;
    let mut char_pos = input[..byte_pos].chars().count();
    let diagnostic = empty_override(
        input,
        start_pos,
        backslash,
        &mut byte_pos,
        &mut char_pos,
        &chars,
    );
    assert_eq!(diagnostic.kind, DiagnosticKind::EmptyOverride);
    (diagnostic.span.to_string(), diagnostic.offset, byte_pos, char_pos)
}

#[test]
fn a_following_backslash_is_left_for_the_next_tag() {
    assert_eq!(recover(r"\\b1", 0, 11), (r"\".to_string(), 11, 1, 1));
    assert_eq!(recover(r"\\\rOther", 1, 11), (r"\".to_string(), 12, 2, 2));
}

#[test]
fn a_trailing_backslash_covers_only_itself() {
    assert_eq!(recover(r"\b1\", 3, 11), (r"\".to_string(), 14, 4, 4));
}

#[test]
fn malformed_unicode_is_stepped_over_whole() {
    assert_eq!(recover(r"\字\b1", 0, 0), (r"\字".to_string(), 0, 4, 2));
    assert_eq!(recover(r"\🦀\fnArial", 0, 0), (r"\🦀".to_string(), 0, 5, 2));
    assert_eq!(recover(r"\\字\b1", 1, 0), (r"\字".to_string(), 1, 5, 3));
}

#[test]
fn recovery_lands_on_a_character_boundary_and_keeps_cursors_in_step() {
    for input in [r"\字\b1", r"\🦀\fnArial", r"\\字\b1", r"\é", r"\ab", "注释\\\\x"] {
        for (backslash, _) in input.match_indices('\\') {
            let (span, offset, byte_pos, char_pos) = recover(input, backslash, 7);
            assert!(input.is_char_boundary(byte_pos));
            assert!(input.is_char_boundary(offset - 7));
            assert!(input.contains(span.as_str()));
            assert_eq!(input[..byte_pos].chars().count(), char_pos);
        }
    }
}

#[test]
fn an_ascii_character_is_stepped_over() {
    assert_eq!(recover(r"\ab", 0, 3), (r"\a".to_string(), 3, 2, 2));
}
