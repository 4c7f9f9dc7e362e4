use lib::tags::split_color_name;

/// Scans the ASCII letters and digits of a tag name after the backslash at `backslash`
/// and splits it as a tag parser does; returns the name and what follows up to the next
/// backslash, and the character cursor after the split.
fn scan(input: &str, backslash: usize) -> (String, String, usize) {
    let bytes = input.as_bytes();
    let name_start = backslash + 1;
    let mut byte_pos = name_start;
    while byte_pos < bytes.len() && bytes[byte_pos].is_ascii_alphanumeric() {
        byte_pos += 1;
    }
    let mut char_pos = input[..byte_pos].chars().count();
    split_color_name(input, name_start, &mut char_pos, &mut byte_pos);
    let rest_end = input[byte_pos..]
        .find('\\')
        .map_or(input.len(), |i| byte_pos + i);
    (
        input[name_start..byte_pos].to_string(),
        input[byte_pos..rest_end].to_string(),
        char_pos,
    )
}

#[test]
fn color_names_stop_before_hexadecimal_arguments() {
    for name in ["c", "1c", "2c", "3c", "4c", "alpha", "1a", "2a", "3a", "4a"] {
        for arg in ["FF", "ff", "A0", "0A", "FFFFFFF", "&HAB&", "H", "lhpa", ""] {
            let input = format!("\\{name}{arg}\\fnArial");
            let (scanned, rest, char_pos) = scan(&input, 0);
            assert_eq!(scanned, name, "{input}");
            assert_eq!(rest, arg, "{input}");
            assert_eq!(char_pos, 1 + name.len(), "{input}");
            let (following, following_rest, _) = scan(&input, input.rfind('\\').unwrap());
            assert_eq!((following.as_str(), following_rest.as_str()), ("fnArial", ""));
        }
    }
}

#[test]
fn clip_and_other_names_are_left_whole() {
    let input = r"\clip(1,2,3,4)\iclip(1,2,3,4)\frz45\fscx120\unknown42";
    let starts: Vec<usize> = input.match_indices('\\').map(|(i, _)| i).collect();
    let names: Vec<String> = starts.iter().map(|&s| scan(input, s).0).collect();
    assert_eq!(names, vec!["clip", "iclip", "frz45", "fscx120", "unknown42"]);
}

#[test]
fn split_moves_both_cursors_back_by_the_argument_length() {
    let input = "注释\\alphaFF";
    let name_start = "注释\\".len();
    let mut byte_pos = input.len();
    let mut char_pos = input.chars().count();
    split_color_name(input, name_start, &mut char_pos, &mut byte_pos);
    assert_eq!(byte_pos, name_start + 5);
    assert_eq!(char_pos, 3 + 5);
    assert_eq!(&input[name_start..byte_pos], "alpha");
}

#[test]
fn splitting_twice_changes_nothing_more() {
    let input = "\\3cH00FF00";
    let mut byte_pos = input.len();
    let mut char_pos = byte_pos;
    split_color_name(input, 1, &mut char_pos, &mut byte_pos);
    assert_eq!((byte_pos, char_pos), (3, 3));
    split_color_name(input, 1, &mut char_pos, &mut byte_pos);
    assert_eq!((byte_pos, char_pos), (3, 3));
}

#[test]
fn names_without_a_color_prefix_are_unchanged() {
    for name in ["b", "fn", "blur", "cl", "4", "5c", "al"] {
        let input = format!("\\{name}");
        let mut byte_pos = input.len();
        let mut char_pos = byte_pos;
        split_color_name(&input, 1, &mut char_pos, &mut byte_pos);
        let expected = if name == "cl" { 2 } else { input.len() };
        assert_eq!(byte_pos, expected, "{name}");
    }
}
