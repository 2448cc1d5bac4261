use swayless::names::{get_workspace_name, parse_workspace_name};

#[test]
fn name_on_first_output_is_the_tag() {
    assert_eq!(get_workspace_name("1", 0), "1");
    assert_eq!(get_workspace_name("9", 0), "9");
    assert_eq!(get_workspace_name("mail", 0), "mail");
}

#[test]
fn name_on_later_outputs_appends_superscript() {
    assert_eq!(get_workspace_name("1", 1), "1\u{00B2}");
    assert_eq!(get_workspace_name("2", 1), "2\u{00B2}");
    assert_eq!(get_workspace_name("3", 2), "3\u{00B3}");
    assert_eq!(get_workspace_name("7", 8), "7\u{2079}");
}

#[test]
fn name_ordinal_needing_two_digits() {
    // ordinal 9 renders 10 as two superscript digits
    assert_eq!(get_workspace_name("4", 9), "4\u{00B9}\u{2070}");
    // ordinal 11 renders 12
    assert_eq!(get_workspace_name("4", 11), "4\u{00B9}\u{00B2}");
}

#[test]
fn parse_inverts_the_rendering() {
    for ordinal in [0usize, 1, 2, 8, 9, 24, 98] {
        let name = get_workspace_name("5", ordinal);
        let (tag, parsed) = parse_workspace_name(&name);
        assert_eq!(tag, "5");
        assert_eq!(parsed, ordinal);
    }
}

#[test]
fn parse_of_plain_name_is_ordinal_zero() {
    let (tag, ordinal) = parse_workspace_name("3");
    assert_eq!(tag, "3");
    assert_eq!(ordinal, 0);
}

#[test]
fn parse_rejects_suffix_below_two() {
    // a single superscript one never comes from the renderer
    let (tag, ordinal) = parse_workspace_name("3\u{00B9}");
    assert_eq!(tag, "3\u{00B9}");
    assert_eq!(ordinal, 0);
}

#[test]
fn parse_of_pure_superscript_is_ordinal_zero() {
    // with nothing in front the suffix cannot be an ordinal marker
    let (tag, ordinal) = parse_workspace_name("\u{00B9}\u{00B2}");
    assert_eq!(tag, "\u{00B9}\u{00B2}");
    assert_eq!(ordinal, 0);
}

#[test]
fn parse_gives_up_on_an_oversized_suffix() {
    // a suffix encoding a number beyond any machine word is no ordinal
    let mut name = String::from("1");
    for _ in 0..25 {
        name.push('\u{2079}');
    }
    let (tag, ordinal) = parse_workspace_name(&name);
    assert_eq!(tag, name);
    assert_eq!(ordinal, 0);
}
