use comparer_rust::process_str;

#[test]
fn empty_stays_empty() {
    assert_eq!(process_str(""), "");
}

#[test]
fn trailing_spaces_per_line_are_trimmed() {
    assert_eq!(process_str("5 \n"), "5\n");
}

#[test]
fn trailing_blank_lines_collapse() {
    assert_eq!(process_str("5\n\n\n"), "5\n");
}

#[test]
fn final_line_without_newline_gains_one() {
    assert_eq!(process_str("a"), "a\n");
}

#[test]
fn inner_whitespace_is_kept() {
    assert_eq!(process_str("a\r\n b \nx"), "a\n b\nx\n");
}

#[test]
fn all_blank_input_becomes_one_newline() {
    assert_eq!(process_str("  "), "\n");
    assert_eq!(process_str("\n\n"), "\n");
}

#[test]
fn unicode_trailing_whitespace_is_trimmed_too() {
    assert_eq!(process_str("a\u{a0}\n"), "a\n");
    assert_eq!(process_str("b\u{3000}"), "b\n");
}

#[test]
fn normalizing_twice_equals_normalizing_once() {
    for s in ["", "5 \n", "5\n\n\n", "a\r\n b \nx", "  ", "x \t\ny\n\n", "one\ntwo"] {
        let once = process_str(s);
        let twice = process_str(&once);
        assert_eq!(once, twice);
    }
}
