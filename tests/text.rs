use unescape_newlines::text::{convert_content, replace_escapes, split_lines};

#[test]
fn single_line_with_escape_becomes_two_lines() {
    assert_eq!(convert_content("hello\\nworld"), "hello\nworld\n");
}

#[test]
fn each_line_gets_one_newline_in_order() {
    assert_eq!(convert_content("a\\nb\nc\nd\\n"), "a\nb\nc\nd\n\n");
}

#[test]
fn final_newline_adds_no_extra_line() {
    assert_eq!(convert_content("one\ntwo\n"), "one\ntwo\n");
    assert_eq!(convert_content("one\ntwo"), "one\ntwo\n");
}

#[test]
fn empty_content_gives_empty_output() {
    assert_eq!(convert_content(""), "");
}

#[test]
fn blank_lines_are_kept() {
    assert_eq!(convert_content("\n"), "\n");
    assert_eq!(convert_content("a\n\nb"), "a\n\nb\n");
}

#[test]
fn carriage_return_before_newline_is_kept() {
    assert_eq!(convert_content("x\r\ny\r\n"), "x\r\ny\r\n");
    assert_eq!(convert_content("a\r\nb"), "a\r\nb\n");
    assert_eq!(convert_content("\r\n"), "\r\n");
    assert_eq!(convert_content("x\ry"), "x\ry\n");
}

#[test]
fn line_without_escape_is_unchanged() {
    assert_eq!(replace_escapes("plain \\t text \\ n"), "plain \\t text \\ n");
    assert_eq!(convert_content("plain \\t text"), "plain \\t text\n");
}

#[test]
fn escapes_replaced_left_to_right() {
    assert_eq!(replace_escapes("\\n\\n"), "\n\n");
    assert_eq!(replace_escapes("\\\\n"), "\\\n");
    assert_eq!(replace_escapes("a\\"), "a\\");
    assert_eq!(replace_escapes("n\\"), "n\\");
}

#[test]
fn escape_next_to_non_ascii() {
    assert_eq!(replace_escapes("é\\nü"), "é\nü");
}

#[test]
fn split_lines_follows_newlines() {
    assert_eq!(split_lines("a\nb\r\n\nc"), vec!["a", "b\r", "", "c"]);
    assert_eq!(split_lines(""), Vec::<String>::new());
    assert_eq!(split_lines("x\n"), vec!["x"]);
}

#[test]
fn converting_twice_changes_nothing() {
    for c in ["\r\\n", "a\\\\nb\nc\\", "x\r\ny", "\\n\\n\n", ""] {
        let once = convert_content(c);
        assert_eq!(convert_content(&once), once);
    }
    assert_eq!(convert_content("\r\\n"), "\r\n\n");
}

#[test]
fn output_newlines_count_lines_and_escapes() {
    let out = convert_content("a\\nb\\nc\nd\n\\n");
    assert_eq!(out, "a\nb\nc\nd\n\n\n");
    assert_eq!(out.matches('\n').count(), 3 + 3);
    assert!(out.ends_with('\n'));
}
