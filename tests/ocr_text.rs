use protean::ocr::join_recognized_text;

fn lines(v: &[&[&str]]) -> Vec<Vec<String>> {
    v.iter().map(|l| l.iter().map(|w| w.to_string()).collect()).collect()
}

#[test]
fn joins_words_and_lines_with_spaces() {
    assert_eq!(join_recognized_text(&lines(&[&["VS.", "Wild"], &["PIDGEY"]])), "VS. Wild PIDGEY");
}

#[test]
fn no_lines_give_empty_text() {
    assert_eq!(join_recognized_text(&Vec::new()), "");
    assert_eq!(join_recognized_text(&lines(&[&[], &[]])), "");
}

#[test]
fn empty_line_in_the_middle_leaves_two_spaces() {
    assert_eq!(join_recognized_text(&lines(&[&["a"], &[], &["b"]])), "a  b");
}

#[test]
fn surrounding_white_space_is_trimmed() {
    assert_eq!(join_recognized_text(&lines(&[&[" a\t"], &["b "]])), "a\t b");
}
