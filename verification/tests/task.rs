use supramark_markdown::supramark::task::strip_task_marker_from_text;

fn strip(input: &str) -> (Option<bool>, String) {
    let mut s = input.to_owned();
    let r = strip_task_marker_from_text(&mut s);
    (r, s)
}

#[test]
fn task_marker_separator_is_consumed() {
    assert_eq!(strip("[ ] foo"), (Some(false), "foo".to_owned()));
    assert_eq!(strip("[ ]\tfoo"), (Some(false), "foo".to_owned()));
    assert_eq!(strip("[ ]  foo"), (Some(false), "foo".to_owned()));
    assert_eq!(strip("[x] bar"), (Some(true), "bar".to_owned()));
    assert_eq!(strip("[X] bar"), (Some(true), "bar".to_owned()));
}

#[test]
fn task_marker_needs_a_separator() {
    assert_eq!(strip("[ ]foo"), (None, "[ ]foo".to_owned()));
    assert_eq!(strip("[x]"), (None, "[x]".to_owned()));
    assert_eq!(strip("[y] a"), (None, "[y] a".to_owned()));
    assert_eq!(strip("x [ ] a"), (None, "x [ ] a".to_owned()));
}

#[test]
fn leading_white_space_is_kept() {
    assert_eq!(strip("  [x] a b"), (Some(true), "  a b".to_owned()));
    assert_eq!(strip("[ ] \n"), (Some(false), "\n".to_owned()));
}
