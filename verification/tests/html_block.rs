use supramark_markdown::plugins::html::html_block::{HTMLSequence, HtmlBlockScanner, HtmlLine};

fn line(text: &str, empty: bool, indent: i32) -> HtmlLine {
    HtmlLine { text: text.to_owned(), empty, indent }
}

#[test]
fn literal_start_conditions() {
    assert_eq!(HtmlBlockScanner::get_literal_sequence(0, 4, "<script src=x>"), Some(0));
    assert_eq!(HtmlBlockScanner::get_literal_sequence(0, 4, "<PRE>"), Some(0));
    assert_eq!(HtmlBlockScanner::get_literal_sequence(0, 4, "<!-- note"), Some(1));
    assert_eq!(HtmlBlockScanner::get_literal_sequence(0, 4, "<?php echo 1; ?>"), Some(2));
    assert_eq!(HtmlBlockScanner::get_literal_sequence(0, 4, "<!DOCTYPE html>"), Some(3));
    assert_eq!(HtmlBlockScanner::get_literal_sequence(0, 4, "<![CDATA[ x"), Some(4));
    assert_eq!(HtmlBlockScanner::get_literal_sequence(0, 4, "<div>"), None);
    assert_eq!(HtmlBlockScanner::get_literal_sequence(0, 4, "<scripts>"), None);
    assert_eq!(HtmlBlockScanner::get_literal_sequence(0, 4, "x <!--"), None);
    assert_eq!(HtmlBlockScanner::get_literal_sequence(4, 4, "<!--"), None);
}

#[test]
fn only_type_seven_cannot_interrupt_a_paragraph() {
    assert_eq!(HtmlBlockScanner::check(0), Some(()));
    assert_eq!(HtmlBlockScanner::check(5), Some(()));
    assert_eq!(HtmlBlockScanner::check(6), None);
    let s = HTMLSequence::new(1);
    assert_eq!(s.open, "^<!--");
    assert_eq!(s.close, "-->");
    assert!(!s.ends_at_blank);
    assert!(HTMLSequence::new(6).ends_at_blank);
}

#[test]
fn comment_runs_through_blank_lines_to_its_end() {
    let lines = vec![line("<!-- a", false, 0), line("", true, 0), line("b -->", false, 0), line("after", false, 0)];
    assert_eq!(HtmlBlockScanner::run(1, &lines, 0, 4), 3);
    let one = vec![line("<!-- a -->", false, 0), line("x", false, 0)];
    assert_eq!(HtmlBlockScanner::run(1, &one, 0, 2), 1);
    let open = vec![line("<!-- a", false, 0), line("b", false, 0)];
    assert_eq!(HtmlBlockScanner::run(1, &open, 0, 2), 2);
}

#[test]
fn block_tag_ends_at_a_blank_or_dropped_line() {
    let lines = vec![line("<div>", false, 0), line("x", false, 0), line("", true, -1), line("y", false, 0)];
    assert_eq!(HtmlBlockScanner::run(5, &lines, 0, 4), 2);
    let dropped = vec![line("<!-- a", false, 0), line("lazy", false, -1), line("-->", false, 0)];
    assert_eq!(HtmlBlockScanner::run(1, &dropped, 0, 3), 1);
}
