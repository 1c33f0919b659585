use supramark_markdown::plugins::extra::wikilink::{
    ends_inside_open_math_span, inside_math_span, is_escaped_byte, math_closer_follows, WikiLinkScanner,
};

fn run(src: &str) -> Option<(String, Option<String>, Option<String>, usize)> {
    WikiLinkScanner::run(src, 0, src.len(), None).map(|(w, n)| (w.target, w.section, w.label, n))
}

#[test]
fn plain_target() {
    assert_eq!(run("[[Page]] rest"), Some(("Page".to_owned(), None, None, 8)));
}

#[test]
fn target_section_and_label() {
    assert_eq!(
        run("[[Page#Intro|the intro]]"),
        Some(("Page".to_owned(), Some("Intro".to_owned()), Some("the intro".to_owned()), 24))
    );
    assert_eq!(run("[[#Top]]"), Some((String::new(), Some("Top".to_owned()), None, 8)));
    assert_eq!(run("[[a|b#c]]"), Some(("a".to_owned(), None, Some("b#c".to_owned()), 9)));
    assert_eq!(run("[[\u{4E2D}\u{6587}]]"), Some(("\u{4E2D}\u{6587}".to_owned(), None, None, 10)));
}

#[test]
fn degenerate_forms_are_not_links() {
    assert_eq!(run("[[]]"), None);
    assert_eq!(run("[[a|]]"), None);
    assert_eq!(run("[[a#]]"), None);
    assert_eq!(run("[[|label]]"), None);
    assert_eq!(run("[[foo"), None);
    assert_eq!(run("[[a]b]]"), None);
    assert_eq!(run("[[a[b]]"), None);
    assert_eq!(run("[[a\nb]]"), None);
    assert_eq!(run("[a]]"), None);
    assert!(WikiLinkScanner::check().is_none());
}

#[test]
fn content_must_end_before_the_inline_end() {
    let src = "[[abc]]";
    assert!(WikiLinkScanner::run(src, 0, 6, None).is_none());
    assert!(WikiLinkScanner::run(src, 0, 7, None).is_some());
}

#[test]
fn inline_math_wins() {
    let src = "$[[foo]]$";
    assert!(WikiLinkScanner::run(src, 1, src.len(), Some("$")).is_none());
    assert!(WikiLinkScanner::run(src, 1, src.len(), Some("x")).is_some());
    let no_closer = "$[[foo]] x";
    assert!(WikiLinkScanner::run(no_closer, 1, no_closer.len(), Some("$")).is_some());
}

#[test]
fn open_math_span_detection() {
    assert!(ends_inside_open_math_span(Some("a $b")));
    assert!(!ends_inside_open_math_span(Some("a $b$ c")));
    assert!(ends_inside_open_math_span(Some("a $b$ $c")));
    assert!(!ends_inside_open_math_span(Some("a $b\nc")));
    assert!(ends_inside_open_math_span(Some("$$")));
    assert!(!ends_inside_open_math_span(Some("plain")));
    assert!(!ends_inside_open_math_span(None));
}

#[test]
fn closer_detection() {
    assert!(math_closer_follows("ab$", 3, 0));
    assert!(!math_closer_follows("a\\$", 3, 0));
    assert!(!math_closer_follows("a\n$", 3, 0));
    assert!(!math_closer_follows("ab$", 2, 0));
    assert!(is_escaped_byte(b"a\\$", 2));
    assert!(!is_escaped_byte(b"a\\\\$", 3));
    assert!(inside_math_span(Some("$"), "[[x]]$", 6, 3));
    assert!(!inside_math_span(None, "[[x]]$", 6, 3));
}
