use supramark_markdown::supramark::inline_ext::{
    find_closing_math_delimiter, find_next_inline_extension, find_unclosed_footnote_open, inline_extension_scan_needed,
    is_escaped, InlineExtension, InlineExtensionKind,
};

#[test]
fn finds_inline_math() {
    let e = find_next_inline_extension("a $x+y$ b", 0).unwrap();
    assert_eq!(e, InlineExtension { start: 2, kind: InlineExtensionKind::Math { content_start: 3, end: 6 } });
}

#[test]
fn empty_math_is_skipped() {
    // `$$` has no content; the second `$` opens a span closed by the third.
    let e = find_next_inline_extension("$$x$", 0).unwrap();
    assert_eq!(e, InlineExtension { start: 1, kind: InlineExtensionKind::Math { content_start: 2, end: 3 } });
}

#[test]
fn escaped_dollar_opens_nothing() {
    assert_eq!(find_next_inline_extension("\\$x$", 0), None);
    assert!(is_escaped("\\$", 1));
    assert!(!is_escaped("\\\\$", 2));
    assert!(is_escaped("\\\\\\$", 3));
}

#[test]
fn math_does_not_cross_lines() {
    assert_eq!(find_closing_math_delimiter("ab\nc$", 0), None);
    assert_eq!(find_closing_math_delimiter("ab$c$", 0), Some(2));
    assert_eq!(find_closing_math_delimiter("a\\$b$", 0), Some(4));
    assert_eq!(find_next_inline_extension("$a\nb$", 0), None);
}

#[test]
fn finds_footnote_reference() {
    let e = find_next_inline_extension("see [^note] here", 0).unwrap();
    assert_eq!(e, InlineExtension { start: 4, kind: InlineExtensionKind::Footnote { label_start: 6, end: 10 } });
    assert_eq!(find_next_inline_extension("[^]", 0), None);
    assert_eq!(find_next_inline_extension("\\[^a]", 0), None);
}

#[test]
fn scan_starts_at_the_given_offset() {
    let e = find_next_inline_extension("$a$ $b$", 3).unwrap();
    assert_eq!(e.start, 4);
}

#[test]
fn scan_needed_only_for_dollar_or_caret_bracket() {
    assert!(inline_extension_scan_needed("cost $5"));
    assert!(inline_extension_scan_needed("a [^1]"));
    assert!(!inline_extension_scan_needed("a [1] ^"));
}

#[test]
fn unclosed_footnote_open() {
    assert_eq!(find_unclosed_footnote_open("see [^lab"), Some(("see ", "lab")));
    assert_eq!(find_unclosed_footnote_open("see [^lab]"), None);
    assert_eq!(find_unclosed_footnote_open("[^a] [^b"), Some(("[^a] ", "b")));
    assert_eq!(find_unclosed_footnote_open("no ref"), None);
}
