use supramark_markdown::supramark::footnote::{
    assign_footnote_label, join_words, normalize_footnote_identifier, FootnoteLabels,
};

#[test]
fn identifiers_collapse_white_space_and_lower_case() {
    assert_eq!(normalize_footnote_identifier("  Foo   Bar "), "foo bar");
    assert_eq!(normalize_footnote_identifier("A\tB\nC"), "a b c");
    assert_eq!(normalize_footnote_identifier("\u{00C9}t\u{00C9}"), "\u{00E9}t\u{00E9}");
    assert_eq!(join_words("  x  y  "), "x y");
    assert_eq!(join_words("\u{3000}a\u{00A0}b"), "a b");
}

#[test]
fn labels_are_numbered_in_order_of_first_appearance() {
    let mut labels = FootnoteLabels::new();
    let mut next: u32 = 1;
    assign_footnote_label("b", &mut labels, &mut next);
    assign_footnote_label("a", &mut labels, &mut next);
    assign_footnote_label("b", &mut labels, &mut next);
    assert_eq!(next, 3);
    assert_eq!(labels.get("b"), Some(1));
    assert_eq!(labels.get("a"), Some(2));
    assert_eq!(labels.get("c"), None);
}
