use supramark_markdown::plugins::extra::gfm_autolink::{autolink_split, is_code_node, push_link, push_text, AutolinkPiece};

#[test]
fn split_keeps_text_around_links() {
    let pieces = autolink_split("see www.example.com now", Some(10)).unwrap();
    assert_eq!(pieces.len(), 3);
    match &pieces[0] {
        AutolinkPiece::Text { content, span } => {
            assert_eq!(content, "see ");
            assert_eq!(*span, Some((10, 14)));
        },
        _ => panic!("expected text"),
    }
    match &pieces[1] {
        AutolinkPiece::Link { url, display, span } => {
            assert_eq!(url, "http://www.example.com");
            assert_eq!(display, "www.example.com");
            assert_eq!(*span, Some((14, 29)));
        },
        _ => panic!("expected a link"),
    }
    match &pieces[2] {
        AutolinkPiece::Text { content, span } => {
            assert_eq!(content, " now");
            assert_eq!(*span, Some((29, 33)));
        },
        _ => panic!("expected text"),
    }
}

#[test]
fn split_email_and_url() {
    let pieces = autolink_split("foo@bar.baz, https://x.org/a.", None).unwrap();
    let shown: Vec<String> = pieces
        .iter()
        .map(|p| match p {
            AutolinkPiece::Text { content, .. } => format!("T:{content}"),
            AutolinkPiece::Link { url, display, .. } => format!("L:{url}|{display}"),
        })
        .collect();
    assert_eq!(
        shown,
        vec![
            "L:mailto:foo@bar.baz|foo@bar.baz".to_owned(),
            "T:, ".to_owned(),
            "L:https://x.org/a|https://x.org/a".to_owned(),
            "T:.".to_owned(),
        ]
    );
}

#[test]
fn split_without_links_is_none() {
    assert!(autolink_split("no links here", None).is_none());
    assert!(autolink_split("a@b@c", None).is_none());
    assert!(autolink_split("", Some(3)).is_none());
}

#[test]
fn code_nodes_are_recognised_by_name() {
    assert!(is_code_node("markdown::CodeInline"));
    assert!(is_code_node("CodeFence"));
    assert!(is_code_node("x::CodeBlock"));
    assert!(!is_code_node("Text"));
}

#[test]
fn pushed_links_fall_back_to_text_when_refused() {
    let mut out = Vec::new();
    push_text(&mut out, "a ", None);
    push_link(&mut out, Some("http://x.org".to_owned()), "x.org", Some((2, 7)));
    push_link(&mut out, None, "javascript:x", None);
    assert_eq!(out.len(), 3);
    assert!(matches!(&out[1], AutolinkPiece::Link { url, display, .. } if url == "http://x.org" && display == "x.org"));
    assert!(matches!(&out[2], AutolinkPiece::Text { content, .. } if content == "javascript:x"));
}

#[test]
fn split_spans_tile_the_run_without_empty_text() {
    let run = "a@b.co www.x.org, http://y.io/z x";
    let pieces = autolink_split(run, Some(5)).unwrap();
    assert!(!pieces.is_empty());
    let mut at = 5;
    for p in &pieces {
        let (lo, hi) = match p {
            AutolinkPiece::Text { content, span } => {
                assert!(!content.is_empty());
                span.unwrap()
            },
            AutolinkPiece::Link { span, .. } => span.unwrap(),
        };
        assert_eq!(lo, at);
        at = hi;
    }
    assert_eq!(at, 5 + run.len());
}
