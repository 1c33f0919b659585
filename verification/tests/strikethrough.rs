use supramark_markdown::plugins::extra::strikethrough::{
    scan_and_match, DelimRun, EmphMarker, InlineChild, StrikethroughScanner,
};

fn tilde(length: usize, open: bool, close: bool, at: usize) -> EmphMarker {
    EmphMarker { marker: '~', length, remaining: length, open, close, content_start: at, content_end: at + length }
}

#[test]
fn matching_run_wraps_the_content() {
    let mut children = vec![
        InlineChild::Node(1),
        InlineChild::Marker(tilde(2, true, false, 1)),
        InlineChild::Text("a".to_owned()),
        InlineChild::Node(2),
    ];
    let r = scan_and_match(&mut children, tilde(2, false, true, 5));
    match r {
        InlineChild::Strikethrough(inner) => {
            assert_eq!(inner.len(), 2);
            assert!(matches!(&inner[0], InlineChild::Text(t) if t == "a"));
            assert!(matches!(inner[1], InlineChild::Node(2)));
        },
        _ => panic!("expected a strikethrough"),
    }
    assert_eq!(children.len(), 1);
    assert!(matches!(children[0], InlineChild::Node(1)));
}

#[test]
fn lengths_must_match() {
    let mut children = vec![InlineChild::Marker(tilde(1, true, false, 0)), InlineChild::Text("a".to_owned())];
    let r = scan_and_match(&mut children, tilde(2, false, true, 2));
    assert!(matches!(r, InlineChild::Marker(m) if m.length == 2));
    assert_eq!(children.len(), 2);
}

#[test]
fn the_last_opener_wins() {
    let mut children = vec![
        InlineChild::Marker(tilde(1, true, false, 0)),
        InlineChild::Node(7),
        InlineChild::Marker(tilde(1, true, true, 2)),
        InlineChild::Node(8),
    ];
    let r = scan_and_match(&mut children, tilde(1, false, true, 4));
    assert!(matches!(r, InlineChild::Strikethrough(ref v) if v.len() == 1));
    assert_eq!(children.len(), 2);
}

#[test]
fn a_run_that_cannot_close_stays_a_marker() {
    let mut children = vec![InlineChild::Marker(tilde(1, true, false, 0))];
    let r = scan_and_match(&mut children, tilde(1, true, false, 1));
    assert!(matches!(r, InlineChild::Marker(_)));
    assert_eq!(children.len(), 1);
}

#[test]
fn long_runs_are_text() {
    let mut children: Vec<InlineChild> = Vec::new();
    let run = DelimRun { length: 3, can_open: true, can_close: true };
    let r = StrikethroughScanner::run("~~~a", run, 0, &mut children);
    match r {
        Some((InlineChild::Text(t), 3)) => assert_eq!(t, "~~~"),
        _ => panic!("expected text"),
    }
    let run = DelimRun { length: 1, can_open: false, can_close: false };
    assert!(matches!(StrikethroughScanner::run("~ a", run, 0, &mut children), Some((InlineChild::Text(_), 1))));
    assert!(StrikethroughScanner::run("a", run, 0, &mut children).is_none());
    assert!(StrikethroughScanner::check().is_none());
}

#[test]
fn scanner_matches_a_pair() {
    let mut children: Vec<InlineChild> = Vec::new();
    let open = DelimRun { length: 2, can_open: true, can_close: false };
    let (m, len) = StrikethroughScanner::run("~~a~~", open, 0, &mut children).unwrap();
    assert_eq!(len, 2);
    assert!(matches!(m, InlineChild::Marker(ref mk) if mk.open && mk.content_end == 2));
    children.push(m);
    children.push(InlineChild::Text("a".to_owned()));
    let close = DelimRun { length: 2, can_open: false, can_close: true };
    let (s, len) = StrikethroughScanner::run("~~", close, 3, &mut children).unwrap();
    assert_eq!(len, 2);
    assert!(matches!(s, InlineChild::Strikethrough(ref v) if v.len() == 1));
    assert!(children.is_empty());
}
