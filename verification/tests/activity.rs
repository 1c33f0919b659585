use supramark_markdown::layout::activity::{
    apply_partition_render_order, classify_activity_table_lines, collect_unclosed_creole_prefix,
    resolve_swimlane_index, split_label_lines, ActivityTableKind,
};

#[test]
fn unclosed_creole_styles_are_carried() {
    assert_eq!(collect_unclosed_creole_prefix("<b>bold <back:red>x"), "<b><back:red>");
    assert_eq!(collect_unclosed_creole_prefix("<B>x</b>"), "");
    assert_eq!(collect_unclosed_creole_prefix("<b><i>x</i>"), "<b>");
    assert_eq!(collect_unclosed_creole_prefix("<I>x"), "<i>");
    assert_eq!(collect_unclosed_creole_prefix("<color:#FF0000>a <size:12>b</color>"), "<size:12>");
    assert_eq!(collect_unclosed_creole_prefix("<font:Mono"), "");
    assert_eq!(collect_unclosed_creole_prefix("plain text"), "");
}

#[test]
fn creole_scan_handles_multibyte_text() {
    let words = ["\u{4E2D}\u{6587}\u{6807}\u{7B7E}"; 4].join(" ");
    assert_eq!(collect_unclosed_creole_prefix(&format!("<b>{words}")), "<b>");
    assert_eq!(collect_unclosed_creole_prefix(&words), "");
    assert_eq!(collect_unclosed_creole_prefix("\u{4E2D}<u>\u{6587}"), "<u>");
}

#[test]
fn closing_tag_closes_the_latest_of_its_kind() {
    assert_eq!(collect_unclosed_creole_prefix("<back:red><b><back:blue></back>"), "<back:red><b>");
    assert_eq!(collect_unclosed_creole_prefix("</b><s>"), "<s>");
}

#[test]
fn single_column_table() {
    match classify_activity_table_lines(&["| a |", "", "|b|"]) {
        Some(ActivityTableKind::SingleColumn { rows }) => assert_eq!(rows, vec!["a".to_owned(), "b".to_owned()]),
        _ => panic!("expected a single-column table"),
    }
}

#[test]
fn multi_column_and_non_tables() {
    assert!(matches!(classify_activity_table_lines(&["|a|b|", "text"]), Some(ActivityTableKind::MultiColumn)));
    assert!(classify_activity_table_lines(&["|a|", "text"]).is_none());
    assert!(classify_activity_table_lines(&["text"]).is_none());
    assert!(classify_activity_table_lines(&["||", "|"]).is_none());
    assert!(classify_activity_table_lines(&[]).is_none());
}

#[test]
fn swimlane_lookup() {
    let lanes = vec!["A".to_owned(), "B".to_owned(), "B".to_owned()];
    assert_eq!(resolve_swimlane_index(&lanes, "B"), 1);
    assert_eq!(resolve_swimlane_index(&lanes, "A"), 0);
    assert_eq!(resolve_swimlane_index(&lanes, "C"), 0);
}

#[test]
fn label_lines() {
    assert_eq!(split_label_lines("a\\nb\\n"), vec!["a".to_owned(), "b".to_owned(), String::new()]);
    assert_eq!(split_label_lines("one line"), vec!["one line".to_owned()]);
    assert_eq!(split_label_lines(""), vec![String::new()]);
    assert_eq!(split_label_lines("a\nb"), vec!["a\nb".to_owned()]);
    assert_eq!(split_label_lines("a\\\\nb"), vec!["a\\".to_owned(), "b".to_owned()]);
}

#[test]
fn partition_frames_move_before_their_content() {
    // nodes: 0 start, 1 partition frame, 2 and 3 inside, 4 stop
    assert_eq!(apply_partition_render_order(vec![0, 1, 2, 3, 4], &[(2, 1)]), vec![0, 1, 2, 3, 4]);
    assert_eq!(apply_partition_render_order(vec![0, 2, 3, 1, 4], &[(2, 1)]), vec![0, 1, 2, 3, 4]);
    assert_eq!(apply_partition_render_order(vec![3, 4, 5], &[]), vec![3, 4, 5]);
    assert_eq!(apply_partition_render_order(vec![0, 1, 2], &[(1, 5), (1, 6)]), vec![0, 6, 5, 1, 2]);
    // Frames opened back to back at the same node: both move, outer first.
    assert_eq!(apply_partition_render_order(vec![0, 1, 2], &[(0, 1), (0, 2)]), vec![2, 1, 0]);
}

use supramark_markdown::layout::activity::{assign_note_modes, ActivityNoteModeLayout, NoteRuleKind};

#[test]
fn notes_after_a_flow_node_are_single_or_grouped() {
    let (f, n, o) = (NoteRuleKind::Flow, NoteRuleKind::Note, NoteRuleKind::Other);
    let modes = assign_note_modes(&[f, n, f, n, n, o, n, f]);
    assert_eq!(
        modes,
        vec![
            None,
            Some(ActivityNoteModeLayout::Single),
            None,
            Some(ActivityNoteModeLayout::Grouped),
            Some(ActivityNoteModeLayout::Grouped),
            None,
            None,
            None,
        ]
    );
    assert_eq!(assign_note_modes(&[]), Vec::<Option<ActivityNoteModeLayout>>::new());
}
