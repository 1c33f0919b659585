use supramark_markdown::supramark::inline_text::{map_inline_text, rescan_adjacent_text_runs};
use supramark_markdown::supramark::node::SupramarkNode;
use supramark_markdown::supramark::offsets::OffsetIndex;
use supramark_markdown::supramark::reassemble::reassemble_split_footnote_refs;
use supramark_markdown::SourcePosition;

fn span(index: &OffsetIndex, lo: usize, hi: usize) -> Option<SourcePosition> {
    Some(SourcePosition { start: index.point_at(lo), end: index.point_at(hi) })
}

fn byte_span(n: &SupramarkNode) -> Option<(usize, usize)> {
    let p = match n {
        SupramarkNode::Text { position, .. } => position,
        SupramarkNode::MathInline { position, .. } => position,
        SupramarkNode::FootnoteReference { position, .. } => position,
        _ => return None,
    };
    p.map(|p| (p.start.byte_offset, p.end.byte_offset))
}

fn text_at(index: &OffsetIndex, v: &str, lo: usize, hi: usize) -> SupramarkNode {
    SupramarkNode::Text { value: v.to_string(), position: span(index, lo, hi) }
}

#[test]
fn splits_inline_math_and_footnote_references() {
    let src = "Inline $E = mc^2$ text[^note].";
    let index = OffsetIndex::new(src);
    let nodes = map_inline_text(src, span(&index, 0, src.len()), &index);
    assert_eq!(nodes.len(), 5);
    assert_eq!(nodes[0], text_at(&index, "Inline ", 0, 7));
    assert_eq!(nodes[1], SupramarkNode::MathInline { value: "E = mc^2".to_string(), position: span(&index, 7, 17) });
    assert_eq!(nodes[2], text_at(&index, " text", 17, 22));
    assert_eq!(
        nodes[3],
        SupramarkNode::FootnoteReference {
            index: 0,
            label: "note".to_string(),
            identifier: "note".to_string(),
            position: span(&index, 22, 29),
        }
    );
    assert_eq!(nodes[4], text_at(&index, ".", 29, 30));
}

#[test]
fn finds_every_math_run() {
    let src = "Inline $E = mc^2$ and $A = \\pi r^2$.";
    let index = OffsetIndex::new(src);
    let nodes = map_inline_text(src, span(&index, 0, src.len()), &index);
    let math: Vec<&str> = nodes
        .iter()
        .filter_map(|n| match n {
            SupramarkNode::MathInline { value, .. } => Some(value.as_str()),
            _ => None,
        })
        .collect();
    assert_eq!(math, vec!["E = mc^2", "A = \\pi r^2"]);
}

#[test]
fn footnote_label_is_normalized_into_its_identifier() {
    let src = "x[^  My   Note ]";
    let index = OffsetIndex::new(src);
    let nodes = map_inline_text(src, span(&index, 0, src.len()), &index);
    assert_eq!(nodes.len(), 2);
    assert_eq!(
        nodes[1],
        SupramarkNode::FootnoteReference {
            index: 0,
            label: "  My   Note ".to_string(),
            identifier: "my note".to_string(),
            position: span(&index, 1, 16),
        }
    );
}

#[test]
fn text_without_a_matching_span_stays_whole() {
    let src = "a :smile: $x$";
    let index = OffsetIndex::new(src);
    let nodes = map_inline_text(src, None, &index);
    assert_eq!(nodes, vec![SupramarkNode::Text { value: "a \u{1F604} $x$".to_string(), position: None }]);

    let short = span(&index, 0, 3);
    let nodes = map_inline_text(src, short, &index);
    assert_eq!(nodes, vec![SupramarkNode::Text { value: "a \u{1F604} $x$".to_string(), position: short }]);

    let empty = map_inline_text("", span(&index, 0, 0), &index);
    assert_eq!(empty, vec![SupramarkNode::Text { value: String::new(), position: span(&index, 0, 0) }]);
}

#[test]
fn plain_pieces_get_emoji_replaced() {
    let src = ":smile: $x$ :joy:";
    let index = OffsetIndex::new(src);
    let nodes = map_inline_text(src, span(&index, 0, src.len()), &index);
    assert_eq!(nodes.len(), 3);
    assert_eq!(nodes[0], text_at(&index, "\u{1F604} ", 0, 8));
    assert_eq!(nodes[2], text_at(&index, " \u{1F602}", 11, 17));
}

fn html(v: &str, index: &OffsetIndex, lo: usize, hi: usize) -> SupramarkNode {
    SupramarkNode::Raw { format: "html".to_string(), value: v.to_string(), block: false, position: span(index, lo, hi) }
}

#[test]
fn reassembles_footnote_ref_split_by_raw_html() {
    let src = "Hi[^\"><script>alert(1)</script>] tail\n";
    let index = OffsetIndex::new(src);
    let nodes = vec![
        text_at(&index, "Hi[^\">", 0, 6),
        html("<script>", &index, 6, 14),
        text_at(&index, "alert(1)", 14, 22),
        html("</script>", &index, 22, 31),
        text_at(&index, "] tail", 31, 37),
    ];
    let out = reassemble_split_footnote_refs(nodes, &index);
    assert_eq!(out.len(), 3);
    assert_eq!(out[0], text_at(&index, "Hi", 0, 2));
    assert_eq!(
        out[1],
        SupramarkNode::FootnoteReference {
            index: 0,
            label: "\"><script>alert(1)</script>".to_string(),
            identifier: "\"><script>alert(1)</script>".to_string(),
            position: span(&index, 2, 32),
        }
    );
    assert_eq!(byte_span(&out[1]), Some((2, 32)));
    assert_eq!(out[2], text_at(&index, " tail", 32, 37));
}

#[test]
fn unclosed_reference_is_left_alone() {
    let src = "a[^x<b>y";
    let index = OffsetIndex::new(src);
    let nodes = || vec![text_at(&index, "a[^x", 0, 4), html("<b>", &index, 4, 7), text_at(&index, "y", 7, 8)];
    let out = reassemble_split_footnote_refs(nodes(), &index);
    assert_eq!(out, nodes());

    let blocked = || {
        vec![text_at(&index, "a[^x", 0, 4), SupramarkNode::Break { position: None }, text_at(&index, "]", 7, 8)]
    };
    let out = reassemble_split_footnote_refs(blocked(), &index);
    assert_eq!(out, blocked());
}

#[test]
fn adjacent_text_runs_are_rescanned_together() {
    let src = "Inline $E = mc^2$ x";
    let index = OffsetIndex::new(src);
    let nodes = vec![text_at(&index, "Inline $E", 0, 9), text_at(&index, " = mc^2$ x", 9, 19)];
    let out = rescan_adjacent_text_runs(nodes, &index);
    assert_eq!(
        out,
        vec![
            text_at(&index, "Inline ", 0, 7),
            SupramarkNode::MathInline { value: "E = mc^2".to_string(), position: span(&index, 7, 17) },
            text_at(&index, " x", 17, 19),
        ]
    );
}

#[test]
fn runs_break_at_gaps_and_other_nodes() {
    let src = "ab cd ef";
    let index = OffsetIndex::new(src);
    let nodes = vec![
        text_at(&index, "ab", 0, 2),
        text_at(&index, "cd", 3, 5),
        SupramarkNode::Break { position: None },
        SupramarkNode::Text { value: String::new(), position: None },
        text_at(&index, "e", 6, 7),
        text_at(&index, "f", 7, 8),
    ];
    let out = rescan_adjacent_text_runs(nodes, &index);
    assert_eq!(
        out,
        vec![
            text_at(&index, "ab", 0, 2),
            text_at(&index, "cd", 3, 5),
            SupramarkNode::Break { position: None },
            text_at(&index, "ef", 6, 8),
        ]
    );
}
