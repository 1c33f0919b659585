use supramark_markdown::supramark::node::{
    assign_footnote_indices, collect_diagnostics, sanitize_raw_html, strip_task_marker, Diagnostic, SupramarkNode,
};
use supramark_markdown::DiagnosticSeverity;

fn text(v: &str) -> SupramarkNode {
    SupramarkNode::Text { value: v.to_string(), position: None }
}

fn para(children: Vec<SupramarkNode>) -> SupramarkNode {
    SupramarkNode::Paragraph { children, position: None }
}

fn reference(label: &str) -> SupramarkNode {
    SupramarkNode::FootnoteReference { index: 0, label: label.to_string(), identifier: label.to_string(), position: None }
}

fn definition(label: &str, children: Vec<SupramarkNode>) -> SupramarkNode {
    SupramarkNode::FootnoteDefinition {
        index: 0,
        label: label.to_string(),
        identifier: label.to_string(),
        children,
        position: None,
    }
}

fn diag(code: &str) -> Diagnostic {
    Diagnostic {
        code: code.to_string(),
        severity: DiagnosticSeverity::Warning,
        message: format!("{code} message"),
        position: None,
        data: None,
    }
}

#[test]
fn task_marker_is_stripped_through_paragraphs() {
    let mut nodes = vec![para(vec![text("[x] done"), text(" more")])];
    assert_eq!(strip_task_marker(&mut nodes), Some(true));
    assert_eq!(nodes, vec![para(vec![text("done"), text(" more")])]);

    let mut unchecked = vec![text("[ ] todo")];
    assert_eq!(strip_task_marker(&mut unchecked), Some(false));
    assert_eq!(unchecked, vec![text("todo")]);
}

#[test]
fn no_task_marker_leaves_nodes_alone() {
    let mut nodes = vec![para(vec![text("[x]done")])];
    assert_eq!(strip_task_marker(&mut nodes), None);
    assert_eq!(nodes, vec![para(vec![text("[x]done")])]);

    let mut code = vec![SupramarkNode::InlineCode { value: "[x] a".to_string(), position: None }];
    assert_eq!(strip_task_marker(&mut code), None);

    let mut empty: Vec<SupramarkNode> = Vec::new();
    assert_eq!(strip_task_marker(&mut empty), None);
}

#[test]
fn diagnostics_are_collected_in_document_order() {
    let nodes = vec![
        SupramarkNode::Unsupported {
            syntax: "a".to_string(),
            reason: "r".to_string(),
            value: None,
            children: vec![SupramarkNode::Unsupported {
                syntax: "b".to_string(),
                reason: "r".to_string(),
                value: None,
                children: Vec::new(),
                diagnostics: vec![diag("inner")],
                position: None,
            }],
            diagnostics: vec![diag("outer")],
            position: None,
        },
        para(vec![SupramarkNode::Unsupported {
            syntax: "c".to_string(),
            reason: "r".to_string(),
            value: None,
            children: Vec::new(),
            diagnostics: vec![diag("nested")],
            position: None,
        }]),
        SupramarkNode::Link {
            url: "u".to_string(),
            title: None,
            children: vec![SupramarkNode::Unsupported {
                syntax: "d".to_string(),
                reason: "r".to_string(),
                value: None,
                children: Vec::new(),
                diagnostics: vec![diag("in_link")],
                position: None,
            }],
            position: None,
        },
    ];
    let mut out = vec![diag("first")];
    collect_diagnostics(&nodes, &mut out);
    let codes: Vec<&str> = out.iter().map(|d| d.code.as_str()).collect();
    assert_eq!(codes, vec!["first", "outer", "inner", "nested"]);
}

#[test]
fn raw_html_becomes_text_throughout() {
    let mut node = para(vec![
        SupramarkNode::Raw { format: "html".to_string(), value: "<b>".to_string(), block: false, position: None },
        SupramarkNode::Link {
            url: "u".to_string(),
            title: None,
            children: vec![SupramarkNode::Raw {
                format: "html".to_string(),
                value: "<i>".to_string(),
                block: false,
                position: None,
            }],
            position: None,
        },
        SupramarkNode::Raw { format: "tex".to_string(), value: "\\x".to_string(), block: true, position: None },
    ]);
    sanitize_raw_html(&mut node);
    assert_eq!(
        node,
        para(vec![
            text("<b>"),
            SupramarkNode::Link { url: "u".to_string(), title: None, children: vec![text("<i>")], position: None },
            SupramarkNode::Raw { format: "tex".to_string(), value: "\\x".to_string(), block: true, position: None },
        ])
    );
}

#[test]
fn footnotes_are_numbered_references_first() {
    let mut nodes = vec![
        definition("early", vec![para(vec![reference("inner")])]),
        para(vec![text("a"), reference("b"), reference("a"), reference("b")]),
        definition("a", Vec::new()),
        definition("b", vec![definition("nested", Vec::new())]),
    ];
    assign_footnote_indices(&mut nodes);
    let mut seen: Vec<(String, u32)> = Vec::new();
    fn walk(ns: &[SupramarkNode], seen: &mut Vec<(String, u32)>) {
        for n in ns {
            match n {
                SupramarkNode::FootnoteReference { identifier, index, .. } => seen.push((format!("ref:{identifier}"), *index)),
                SupramarkNode::FootnoteDefinition { identifier, index, children, .. } => {
                    seen.push((format!("def:{identifier}"), *index));
                    walk(children, seen);
                },
                SupramarkNode::Paragraph { children, .. } => walk(children, seen),
                _ => {},
            }
        }
    }
    walk(&nodes, &mut seen);
    let expected: Vec<(String, u32)> = vec![
        ("def:early".to_string(), 4),
        ("ref:inner".to_string(), 1),
        ("ref:b".to_string(), 2),
        ("ref:a".to_string(), 3),
        ("ref:b".to_string(), 2),
        ("def:a".to_string(), 3),
        ("def:b".to_string(), 2),
        ("def:nested".to_string(), 5),
    ];
    assert_eq!(seen, expected);
}

#[test]
fn footnotes_in_link_text_are_not_numbered() {
    let mut nodes = vec![SupramarkNode::Link {
        url: "u".to_string(),
        title: None,
        children: vec![reference("x")],
        position: None,
    }];
    assign_footnote_indices(&mut nodes);
    assert_eq!(
        nodes,
        vec![SupramarkNode::Link { url: "u".to_string(), title: None, children: vec![reference("x")], position: None }]
    );
}
