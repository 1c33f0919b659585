use supramark_markdown::supramark::extension::{ExtensionOpen, ExtensionSyntax};
use supramark_markdown::supramark::extension_node::{build_extension_node, container_data, ContainerData};
use supramark_markdown::supramark::node::SupramarkNode;
use supramark_markdown::{DiagnosticSeverity, ExtensionMode};

fn opener(syntax: ExtensionSyntax, name: &str, params: Option<&str>, close_marker: &'static str) -> ExtensionOpen {
    ExtensionOpen { syntax, name: name.to_string(), params: params.map(str::to_string), close_marker }
}

#[test]
fn unclosed_block_becomes_unsupported_with_a_diagnostic() {
    let open = opener(ExtensionSyntax::Container, "map", None, ":::");
    let node = build_extension_node(&open, "center: [1, 2]".to_string(), None, false, None);
    match node {
        SupramarkNode::Unsupported { syntax, reason, value, children, diagnostics, position } => {
            assert_eq!(syntax, "container");
            assert_eq!(reason, "missing closing marker");
            assert_eq!(value.as_deref(), Some("center: [1, 2]"));
            assert!(children.is_empty());
            assert!(position.is_none());
            assert_eq!(diagnostics.len(), 1);
            assert_eq!(diagnostics[0].code, "unclosed_extension_block");
            assert_eq!(diagnostics[0].severity, DiagnosticSeverity::Error);
            assert_eq!(diagnostics[0].message, "Missing closing `:::` marker.");
        },
        other => panic!("expected unsupported, got {other:?}"),
    }
    let input = opener(ExtensionSyntax::Input, "form", None, "%%%");
    match build_extension_node(&input, String::new(), None, false, None) {
        SupramarkNode::Unsupported { syntax, diagnostics, .. } => {
            assert_eq!(syntax, "input");
            assert_eq!(diagnostics[0].message, "Missing closing `%%%` marker.");
        },
        other => panic!("expected unsupported, got {other:?}"),
    }
}

#[test]
fn closed_blocks_are_opaque_containers_and_inputs() {
    let open = opener(ExtensionSyntax::Container, "note", Some("info"), ":::");
    assert_eq!(
        build_extension_node(&open, "body".to_string(), None, true, None),
        SupramarkNode::Container {
            name: "note".to_string(),
            mode: ExtensionMode::Opaque,
            params: Some("info".to_string()),
            children: Vec::new(),
            value: Some("body".to_string()),
            data: None,
            position: None,
        }
    );
    let input = opener(ExtensionSyntax::Input, "form", None, "%%%");
    assert_eq!(
        build_extension_node(&input, "x".to_string(), None, true, None),
        SupramarkNode::Input {
            name: "form".to_string(),
            mode: ExtensionMode::Opaque,
            params: None,
            children: Vec::new(),
            value: Some("x".to_string()),
            data: None,
            position: None,
        }
    );
}

#[test]
fn container_names_with_data() {
    assert_eq!(container_data("map"), Some(ContainerData::Maps));
    assert_eq!(container_data("vison"), Some(ContainerData::Vison));
    assert_eq!(container_data("html"), Some(ContainerData::Html));
    assert_eq!(container_data("weather"), Some(ContainerData::Weather));
    assert_eq!(container_data("note"), None);
    assert_eq!(container_data("Map"), None);
}
