use supramark_markdown::supramark::extension::{
    is_valid_extension_name, parse_extension_open, parse_named_extension, ExtensionSyntax,
};

#[test]
fn parses_container_opener() {
    let o = parse_extension_open(":::Map center=1 zoom=2  ").unwrap();
    assert_eq!(o.syntax, ExtensionSyntax::Container);
    assert_eq!(o.name, "map");
    assert_eq!(o.params.as_deref(), Some("center=1 zoom=2"));
    assert_eq!(o.close_marker, ":::");
    assert_eq!(o.syntax_name(), "container");
}

#[test]
fn parses_input_opener_with_leading_space() {
    let o = parse_extension_open("  %%% weather ").unwrap();
    assert_eq!(o.syntax, ExtensionSyntax::Input);
    assert_eq!(o.name, "weather");
    assert_eq!(o.params, None);
    assert_eq!(o.close_marker, "%%%");
    assert_eq!(o.syntax_name(), "input");
}

#[test]
fn rejects_bad_openers() {
    assert!(parse_extension_open(":::").is_none());
    assert!(parse_extension_open(":::   ").is_none());
    assert!(parse_extension_open(":::9lives").is_none());
    assert!(parse_extension_open(":: map").is_none());
    assert!(parse_extension_open("text").is_none());
    assert!(parse_extension_open(":::a_b").is_none());
}

#[test]
fn named_extension_splits_at_first_white_space() {
    let o = parse_named_extension(" vison\tx  y ", ExtensionSyntax::Container, ":::").unwrap();
    assert_eq!(o.name, "vison");
    assert_eq!(o.params.as_deref(), Some("x  y"));
}

#[test]
fn extension_names() {
    assert!(is_valid_extension_name("map"));
    assert!(is_valid_extension_name("a-1"));
    assert!(!is_valid_extension_name("1a"));
    assert!(!is_valid_extension_name("Map"));
    assert!(!is_valid_extension_name(""));
}
