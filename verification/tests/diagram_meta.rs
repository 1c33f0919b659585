use supramark_markdown::supramark::diagram_meta::{parse_diagram_meta, DiagramMetaValue};

fn text(k: &str, v: &str) -> (String, DiagramMetaValue) {
    (k.to_string(), DiagramMetaValue::Text(v.to_string()))
}

#[test]
fn diagram_meta_pairs_and_flags() {
    // The info string remainder of "```mermaid theme=dark zoom=3 wide title=\"hi\"".
    let meta = parse_diagram_meta("theme=dark zoom=3 wide title=\"hi\"").expect("entries");
    assert_eq!(
        meta,
        vec![
            text("theme", "dark"),
            text("zoom", "3"),
            ("wide".to_string(), DiagramMetaValue::Flag),
            text("title", "hi"),
        ]
    );
}

#[test]
fn empty_diagram_meta_is_none() {
    assert_eq!(parse_diagram_meta(""), None);
    assert_eq!(parse_diagram_meta("  \t "), None);
    assert_eq!(parse_diagram_meta("=x =y"), None);
}

#[test]
fn diagram_meta_value_edge_cases() {
    let meta = parse_diagram_meta(" a= b=c=d q=\" r=\"\" s=\"x ").expect("entries");
    assert_eq!(
        meta,
        vec![text("a", ""), text("b", "c=d"), text("q", "\""), text("r", ""), text("s", "\"x")]
    );
}

use supramark_markdown::supramark::weather::weather_config_entries;

fn pair(k: &str, v: &str) -> (String, String) {
    (k.to_string(), v.to_string())
}

#[test]
fn weather_entries_skip_blanks_comments_and_empty_keys() {
    let config = "# comment\nlocation: Tokyo, JP \r\n\n  units :metric\n: nothing\nbroken line\nshow_forecast: true\ndays: 3";
    assert_eq!(
        weather_config_entries(config),
        vec![pair("location", "Tokyo, JP"), pair("units", "metric"), pair("show_forecast", "true"), pair("days", "3")]
    );
    assert_eq!(weather_config_entries(""), Vec::<(String, String)>::new());
    assert_eq!(weather_config_entries("url: http://x:8080/a"), vec![pair("url", "http://x:8080/a")]);
}
