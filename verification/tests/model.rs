use supramark_markdown::supramark::model::{
    default_dangerous_html, default_dangerous_protocol, default_true, diagram_engine, map_alignment,
    parse_weather_format, ColumnAlignment,
};
use supramark_markdown::{ParseOptions, TableAlign};

#[test]
fn diagram_engines_ignore_ascii_case() {
    assert_eq!(diagram_engine("Mermaid"), Some("mermaid"));
    assert_eq!(diagram_engine("CHART.JS"), Some("chart.js"));
    assert_eq!(diagram_engine("vega-lite"), Some("vega-lite"));
    assert_eq!(diagram_engine("d2"), Some("d2"));
    assert_eq!(diagram_engine("python"), None);
    assert_eq!(diagram_engine(""), None);
}

#[test]
fn weather_format_from_first_parameter() {
    assert_eq!(parse_weather_format(Some("JSON extra")), "json");
    assert_eq!(parse_weather_format(Some("  toon")), "toon");
    assert_eq!(parse_weather_format(Some("yaml")), "yaml");
    assert_eq!(parse_weather_format(Some("toml")), "yaml");
    assert_eq!(parse_weather_format(Some("   ")), "yaml");
    assert_eq!(parse_weather_format(None), "yaml");
}

#[test]
fn alignment_mapping() {
    assert_eq!(map_alignment(&ColumnAlignment::Unaligned), None);
    assert_eq!(map_alignment(&ColumnAlignment::Left), Some(TableAlign::Left));
    assert_eq!(map_alignment(&ColumnAlignment::Right), Some(TableAlign::Right));
    assert_eq!(map_alignment(&ColumnAlignment::Center), Some(TableAlign::Center));
}

#[test]
fn default_options() {
    let o = ParseOptions::default();
    assert!(o.gfm_tables && o.gfm_strikethrough && o.gfm_autolink);
    assert!(!o.wikilink);
    assert!(o.disable.is_empty());
    assert!(o.allow_dangerous_html && o.allow_dangerous_protocol);
    assert!(!o.subsequent_indented_definitions);
    assert!(default_true() && default_dangerous_html() && default_dangerous_protocol());
}
