use supramark_markdown::plugins::cmark::inline::image::{sanitize_image_src, src_for_scheme, Image};

#[test]
fn allows_http_https_and_relative() {
    assert_eq!(sanitize_image_src("http://a"), "http://a");
    assert_eq!(sanitize_image_src("https://a"), "https://a");
    assert_eq!(sanitize_image_src("#a"), "#a");
    assert_eq!(sanitize_image_src("?a"), "?a");
    assert_eq!(sanitize_image_src("/a"), "/a");
    assert_eq!(sanitize_image_src("./a"), "./a");
    assert_eq!(sanitize_image_src("../a"), "../a");
}

#[test]
fn allows_colon_in_path_query_hash() {
    assert_eq!(sanitize_image_src("a#b:c"), "a#b:c");
    assert_eq!(sanitize_image_src("a?b:c"), "a?b:c");
    assert_eq!(sanitize_image_src("a/b:c"), "a/b:c");
}

#[test]
fn empties_non_http_schemes() {
    assert_eq!(sanitize_image_src("irc:///help"), "");
    assert_eq!(sanitize_image_src("mailto:a"), "");
    assert_eq!(sanitize_image_src("javascript:alert(1)"), "");
    assert_eq!(sanitize_image_src("data:image/png;base64,x"), "");
}

#[test]
fn image_scheme_match_ignores_case() {
    assert_eq!(sanitize_image_src("HTTP://a"), "HTTP://a");
    assert_eq!(sanitize_image_src("HtTpS://a"), "HtTpS://a");
    assert_eq!(sanitize_image_src("httpx://a"), "");
    assert_eq!(sanitize_image_src(":a"), "");
}

#[test]
fn scheme_check_result_decides_the_source() {
    assert_eq!(src_for_scheme("http://a/b.png", true), "http://a/b.png");
    assert_eq!(src_for_scheme("javascript:x", false), "");
}

#[test]
fn image_node_sanitizes_destination_and_keeps_title() {
    let img = Image::new(Some("javascript:alert(1)".to_owned()), Some("t".to_owned()));
    assert_eq!(img.url, "");
    assert_eq!(img.title, Some("t".to_owned()));
    let img = Image::new(Some("https://a".to_owned()), None);
    assert_eq!(img.url, "https://a");
    assert_eq!(img.title, None);
    let img = Image::new(None, None);
    assert_eq!(img.url, "");
}
