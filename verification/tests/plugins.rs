use supramark_markdown::parser::{MarkdownParser, Placement, RuleId};
use supramark_markdown::plugins::cmark::inline::escape::{is_escapable_punct, EscapeScanner, EscapeToken};
use supramark_markdown::plugins::cmark::inline::newline::{LineBreak, NewlineScanner};
use supramark_markdown::plugins::cmark::inline::{backticks, emphasis, escape, image, newline};
use supramark_markdown::plugins::extra::ext::ExtensionScanner;
use supramark_markdown::plugins::extra::footnote::FootnoteDefScanner;
use supramark_markdown::plugins::extra::math::MathBlockScanner;
use supramark_markdown::plugins::extra::{ext, footnote, gfm_autolink, math, strikethrough, wikilink};
use supramark_markdown::plugins::html;
use supramark_markdown::plugins::html::html_inline::normalize_raw_inline;

fn text_special(t: Option<(EscapeToken, usize)>) -> Option<(String, String, usize)> {
    match t {
        Some((EscapeToken::TextSpecial { content, markup }, len)) => Some((content, markup, len)),
        _ => None,
    }
}

#[test]
fn escapable_punctuation() {
    assert!(is_escapable_punct('*'));
    assert!(is_escapable_punct('~'));
    assert!(is_escapable_punct('\\'));
    assert!(!is_escapable_punct('a'));
    assert!(!is_escapable_punct(' '));
}

#[test]
fn escape_scanner() {
    assert_eq!(text_special(EscapeScanner::run("\\*x")), Some(("*".to_owned(), "\\*".to_owned(), 2)));
    assert_eq!(text_special(EscapeScanner::run("\\a")), Some(("\\a".to_owned(), "\\a".to_owned(), 2)));
    assert_eq!(
        text_special(EscapeScanner::run("\\\u{00E9}")),
        Some(("\\\u{00E9}".to_owned(), "\\\u{00E9}".to_owned(), 3))
    );
    assert!(matches!(EscapeScanner::run("\\\n  x"), Some((EscapeToken::Hardbreak, 4))));
    assert!(EscapeScanner::run("\\").is_none());
    assert!(EscapeScanner::run("x").is_none());
}

#[test]
fn newline_scanner() {
    assert_eq!(NewlineScanner::check("\nx"), Some(1));
    assert_eq!(NewlineScanner::check("x"), None);
    assert_eq!(NewlineScanner::run("\n  b", "a  "), Some((LineBreak::Hard, 5, 2)));
    assert_eq!(NewlineScanner::run("\nb", "a "), Some((LineBreak::Soft, 2, 1)));
    assert_eq!(NewlineScanner::run("\nb", "a \t "), Some((LineBreak::Soft, 4, 3)));
    assert_eq!(NewlineScanner::run("\nb", "a"), Some((LineBreak::Soft, 1, 0)));
    assert_eq!(NewlineScanner::run("x", "a"), None);
}

#[test]
fn math_fences() {
    assert!(MathBlockScanner::is_fence("  $$ "));
    assert!(!MathBlockScanner::is_fence("$$$"));
    assert!(!MathBlockScanner::is_fence("$ $"));
    assert_eq!(MathBlockScanner::check("$$"), Some(()));
    let lines: Vec<String> = vec!["$$".into(), "x^2".into(), "$$".into(), "after".into()];
    assert_eq!(MathBlockScanner::run(&lines, 0, 4), Some((2, 3)));
    assert_eq!(MathBlockScanner::run(&lines, 0, 2), None);
    assert_eq!(MathBlockScanner::run(&lines, 1, 4), None);
}

#[test]
fn extension_blocks() {
    let lines: Vec<String> = vec![":::map".into(), "a".into(), " ::: ".into(), "b".into()];
    let (open, close, consumed) = ExtensionScanner::run(&lines, 0, 4).unwrap();
    assert_eq!(open.name, "map");
    assert_eq!(close, Some(2));
    assert_eq!(consumed, 3);
    let unclosed: Vec<String> = vec!["%%%form".into(), "a".into(), ":::".into()];
    let (open, close, consumed) = ExtensionScanner::run(&unclosed, 0, 3).unwrap();
    assert_eq!(open.name, "form");
    assert_eq!(close, None);
    assert_eq!(consumed, 3);
    assert!(ExtensionScanner::run(&lines, 1, 4).is_none());
}

#[test]
fn footnote_headers() {
    assert_eq!(FootnoteDefScanner::parse_header("[^note]: text"), Some(("note".to_owned(), 9)));
    assert_eq!(FootnoteDefScanner::parse_header("[^a]:"), Some(("a".to_owned(), 5)));
    assert_eq!(FootnoteDefScanner::parse_header("[^\u{00E9}]:\u{3000}x"), Some(("\u{00E9}".to_owned(), 9)));
    assert_eq!(FootnoteDefScanner::parse_header("[^]: x"), None);
    assert_eq!(FootnoteDefScanner::parse_header("[a]: x"), None);
    assert_eq!(FootnoteDefScanner::parse_header("[^a] x"), None);
    assert_eq!(FootnoteDefScanner::check(4, "[^a]: x"), None);
    assert_eq!(FootnoteDefScanner::check(3, "[^a]: x"), Some(()));
}

#[test]
fn raw_inline_html_normalization() {
    assert_eq!(normalize_raw_inline("<?\n    ?>"), "<?\n?>");
    assert_eq!(normalize_raw_inline("<!--a\n \t b-->"), "<!--a\nb-->");
    assert_eq!(normalize_raw_inline("<a\n  href=\"x\">"), "<a\n  href=\"x\">");
    assert_eq!(normalize_raw_inline("<![CDATA[x\n\n  y]]>"), "<![CDATA[x\n\ny]]>");
}

#[test]
fn plugin_registrations() {
    let mut md = MarkdownParser::new();
    backticks::add(&mut md);
    emphasis::add(&mut md);
    escape::add(&mut md);
    image::add(&mut md);
    newline::add(&mut md);
    wikilink::add(&mut md);
    html::add(&mut md);
    assert_eq!(md.inline.rules.len(), 10);
    assert_eq!(md.inline.rules[0].rule, RuleId::CodePair('`'));
    assert_eq!(md.inline.rules[1].rule, RuleId::EmphPair { marker: '*', level: 1, can_split_word: true });
    assert_eq!(md.inline.rules[4].rule, RuleId::EmphPair { marker: '_', level: 2, can_split_word: false });
    assert_eq!(md.inline.rules[6].rule, RuleId::LinkPrefix('!'));
    assert_eq!(md.inline.rules[8].placement, Placement::Before(RuleId::Link));
    assert_eq!(md.block.rules[0].rule, RuleId::HtmlBlock);
    math::add(&mut md);
    footnote::add(&mut md);
    ext::add(&mut md);
    gfm_autolink::add(&mut md);
    assert_eq!(md.block.rules.len(), 4);
    assert_eq!(md.core.rules[0].rule, RuleId::GfmAutolink);
}

#[test]
fn strikethrough_joins_fragments_once() {
    let mut md = MarkdownParser::new();
    strikethrough::add(&mut md);
    strikethrough::add(&mut md);
    assert_eq!(md.inline.rules.len(), 2);
    assert_eq!(md.core.rules.len(), 1);
    assert_eq!(md.core.rules[0].rule, RuleId::FragmentsJoin);
    assert_eq!(md.core.rules[0].placement, Placement::BeforeAllAfter(RuleId::InlineParser));
}

#[test]
fn builtin_tokenizers() {
    let mut md = MarkdownParser::new();
    supramark_markdown::parser::block::builtin::add(&mut md);
    supramark_markdown::parser::inline::builtin::add(&mut md);
    assert_eq!(md.core.rules[0].rule, RuleId::BlockParser);
    assert_eq!(md.core.rules[1].rule, RuleId::InlineParser);
    assert_eq!(md.inline.rules[0].rule, RuleId::SkipText);
}

use supramark_markdown::plugins::extra::footnote::{ContinuationLine, FootnoteLine};

fn fl(indent: i32, empty: bool, starts_block: bool) -> FootnoteLine {
    FootnoteLine { indent, empty, starts_block }
}

#[test]
fn footnote_definition_takes_indented_lines_and_single_blanks() {
    let lines = vec![
        fl(0, false, false),
        fl(4, false, false),
        fl(0, true, false),
        fl(6, false, false),
        fl(0, true, false),
        fl(0, true, false),
        fl(4, false, false),
    ];
    let plan = FootnoteDefScanner::run(0, "[^note]:  first", &lines, 0, lines.len()).expect("definition");
    assert_eq!(plan.label, "note");
    assert_eq!(plan.content_col, 10);
    assert_eq!(plan.next_line, 5);
    assert_eq!(
        plan.lines,
        vec![ContinuationLine::Indented, ContinuationLine::Blank, ContinuationLine::Indented, ContinuationLine::Blank]
    );
}

#[test]
fn footnote_definition_lazy_lines_end_at_new_blocks() {
    let lines = vec![fl(0, false, false), fl(0, false, false), fl(2, false, true), fl(4, false, false)];
    let plan = FootnoteDefScanner::run(1, "[^a]: x", &lines, 0, lines.len()).expect("definition");
    assert_eq!(plan.next_line, 2);
    assert_eq!(plan.lines, vec![ContinuationLine::Lazy]);

    let after_blank = vec![fl(0, false, false), fl(0, true, false), fl(0, false, false)];
    let plan = FootnoteDefScanner::run(0, "[^a]:", &after_blank, 0, after_blank.len()).expect("definition");
    assert_eq!(plan.next_line, 2);
    assert_eq!(plan.lines, vec![ContinuationLine::Blank]);

    let outdented = vec![fl(0, false, false), fl(-1, false, false)];
    let plan = FootnoteDefScanner::run(0, "[^a]:", &outdented, 0, outdented.len()).expect("definition");
    assert_eq!(plan.next_line, 1);
    assert!(plan.lines.is_empty());
}

#[test]
fn footnote_definition_needs_a_header_and_little_indent() {
    let lines = vec![fl(0, false, false)];
    assert!(FootnoteDefScanner::run(4, "[^a]: x", &lines, 0, 1).is_none());
    assert!(FootnoteDefScanner::run(0, "[^]: x", &lines, 0, 1).is_none());
    assert!(FootnoteDefScanner::run(0, "[a]: x", &lines, 0, 1).is_none());
}
