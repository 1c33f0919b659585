use supramark_markdown::parser::{MarkdownParser, Placement, RuleEntry, RuleId};
use supramark_markdown::supramark::setup::{apply_disabled, create_parser};
use supramark_markdown::ParseOptions;

fn rules(entries: &[RuleEntry]) -> Vec<RuleId> {
    entries.iter().map(|e| e.rule).collect()
}

fn commonmark_inline() -> Vec<RuleId> {
    vec![
        RuleId::SkipText,
        RuleId::Newline,
        RuleId::Escape,
        RuleId::CodePair('`'),
        RuleId::EmphPair { marker: '*', level: 1, can_split_word: true },
        RuleId::EmphPair { marker: '_', level: 1, can_split_word: false },
        RuleId::EmphPair { marker: '*', level: 2, can_split_word: true },
        RuleId::EmphPair { marker: '_', level: 2, can_split_word: false },
        RuleId::LinkPrefix('!'),
    ]
}

fn with(mut base: Vec<RuleId>, more: &[RuleId]) -> Vec<RuleId> {
    base.extend_from_slice(more);
    base
}

#[test]
fn default_parser_rules() {
    let md = create_parser(ParseOptions::default());
    assert_eq!(
        rules(&md.block.rules),
        vec![RuleId::HtmlBlock, RuleId::MathBlock, RuleId::FootnoteDef, RuleId::Extension]
    );
    assert_eq!(md.block.rules[2].placement, Placement::Before(RuleId::Reference));
    assert_eq!(
        rules(&md.inline.rules),
        with(commonmark_inline(), &[RuleId::HtmlInline, RuleId::Strikethrough])
    );
    assert_eq!(
        rules(&md.core.rules),
        vec![RuleId::BlockParser, RuleId::InlineParser, RuleId::FragmentsJoin, RuleId::GfmAutolink]
    );
    assert_eq!(md.core.rules[3].placement, Placement::AfterAll);
    assert_eq!(md.max_indent, i32::MAX);
}

#[test]
fn gfm_switches_drop_their_rules() {
    let mut o = ParseOptions::default();
    o.gfm_strikethrough = false;
    o.gfm_autolink = false;
    o.subsequent_indented_definitions = true;
    let md = create_parser(o);
    assert_eq!(rules(&md.inline.rules), with(commonmark_inline(), &[RuleId::HtmlInline]));
    assert_eq!(rules(&md.core.rules), vec![RuleId::BlockParser, RuleId::InlineParser]);
    assert!(md.subsequent_indented_definitions);
}

#[test]
fn wikilink_option_adds_the_rule() {
    let mut o = ParseOptions::default();
    assert!(!o.wikilink);
    o.wikilink = true;
    let md = create_parser(o);
    assert_eq!(
        rules(&md.inline.rules),
        with(commonmark_inline(), &[RuleId::HtmlInline, RuleId::Strikethrough, RuleId::WikiLink])
    );
    assert_eq!(md.inline.rules[11].placement, Placement::Before(RuleId::Link));
}

#[test]
fn disabling_removes_rules_and_sets_switches() {
    let mut md = MarkdownParser::new();
    md.block.add_rule(RuleId::Code, Placement::Default);
    md.block.add_rule(RuleId::Fence, Placement::Default);
    md.block.add_rule(RuleId::Code, Placement::Default);
    md.inline.add_rule(RuleId::EmphPair { marker: '*', level: 1, can_split_word: true }, Placement::Default);
    md.inline.add_rule(RuleId::Escape, Placement::Default);
    md.inline.add_rule(RuleId::EmphPair { marker: '_', level: 2, can_split_word: false }, Placement::Default);
    md.max_indent = 4;
    let names = vec!["codeIndented".to_owned(), "attention".to_owned(), "labelEnd".to_owned(), "bogus".to_owned()];
    apply_disabled(&mut md, &names);
    assert_eq!(rules(&md.block.rules), vec![RuleId::Fence]);
    assert_eq!(rules(&md.inline.rules), vec![RuleId::Escape]);
    assert_eq!(md.max_indent, i32::MAX);
    assert!(md.disable_label_end);
    assert!(!md.disable_character_escape);
}

#[test]
fn disabling_html_through_options() {
    let mut o = ParseOptions::default();
    o.disable = vec!["htmlFlow".to_owned(), "htmlText".to_owned(), "characterEscape".to_owned(), "hardBreakEscape".to_owned()];
    let md = create_parser(o);
    assert!(!md.block.has_rule(RuleId::HtmlBlock));
    assert!(!md.inline.has_rule(RuleId::HtmlInline));
    assert!(md.disable_character_escape && md.disable_hard_break_escape);
    assert!(md.block.has_rule(RuleId::MathBlock));
    assert!(md.inline.has_rule(RuleId::Newline));
}

#[test]
fn disabling_commonmark_inline_constructs() {
    let mut o = ParseOptions::default();
    o.disable = vec!["codeText".to_owned(), "attention".to_owned(), "labelStartImage".to_owned()];
    let md = create_parser(o);
    assert_eq!(
        rules(&md.inline.rules),
        vec![RuleId::SkipText, RuleId::Newline, RuleId::Escape, RuleId::HtmlInline, RuleId::Strikethrough]
    );
}

#[test]
fn removing_an_absent_rule_changes_nothing() {
    let mut md = MarkdownParser::new();
    md.inline.add_rule(RuleId::Escape, Placement::Default);
    md.inline.remove_rule(RuleId::Link);
    assert_eq!(rules(&md.inline.rules), vec![RuleId::Escape]);
    md.add_rule(RuleId::GfmAutolink, Placement::AfterAll);
    assert!(md.has_rule(RuleId::GfmAutolink));
    assert!(!md.has_rule(RuleId::FragmentsJoin));
}
