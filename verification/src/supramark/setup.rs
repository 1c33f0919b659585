//! Building the parser from the parse options.
use vstd::prelude::*;
use crate::parser::{without_rule, MarkdownParser, ParserState, Placement, RuleEntry, RuleId};
use crate::supramark::model::ParseOptions;
use crate::text::{chars_of, chars_range_eq};

verus! {

broadcast use vstd::seq::group_seq_axioms;

/// The effect of disabling the construct named `name`: its rule
/// leaves its chain, or its switch is set. Unknown names change nothing.
pub open spec fn disable_one(p: ParserState, name: Seq<char>) -> ParserState {
    if name == "codeIndented"@ {
        ParserState { block: without_rule(p.block, RuleId::Code), max_indent: i32::MAX, ..p }
    } else if name == "codeFenced"@ {
        ParserState { block: without_rule(p.block, RuleId::Fence), ..p }
    } else if name == "headingAtx"@ {
        ParserState { block: without_rule(p.block, RuleId::Heading), ..p }
    } else if name == "setextUnderline"@ {
        ParserState { block: without_rule(p.block, RuleId::LHeading), ..p }
    } else if name == "thematicBreak"@ {
        ParserState { block: without_rule(p.block, RuleId::Hr), ..p }
    } else if name == "blockQuote"@ {
        ParserState { block: without_rule(p.block, RuleId::Blockquote), ..p }
    } else if name == "list"@ {
        ParserState { block: without_rule(p.block, RuleId::List), ..p }
    } else if name == "htmlFlow"@ {
        ParserState { block: without_rule(p.block, RuleId::HtmlBlock), ..p }
    } else if name == "definition"@ {
        ParserState { block: without_rule(p.block, RuleId::Reference), ..p }
    } else if name == "autolink"@ {
        ParserState { inline: without_rule(p.inline, RuleId::Autolink), ..p }
    } else if name == "characterEscape"@ {
        ParserState { disable_character_escape: true, ..p }
    } else if name == "codeText"@ {
        ParserState { inline: without_rule(p.inline, RuleId::CodePair('`')), ..p }
    } else if name == "attention"@ {
        ParserState {
            inline: without_rule(
                without_rule(
                    without_rule(
                        without_rule(p.inline, RuleId::EmphPair { marker: '*', level: 1, can_split_word: true }),
                        RuleId::EmphPair { marker: '*', level: 2, can_split_word: true },
                    ),
                    RuleId::EmphPair { marker: '_', level: 1, can_split_word: false },
                ),
                RuleId::EmphPair { marker: '_', level: 2, can_split_word: false },
            ),
            ..p
        }
    } else if name == "hardBreakEscape"@ {
        ParserState { disable_hard_break_escape: true, ..p }
    } else if name == "htmlText"@ {
        ParserState { inline: without_rule(p.inline, RuleId::HtmlInline), ..p }
    } else if name == "labelStartLink"@ {
        ParserState { inline: without_rule(p.inline, RuleId::Link), ..p }
    } else if name == "labelStartImage"@ {
        ParserState { inline: without_rule(p.inline, RuleId::LinkPrefix('!')), ..p }
    } else if name == "labelEnd"@ {
        ParserState { disable_label_end: true, ..p }
    } else {
        p
    }
}

/// The effect of disabling the constructs `names`, in order.
pub open spec fn spec_apply_disabled(p: ParserState, names: Seq<Seq<char>>) -> ParserState
    decreases names.len(),
{
    if names.len() == 0 {
        p
    } else {
        disable_one(spec_apply_disabled(p, names.drop_last()), names.last())
    }
}

/// The characters of each string.
pub open spec fn names_view(d: Seq<String>) -> Seq<Seq<char>> {
    Seq::new(d.len(), |i: int| d[i]@)
}

fn is_name(name: &str, lit: &'static str) -> (r: bool)
    ensures
        r == (name@ == lit@),
{
    let v = chars_of(name);
    let w = chars_of(lit);
    assert(v@.subrange(0, v@.len() as int) =~= v@);
    chars_range_eq(&v, 0, v.len(), &w)
}

/// Remove the rules of the constructs named in `disabled` (such as
/// `codeIndented` or `autolink`); unknown names are ignored.
pub fn apply_disabled(md: &mut MarkdownParser, disabled: &[String])
    ensures
        final(md)@ == spec_apply_disabled(old(md)@, names_view(disabled@)),
{
    let ghost start = md@;
    let ghost names = names_view(disabled@);
    let mut i: usize = 0;
    while i < disabled.len()
        invariant
            start == old(md)@,
            names == names_view(disabled@),
            i <= disabled@.len(),
            md@ == spec_apply_disabled(start, names.take(i as int)),
        decreases disabled@.len() - i,
    {
        let name = disabled[i].as_str();
        proof {
            assert(names.take(i + 1).drop_last() =~= names.take(i as int));
            assert(names.take(i + 1).last() == name@);
        }
        if is_name(name, "codeIndented") {
            md.block.remove_rule(RuleId::Code);
            md.max_indent = i32::MAX;
        } else if is_name(name, "codeFenced") {
            md.block.remove_rule(RuleId::Fence);
        } else if is_name(name, "headingAtx") {
            md.block.remove_rule(RuleId::Heading);
        } else if is_name(name, "setextUnderline") {
            md.block.remove_rule(RuleId::LHeading);
        } else if is_name(name, "thematicBreak") {
            md.block.remove_rule(RuleId::Hr);
        } else if is_name(name, "blockQuote") {
            md.block.remove_rule(RuleId::Blockquote);
        } else if is_name(name, "list") {
            md.block.remove_rule(RuleId::List);
        } else if is_name(name, "htmlFlow") {
            md.block.remove_rule(RuleId::HtmlBlock);
        } else if is_name(name, "definition") {
            md.block.remove_rule(RuleId::Reference);
        } else if is_name(name, "autolink") {
            md.inline.remove_rule(RuleId::Autolink);
        } else if is_name(name, "characterEscape") {
            md.disable_character_escape = true;
        } else if is_name(name, "codeText") {
            md.inline.remove_rule(RuleId::CodePair('`'));
        } else if is_name(name, "attention") {
            md.inline.remove_rule(RuleId::EmphPair { marker: '*', level: 1, can_split_word: true });
            md.inline.remove_rule(RuleId::EmphPair { marker: '*', level: 2, can_split_word: true });
            md.inline.remove_rule(RuleId::EmphPair { marker: '_', level: 1, can_split_word: false });
            md.inline.remove_rule(RuleId::EmphPair { marker: '_', level: 2, can_split_word: false });
        } else if is_name(name, "hardBreakEscape") {
            md.disable_hard_break_escape = true;
        } else if is_name(name, "htmlText") {
            md.inline.remove_rule(RuleId::HtmlInline);
        } else if is_name(name, "labelStartLink") {
            md.inline.remove_rule(RuleId::Link);
        } else if is_name(name, "labelStartImage") {
            md.inline.remove_rule(RuleId::LinkPrefix('!'));
        } else if is_name(name, "labelEnd") {
            md.disable_label_end = true;
        }
        i += 1;
    }
    assert(names.take(disabled@.len() as int) =~= names);
}

/// The inline rules a parser starts with: plain text, then the CommonMark
/// line breaks, backslash escapes, code spans, emphasis and images.
pub open spec fn commonmark_inline_rules() -> Seq<RuleEntry> {
    seq![
        RuleEntry { rule: RuleId::SkipText, placement: Placement::Default },
        RuleEntry { rule: RuleId::Newline, placement: Placement::Default },
        RuleEntry { rule: RuleId::Escape, placement: Placement::Default },
        RuleEntry { rule: RuleId::CodePair('`'), placement: Placement::Default },
        RuleEntry { rule: RuleId::EmphPair { marker: '*', level: 1, can_split_word: true }, placement: Placement::Default },
        RuleEntry { rule: RuleId::EmphPair { marker: '_', level: 1, can_split_word: false }, placement: Placement::Default },
        RuleEntry { rule: RuleId::EmphPair { marker: '*', level: 2, can_split_word: true }, placement: Placement::Default },
        RuleEntry { rule: RuleId::EmphPair { marker: '_', level: 2, can_split_word: false }, placement: Placement::Default },
        RuleEntry { rule: RuleId::LinkPrefix('!'), placement: Placement::Default },
    ]
}

/// The rules `create_parser` registers before any is disabled.
pub open spec fn base_parser(gfm_strikethrough: bool, gfm_autolink: bool, wikilink: bool, subsequent: bool) -> ParserState {
    let strike_inline = if gfm_strikethrough {
        seq![RuleEntry { rule: RuleId::Strikethrough, placement: Placement::Default }]
    } else {
        Seq::empty()
    };
    let strike_core = if gfm_strikethrough {
        seq![RuleEntry { rule: RuleId::FragmentsJoin, placement: Placement::BeforeAllAfter(RuleId::InlineParser) }]
    } else {
        Seq::empty()
    };
    let autolink_core = if gfm_autolink {
        seq![RuleEntry { rule: RuleId::GfmAutolink, placement: Placement::AfterAll }]
    } else {
        Seq::empty()
    };
    let wiki_inline = if wikilink {
        seq![RuleEntry { rule: RuleId::WikiLink, placement: Placement::Before(RuleId::Link) }]
    } else {
        Seq::empty()
    };
    ParserState {
        block: seq![
            RuleEntry { rule: RuleId::HtmlBlock, placement: Placement::Default },
            RuleEntry { rule: RuleId::MathBlock, placement: Placement::Default },
            RuleEntry { rule: RuleId::FootnoteDef, placement: Placement::Before(RuleId::Reference) },
            RuleEntry { rule: RuleId::Extension, placement: Placement::Default },
        ],
        inline: commonmark_inline_rules() + seq![RuleEntry { rule: RuleId::HtmlInline, placement: Placement::Default }]
            + strike_inline + wiki_inline,
        core: seq![
            RuleEntry { rule: RuleId::BlockParser, placement: Placement::Default },
            RuleEntry { rule: RuleId::InlineParser, placement: Placement::Default },
        ] + strike_core + autolink_core,
        max_indent: i32::MAX,
        disable_character_escape: false,
        disable_hard_break_escape: false,
        disable_label_end: false,
        subsequent_indented_definitions: subsequent,
    }
}

/// The parser for a set of options: the block and inline tokenizers, the
/// CommonMark inline rules (see `commonmark_inline_rules`), raw HTML, block
/// math, footnote
/// definitions and extension blocks, GFM strikethrough and autolinks when
/// the options ask for them, wiki links when asked for, then the disabled
/// constructs removed. (The
/// `gfm_tables` switch selects the GFM table rule, which is not part of this
/// library's rule set.)
pub fn create_parser(options: ParseOptions) -> (r: MarkdownParser)
    ensures
        r@ == spec_apply_disabled(
            base_parser(
                options.gfm_strikethrough,
                options.gfm_autolink,
                options.wikilink,
                options.subsequent_indented_definitions,
            ),
            names_view(options.disable@),
        ),
{
    let mut md = MarkdownParser::new();
    crate::parser::block::builtin::add(&mut md);
    crate::parser::inline::builtin::add(&mut md);
    crate::plugins::cmark::inline::newline::add(&mut md);
    crate::plugins::cmark::inline::escape::add(&mut md);
    crate::plugins::cmark::inline::backticks::add(&mut md);
    crate::plugins::cmark::inline::emphasis::add(&mut md);
    crate::plugins::cmark::inline::image::add(&mut md);
    crate::plugins::html::add(&mut md);
    crate::plugins::extra::math::add(&mut md);
    crate::plugins::extra::footnote::add(&mut md);
    crate::plugins::extra::ext::add(&mut md);
    if options.gfm_strikethrough {
        crate::plugins::extra::strikethrough::add(&mut md);
    }
    if options.gfm_autolink {
        crate::plugins::extra::gfm_autolink::add(&mut md);
    }
    if options.wikilink {
        crate::plugins::extra::wikilink::add(&mut md);
    }
    md.subsequent_indented_definitions = options.subsequent_indented_definitions;
    proof {
        let b = base_parser(
            options.gfm_strikethrough,
            options.gfm_autolink,
            options.wikilink,
            options.subsequent_indented_definitions,
        );
        assert(md@.block =~= b.block);
        assert(md@.inline =~= b.inline);
        assert(md@.core =~= b.core);
    }
    apply_disabled(&mut md, &options.disable);
    md
}

} // verus!
