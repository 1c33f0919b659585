//! The rule registry of the parser: block, inline and core rule chains in
//! which the syntax plugins register their scanners.
use vstd::prelude::*;

pub mod block;
pub mod inline;

verus! {

/// A rule that a plugin can register, named by the scanner that implements it.
#[derive(Clone, Copy, Debug, PartialEq, Eq, Structural)]
pub enum RuleId {
    /// Core rule that runs the block tokenizer.
    BlockParser,
    /// Core rule that runs the inline tokenizer over each block's content.
    InlineParser,
    /// Inline rule that skips plain text up to the next marker.
    SkipText,
    /// Inline code span delimited by runs of the marker.
    CodePair(char),
    /// Emphasis (`level` 1) or strong emphasis (`level` 2) with `marker`;
    /// `can_split_word` tells whether intraword delimiters count.
    EmphPair { marker: char, level: u8, can_split_word: bool },
    /// Backslash escapes and escaped hard breaks.
    Escape,
    /// A link-like construct introduced by a prefix character (`!` for images).
    LinkPrefix(char),
    /// CommonMark `[text](url)` links.
    Link,
    /// Soft and hard line breaks.
    Newline,
    /// `:::name` containers and `%%%name` inputs.
    Extension,
    /// `[^label]:` footnote definitions.
    FootnoteDef,
    /// Link reference definitions.
    Reference,
    /// The GFM bare-URL/email autolink postprocess.
    GfmAutolink,
    /// `$$` math blocks.
    MathBlock,
    /// GFM `~`/`~~` strikethrough.
    Strikethrough,
    /// Core rule turning leftover delimiter markers into text.
    FragmentsJoin,
    /// `[[target]]` wiki links.
    WikiLink,
    /// Raw HTML blocks.
    HtmlBlock,
    /// Raw inline HTML.
    HtmlInline,
    /// Indented code blocks.
    Code,
    /// Fenced code blocks.
    Fence,
    /// ATX headings (`# title`).
    Heading,
    /// Setext headings (a title underlined by `=` or `-`).
    LHeading,
    /// Thematic breaks.
    Hr,
    /// Block quotes.
    Blockquote,
    /// Lists and list items.
    List,
    /// CommonMark autolinks (`<https://…>`).
    Autolink,
    /// GFM tables.
    Table,
    /// Definition lists.
    DefinitionList,
}

/// Where a rule goes in its chain relative to the others.
#[derive(Clone, Copy, Debug, PartialEq, Eq, Structural)]
pub enum Placement {
    /// Appended after the rules registered so far.
    Default,
    /// Right before the given rule.
    Before(RuleId),
    /// Right after the given rule.
    After(RuleId),
    /// After every other rule of the chain.
    AfterAll,
    /// Before every other rule, but after the given one.
    BeforeAllAfter(RuleId),
}

/// One registration: the rule and its placement.
#[derive(Clone, Copy, Debug, PartialEq, Eq, Structural)]
pub struct RuleEntry {
    pub rule: RuleId,
    pub placement: Placement,
}

/// The registrations of `s` that are not of `rule`.
pub open spec fn without_rule(s: Seq<RuleEntry>, rule: RuleId) -> Seq<RuleEntry> {
    s.filter(|e: RuleEntry| e.rule != rule)
}

/// Unregistering a rule removes every registration of it and keeps every
/// other registration; a chain without the rule is left as it is.
pub proof fn lemma_without_rule(s: Seq<RuleEntry>, rule: RuleId)
    ensures
        forall|i: int| 0 <= i < without_rule(s, rule).len() ==> (#[trigger] without_rule(s, rule)[i]).rule != rule,
        forall|i: int| 0 <= i < s.len() && (#[trigger] s[i]).rule != rule ==> without_rule(s, rule).contains(s[i]),
        without_rule(s, rule).len() <= s.len(),
        (forall|i: int| 0 <= i < s.len() ==> (#[trigger] s[i]).rule != rule) ==> without_rule(s, rule) == s,
    decreases s.len(),
{
    let pred = |e: RuleEntry| e.rule != rule;
    s.lemma_filter_len(pred);
    assert forall|i: int| 0 <= i < without_rule(s, rule).len() implies (#[trigger] without_rule(s, rule)[i]).rule != rule by {
        s.lemma_filter_pred(pred, i);
    }
    assert forall|i: int| 0 <= i < s.len() && (#[trigger] s[i]).rule != rule implies without_rule(s, rule).contains(s[i]) by {
        s.lemma_filter_contains(pred, i);
    }
    if forall|i: int| 0 <= i < s.len() ==> (#[trigger] s[i]).rule != rule {
        reveal(Seq::filter);
        if s.len() > 0 {
            lemma_without_rule(s.drop_last(), rule);
            assert forall|i: int| 0 <= i < s.drop_last().len() implies (#[trigger] s.drop_last()[i]).rule != rule by {
                assert(s.drop_last()[i] == s[i]);
            }
            assert(s.drop_last().push(s.last()) =~= s);
        }
    }
}

/// A rule added to a chain is then registered in it.
pub proof fn lemma_added_rule_is_registered(s: Seq<RuleEntry>, rule: RuleId, placement: Placement)
    ensures
        exists|i: int| 0 <= i < s.push(RuleEntry { rule, placement }).len() && #[trigger] s.push(
            RuleEntry { rule, placement },
        )[i].rule == rule,
{
    assert(s.push(RuleEntry { rule, placement })[s.len() as int].rule == rule);
}

/// An ordered list of rule registrations.
pub struct RuleChain {
    pub rules: Vec<RuleEntry>,
}

impl View for RuleChain {
    type V = Seq<RuleEntry>;

    open spec fn view(&self) -> Seq<RuleEntry> {
        self.rules@
    }
}

impl RuleChain {
    /// An empty chain.
    pub fn new() -> (r: Self)
        ensures
            r@ == Seq::<RuleEntry>::empty(),
    {
        RuleChain { rules: Vec::new() }
    }

    /// Register `rule` with the given placement.
    pub fn add_rule(&mut self, rule: RuleId, placement: Placement)
        ensures
            final(self)@ == old(self)@.push(RuleEntry { rule, placement }),
    {
        self.rules.push(RuleEntry { rule, placement });
    }

    /// Unregister every registration of `rule`; the others keep their order.
    pub fn remove_rule(&mut self, rule: RuleId)
        ensures
            final(self)@ == without_rule(old(self)@, rule),
    {
        let ghost old_rules = self.rules@;
        let mut kept: Vec<RuleEntry> = Vec::new();
        let mut i: usize = 0;
        while i < self.rules.len()
            invariant
                self.rules@ == old_rules,
                i <= old_rules.len(),
                kept@ == without_rule(old_rules.take(i as int), rule),
            decreases old_rules.len() - i,
        {
            let e = self.rules[i];
            proof {
                assert(old_rules.take(i + 1).drop_last() =~= old_rules.take(i as int));
                assert(old_rules.take(i + 1).last() == e);
                reveal(Seq::filter);
            }
            if e.rule != rule {
                kept.push(e);
            }
            i += 1;
        }
        assert(old_rules.take(old_rules.len() as int) =~= old_rules);
        self.rules = kept;
    }

    /// Whether `rule` has been registered in this chain.
    pub fn has_rule(&self, rule: RuleId) -> (r: bool)
        ensures
            r == exists|i: int| 0 <= i < self@.len() && #[trigger] self@[i].rule == rule,
    {
        let mut i: usize = 0;
        while i < self.rules.len()
            invariant
                0 <= i <= self@.len(),
                forall|k: int| 0 <= k < i ==> #[trigger] self@[k].rule != rule,
            decreases self@.len() - i,
        {
            if self.rules[i].rule == rule {
                return true;
            }
            i += 1;
        }
        false
    }
}

/// The parser configuration: the block, inline and core rule chains, the
/// indentation from which a line is indented code, and the switches that turn
/// off character escapes, hard-break escapes and link label ends.
pub struct MarkdownParser {
    pub block: RuleChain,
    pub inline: RuleChain,
    pub core: RuleChain,
    pub max_indent: i32,
    pub disable_character_escape: bool,
    pub disable_hard_break_escape: bool,
    pub disable_label_end: bool,
    pub subsequent_indented_definitions: bool,
}

/// A parser configuration as plain values.
pub struct ParserState {
    pub block: Seq<RuleEntry>,
    pub inline: Seq<RuleEntry>,
    pub core: Seq<RuleEntry>,
    pub max_indent: i32,
    pub disable_character_escape: bool,
    pub disable_hard_break_escape: bool,
    pub disable_label_end: bool,
    pub subsequent_indented_definitions: bool,
}

impl ParserState {
    /// `rule` appended to the block chain.
    pub open spec fn push_block(self, rule: RuleId, placement: Placement) -> ParserState {
        ParserState { block: self.block.push(RuleEntry { rule, placement }), ..self }
    }

    /// `rule` appended to the inline chain.
    pub open spec fn push_inline(self, rule: RuleId, placement: Placement) -> ParserState {
        ParserState { inline: self.inline.push(RuleEntry { rule, placement }), ..self }
    }

    /// `rule` appended to the core chain.
    pub open spec fn push_core(self, rule: RuleId, placement: Placement) -> ParserState {
        ParserState { core: self.core.push(RuleEntry { rule, placement }), ..self }
    }
}

impl View for MarkdownParser {
    type V = ParserState;

    open spec fn view(&self) -> ParserState {
        ParserState {
            block: self.block@,
            inline: self.inline@,
            core: self.core@,
            max_indent: self.max_indent,
            disable_character_escape: self.disable_character_escape,
            disable_hard_break_escape: self.disable_hard_break_escape,
            disable_label_end: self.disable_label_end,
            subsequent_indented_definitions: self.subsequent_indented_definitions,
        }
    }
}

/// The name under which some plugins refer to the parser.
pub type MarkdownIt = MarkdownParser;

impl MarkdownParser {
    /// A parser with no rule registered, no indentation limit and every
    /// construct enabled.
    pub fn new() -> (r: Self)
        ensures
            r@ == (ParserState {
                block: Seq::<RuleEntry>::empty(),
                inline: Seq::<RuleEntry>::empty(),
                core: Seq::<RuleEntry>::empty(),
                max_indent: i32::MAX,
                disable_character_escape: false,
                disable_hard_break_escape: false,
                disable_label_end: false,
                subsequent_indented_definitions: false,
            }),
    {
        MarkdownParser {
            block: RuleChain::new(),
            inline: RuleChain::new(),
            core: RuleChain::new(),
            max_indent: i32::MAX,
            disable_character_escape: false,
            disable_hard_break_escape: false,
            disable_label_end: false,
            subsequent_indented_definitions: false,
        }
    }

    /// Register a core rule (a pass over the whole parsed tree).
    pub fn add_rule(&mut self, rule: RuleId, placement: Placement)
        ensures
            final(self)@ == old(self)@.push_core(rule, placement),
    {
        self.core.add_rule(rule, placement);
    }

    /// Whether the core rule `rule` is registered.
    pub fn has_rule(&self, rule: RuleId) -> (r: bool)
        ensures
            r == exists|i: int| 0 <= i < self.core@.len() && #[trigger] self.core@[i].rule == rule,
    {
        self.core.has_rule(rule)
    }
}

} // verus!
