//! Emphasis and strong emphasis: `*this*`, `__that__`.
use vstd::prelude::*;
use crate::parser::{MarkdownParser, Placement, RuleId};

verus! {

/// Emphasis, written with `marker`.
#[derive(Clone, Copy, Debug, PartialEq, Eq, Structural)]
pub struct Em {
    pub marker: char,
}

/// Strong emphasis, written with `marker`.
#[derive(Clone, Copy, Debug, PartialEq, Eq, Structural)]
pub struct Strong {
    pub marker: char,
}

/// Register emphasis and strong emphasis with `*` (which may split a word)
/// and with `_` (which may not).
pub fn add(md: &mut MarkdownParser)
    ensures
        final(md)@ == old(md)@.push_inline(
            RuleId::EmphPair { marker: '*', level: 1, can_split_word: true },
            Placement::Default,
        ).push_inline(RuleId::EmphPair { marker: '_', level: 1, can_split_word: false }, Placement::Default).push_inline(
            RuleId::EmphPair { marker: '*', level: 2, can_split_word: true },
            Placement::Default,
        ).push_inline(RuleId::EmphPair { marker: '_', level: 2, can_split_word: false }, Placement::Default),
{
    md.inline.add_rule(RuleId::EmphPair { marker: '*', level: 1, can_split_word: true }, Placement::Default);
    md.inline.add_rule(RuleId::EmphPair { marker: '_', level: 1, can_split_word: false }, Placement::Default);
    md.inline.add_rule(RuleId::EmphPair { marker: '*', level: 2, can_split_word: true }, Placement::Default);
    md.inline.add_rule(RuleId::EmphPair { marker: '_', level: 2, can_split_word: false }, Placement::Default);
}

} // verus!
