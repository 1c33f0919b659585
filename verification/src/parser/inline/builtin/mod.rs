//! The inline tokenizer, as a core rule, and the rule that skips plain text.
use vstd::prelude::*;
use crate::parser::{MarkdownParser, Placement, RuleId};

verus! {

/// Register the plain-text skipping inline rule, then the inline tokenizer as
/// a core rule.
pub fn add(md: &mut MarkdownParser)
    ensures
        final(md)@ == old(md)@.push_inline(RuleId::SkipText, Placement::Default).push_core(
            RuleId::InlineParser,
            Placement::Default,
        ),
{
    md.inline.add_rule(RuleId::SkipText, Placement::Default);
    md.add_rule(RuleId::InlineParser, Placement::Default);
}

} // verus!
