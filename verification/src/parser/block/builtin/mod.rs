//! The block tokenizer, as a core rule.
use vstd::prelude::*;
use crate::parser::{MarkdownParser, Placement, RuleId};

verus! {

/// Register the block tokenizer as a core rule.
pub fn add(md: &mut MarkdownParser)
    ensures
        final(md)@ == old(md)@.push_core(RuleId::BlockParser, Placement::Default),
{
    md.add_rule(RuleId::BlockParser, Placement::Default);
}

} // verus!
