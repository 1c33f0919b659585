//! Raw HTML, blocks and inline. It is a separate plugin because nothing
//! sanitizes the HTML it lets through.
use vstd::prelude::*;
use crate::parser::{MarkdownParser, Placement, RuleId};

pub mod html_block;
pub mod html_inline;

verus! {

/// Register inline HTML, then HTML blocks.
pub fn add(md: &mut MarkdownParser)
    ensures
        final(md)@ == old(md)@.push_inline(RuleId::HtmlInline, Placement::Default).push_block(
            RuleId::HtmlBlock,
            Placement::Default,
        ),
{
    html_inline::add(md);
    html_block::add(md);
}

} // verus!
