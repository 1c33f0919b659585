//! Code spans: `` `looks like this` ``.
use vstd::prelude::*;
use crate::parser::{MarkdownParser, Placement, RuleId};

verus! {

/// A code span, delimited by `marker_len` copies of `marker`.
#[derive(Clone, Copy, Debug, PartialEq, Eq, Structural)]
pub struct CodeInline {
    pub marker: char,
    pub marker_len: usize,
}

/// Register code spans delimited by backticks.
pub fn add(md: &mut MarkdownParser)
    ensures
        final(md)@ == old(md)@.push_inline(RuleId::CodePair('`'), Placement::Default),
{
    md.inline.add_rule(RuleId::CodePair('`'), Placement::Default);
}

} // verus!
