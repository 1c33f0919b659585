//! Extension blocks: `:::name` containers and `%%%name` inputs, whose content
//! is kept verbatim up to the line that repeats the marker.
use vstd::prelude::*;
use crate::parser::{MarkdownParser, Placement, RuleId};
use crate::supramark::extension::{parse_extension_open, spec_parse_extension_open, ExtensionOpen};
use crate::plugins::extra::math::{lines_view, trimmed, trimmed_is};
use crate::text::chars_of;

verus! {

broadcast use vstd::seq::group_seq_axioms;

/// Register extension blocks.
pub fn add(md: &mut MarkdownParser)
    ensures
        final(md)@ == old(md)@.push_block(RuleId::Extension, Placement::Default),
{
    md.block.add_rule(RuleId::Extension, Placement::Default);
}

/// An extension block: its opener, its content, and whether a closing
/// marker ended it (an unclosed block runs to the end of the source).
#[derive(Clone, Debug)]
pub struct ExtBlock {
    pub open: ExtensionOpen,
    pub value: String,
    pub closed: bool,
}

/// The first line among `lines[from..line_max]` that is `marker`, white space
/// aside.
pub open spec fn first_marker_line(lines: Seq<Seq<char>>, marker: Seq<char>, from: int, line_max: int) -> Option<
    int,
>
    decreases line_max - from,
{
    if from >= line_max || from < 0 || from >= lines.len() {
        None
    } else if trimmed(lines[from]) == marker {
        Some(from)
    } else {
        first_marker_line(lines, marker, from + 1, line_max)
    }
}

/// The block rule for extension blocks.
pub struct ExtensionScanner;

impl ExtensionScanner {
    /// An extension block opening at line `line`: its opener, the line of its
    /// closing marker if one comes before `line_max`, and the number of lines
    /// it spans (to `line_max` when unclosed). `None` when the line opens no
    /// extension block.
    pub fn run(lines: &[String], line: usize, line_max: usize) -> (r: Option<(ExtensionOpen, Option<usize>, usize)>)
        requires
            line < line_max <= lines@.len(),
        ensures
            match spec_parse_extension_open(lines@[line as int]@) {
                None => r is None,
                Some(o) => r matches Some((open, close, consumed)) && open@ == o && match first_marker_line(
                    lines_view(lines@),
                    o.close_marker,
                    line + 1,
                    line_max as int,
                ) {
                    Some(c) => close == Some(c as usize) && consumed == c - line + 1,
                    None => close is None && consumed == line_max - line,
                },
            },
    {
        let open = match parse_extension_open(lines[line].as_str()) {
            Some(o) => o,
            None => {
                return None;
            },
        };
        let marker = chars_of(open.close_marker);
        let ghost lv = lines_view(lines@);
        let mut next = line + 1;
        while next < line_max
            invariant
                line < line_max <= lines@.len(),
                lv == lines_view(lines@),
                line + 1 <= next,
                marker@ == open@.close_marker,
                spec_parse_extension_open(lines@[line as int]@) == Some(open@),
                first_marker_line(lv, marker@, line + 1, line_max as int) == first_marker_line(
                    lv,
                    marker@,
                    next as int,
                    line_max as int,
                ),
            decreases line_max - next,
        {
            assert(lv[next as int] == lines@[next as int]@);
            if trimmed_is(lines[next].as_str(), &marker) {
                return Some((open, Some(next), next - line + 1));
            }
            next += 1;
        }
        Some((open, None, line_max - line))
    }
}

} // verus!
