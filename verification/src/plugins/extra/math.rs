//! Block math: a `$$` line opens the block and the next `$$` line closes it.
use vstd::prelude::*;
use crate::parser::{MarkdownParser, Placement, RuleId};
use crate::text::{
    chars_of, lemma_skip_ws_bounds, lemma_trim_end_ws_bounds, skip_white_space, skip_ws, trim_end_ws,
    trim_white_space_end,
};

verus! {

broadcast use vstd::seq::group_seq_axioms;

/// A math block with its content.
#[derive(Clone, Debug)]
pub struct MathBlock {
    pub value: String,
}

/// Register math blocks.
pub fn add(md: &mut MarkdownParser)
    ensures
        final(md)@ == old(md)@.push_block(RuleId::MathBlock, Placement::Default),
{
    md.block.add_rule(RuleId::MathBlock, Placement::Default);
}

/// `v` with white space trimmed from both ends.
pub open spec fn trimmed(v: Seq<char>) -> Seq<char> {
    let a = skip_ws(v, 0);
    let b = trim_end_ws(v, v.len() as int);
    if a < b { v.subrange(a, b) } else { Seq::empty() }
}

/// Whether `line` holds `s` and nothing else but white space.
pub fn trimmed_is(line: &str, s: &[char]) -> (r: bool)
    ensures
        r == (trimmed(line@) == s@),
{
    let v = chars_of(line);
    let n = v.len();
    let a = skip_white_space(&v, 0);
    let b = trim_white_space_end(&v, n);
    proof {
        lemma_skip_ws_bounds(v@, 0);
        lemma_trim_end_ws_bounds(v@, n as int);
    }
    if a < b {
        crate::text::chars_range_eq(&v, a, b, s)
    } else {
        assert(s@.len() == 0 ==> s@ =~= Seq::<char>::empty());
        s.len() == 0
    }
}

/// A math fence line: `$$` alone, white space aside.
pub open spec fn spec_is_fence(line: Seq<char>) -> bool {
    trimmed(line) == seq!['$', '$']
}

/// The first fence line among `lines[from..line_max]`.
pub open spec fn first_fence(lines: Seq<Seq<char>>, from: int, line_max: int) -> Option<int>
    decreases line_max - from,
{
    if from >= line_max || from < 0 || from >= lines.len() {
        None
    } else if spec_is_fence(lines[from]) {
        Some(from)
    } else {
        first_fence(lines, from + 1, line_max)
    }
}

pub open spec fn lines_view(lines: Seq<String>) -> Seq<Seq<char>> {
    Seq::new(lines.len(), |i: int| lines[i]@)
}

/// The block rule for math blocks.
pub struct MathBlockScanner;

impl MathBlockScanner {
    /// Whether a line is a math fence.
    pub fn is_fence(line: &str) -> (r: bool)
        ensures
            r == spec_is_fence(line@),
    {
        let dd: [char; 2] = ['$', '$'];
        assert(dd@ =~= seq!['$', '$']);
        trimmed_is(line, &dd)
    }

    /// Whether a math block may start on this line.
    pub fn check(line: &str) -> (r: Option<()>)
        ensures
            r is Some <==> spec_is_fence(line@),
    {
        if Self::is_fence(line) {
            Some(())
        } else {
            None
        }
    }

    /// A math block opening at line `line`: the line of its closing fence
    /// (the first fence line after it, before `line_max`) and the number of
    /// lines it spans. The lines in between are its content. `None` when
    /// `line` is no fence or no fence closes it.
    pub fn run(lines: &[String], line: usize, line_max: usize) -> (r: Option<(usize, usize)>)
        requires
            line < lines@.len(),
            line_max <= lines@.len(),
        ensures
            match r {
                Some((close, consumed)) => spec_is_fence(lines@[line as int]@) && first_fence(
                    lines_view(lines@),
                    line + 1,
                    line_max as int,
                ) == Some(close as int) && consumed == close - line + 1,
                None => !spec_is_fence(lines@[line as int]@) || first_fence(
                    lines_view(lines@),
                    line + 1,
                    line_max as int,
                ) is None,
            },
    {
        if !Self::is_fence(lines[line].as_str()) {
            return None;
        }
        let ghost lv = lines_view(lines@);
        let mut next_line = line + 1;
        while next_line < line_max
            invariant
                line < lines@.len(),
                line_max <= lines@.len(),
                lv == lines_view(lines@),
                spec_is_fence(lines@[line as int]@),
                line + 1 <= next_line,
                first_fence(lv, line + 1, line_max as int) == first_fence(lv, next_line as int, line_max as int),
            decreases line_max - next_line,
        {
            assert(lv[next_line as int] == lines@[next_line as int]@);
            if Self::is_fence(lines[next_line].as_str()) {
                return Some((next_line, next_line - line + 1));
            }
            next_line += 1;
        }
        None
    }
}

} // verus!
