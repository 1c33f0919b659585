//! HTML blocks.
use vstd::prelude::*;
use crate::parser::{MarkdownParser, Placement, RuleId};
use crate::pattern::{compile, is_match, regex_compiles, regex_is_match};

verus! {

/// A raw HTML block, with its source lines.
#[derive(Clone, Debug)]
pub struct HtmlBlock {
    pub content: String,
}

/// The block rule for HTML blocks.
pub struct HtmlBlockScanner;

/// Register HTML blocks.
pub fn add(md: &mut MarkdownParser)
    ensures
        final(md)@ == old(md)@.push_block(RuleId::HtmlBlock, Placement::Default),
{
    md.block.add_rule(RuleId::HtmlBlock, Placement::Default);
}

/// The kinds of HTML block start and end conditions (CommonMark's types 1
/// to 7, as `0..7`), each with the pattern a line must match to start a
/// block, the pattern a line must match to end it, whether the block may
/// interrupt a paragraph, and whether a blank line ends it.
pub struct HTMLSequence {
    pub open: &'static str,
    pub close: &'static str,
    pub can_terminate_paragraph: bool,
    pub ends_at_blank: bool,
}

/// How many kinds of HTML block there are.
pub const HTML_SEQUENCE_COUNT: usize = 7;

/// How many kinds start at a line matching a literal pattern (types 1 to
/// 5); the start patterns of types 6 and 7 are built from the lists of block
/// tag names and of open and close tags.
pub const LITERAL_SEQUENCE_COUNT: usize = 5;

/// The start pattern of a kind with a literal one.
pub open spec fn spec_literal_open(k: int) -> Seq<char> {
    if k == 0 {
        "(?i)^<(script|pre|style|textarea)(\\s|>|$)"@
    } else if k == 1 {
        "^<!--"@
    } else if k == 2 {
        "^<\\?"@
    } else if k == 3 {
        "^<![A-Za-z]"@
    } else {
        "^<!\\[CDATA\\["@
    }
}

/// The end pattern of a kind.
pub open spec fn spec_html_close(k: int) -> Seq<char> {
    if k == 0 {
        "(?i)</(script|pre|style|textarea)>"@
    } else if k == 1 {
        "-->"@
    } else if k == 2 {
        "\\?>"@
    } else if k == 3 {
        ">"@
    } else if k == 4 {
        "\\]\\]>"@
    } else {
        "^$"@
    }
}

/// Whether a block of a kind may interrupt a paragraph: all but type 7.
pub open spec fn spec_can_terminate_paragraph(k: int) -> bool {
    k != 6
}

/// Whether a blank line ends a block of a kind: types 6 and 7.
pub open spec fn spec_ends_at_blank(k: int) -> bool {
    k == 5 || k == 6
}

fn literal_open(k: usize) -> (r: &'static str)
    requires
        k < LITERAL_SEQUENCE_COUNT,
    ensures
        r@ == spec_literal_open(k as int),
{
    if k == 0 {
        "(?i)^<(script|pre|style|textarea)(\\s|>|$)"
    } else if k == 1 {
        "^<!--"
    } else if k == 2 {
        "^<\\?"
    } else if k == 3 {
        "^<![A-Za-z]"
    } else {
        "^<!\\[CDATA\\["
    }
}

fn html_close(k: usize) -> (r: &'static str)
    requires
        k < HTML_SEQUENCE_COUNT,
    ensures
        r@ == spec_html_close(k as int),
{
    if k == 0 {
        "(?i)</(script|pre|style|textarea)>"
    } else if k == 1 {
        "-->"
    } else if k == 2 {
        "\\?>"
    } else if k == 3 {
        ">"
    } else if k == 4 {
        "\\]\\]>"
    } else {
        "^$"
    }
}

/// Whether the pattern compiles and matches somewhere in `text`.
pub open spec fn spec_matches(pattern: Seq<char>, text: Seq<char>) -> bool {
    regex_compiles(pattern) && regex_is_match(pattern, text)
}

fn matches_pattern(pattern: &str, text: &str) -> (r: bool)
    ensures
        r == spec_matches(pattern@, text@),
{
    match compile(pattern) {
        Some(p) => is_match(&p, text),
        None => false,
    }
}

/// The first kind from `k` on (among types 1 to 5) whose start pattern
/// matches `line`.
pub open spec fn first_literal_sequence(line: Seq<char>, k: int) -> Option<int>
    decreases LITERAL_SEQUENCE_COUNT - k,
{
    if k < 0 || k >= LITERAL_SEQUENCE_COUNT {
        None
    } else if spec_matches(spec_literal_open(k), line) {
        Some(k)
    } else {
        first_literal_sequence(line, k + 1)
    }
}

/// A line of the block being parsed, as the HTML block rule reads it: its
/// text, whether it is blank, and its indentation relative to the block
/// (negative when it has dropped out of an enclosing container).
pub struct HtmlLine {
    pub text: String,
    pub empty: bool,
    pub indent: i32,
}

/// The first line after an HTML block of kind `k` whose first line was
/// before `j`, looking from line `j` on (before `line_max`): a non-blank line
/// that has dropped out of the enclosing container ends the block before
/// it, as does a dropped-out blank line for types 6 and 7; a line matching
/// the end pattern ends it after it (before it when the line is empty).
pub open spec fn html_block_end(lines: Seq<HtmlLine>, k: int, j: int, line_max: int) -> int
    decreases line_max - j,
{
    if j < 0 || j >= line_max || j >= lines.len() {
        j
    } else if !lines[j].empty && lines[j].indent < 0 {
        j
    } else if spec_ends_at_blank(k) && lines[j].indent < 0 {
        j
    } else if spec_matches(spec_html_close(k), lines[j].text@) {
        if lines[j].text@.len() > 0 {
            j + 1
        } else {
            j
        }
    } else {
        html_block_end(lines, k, j + 1, line_max)
    }
}

impl HTMLSequence {
    /// The start and end conditions of kind `k`; the start pattern of types
    /// 6 and 7 is left empty here.
    pub fn new(k: usize) -> (r: HTMLSequence)
        requires
            k < HTML_SEQUENCE_COUNT,
        ensures
            k < LITERAL_SEQUENCE_COUNT ==> r.open@ == spec_literal_open(k as int),
            r.close@ == spec_html_close(k as int),
            r.can_terminate_paragraph == spec_can_terminate_paragraph(k as int),
            r.ends_at_blank == spec_ends_at_blank(k as int),
    {
        let open = if k < LITERAL_SEQUENCE_COUNT {
            literal_open(k)
        } else {
            ""
        };
        HTMLSequence { open, close: html_close(k), can_terminate_paragraph: k != 6, ends_at_blank: k == 5 || k == 6 }
    }
}

impl HtmlBlockScanner {
    /// The kind among types 1 to 5 of the HTML block a line starts: none when
    /// the line is indented by `max_indent` or more or does not start with
    /// `<`; else the first kind whose start pattern matches it.
    pub fn get_literal_sequence(indent: i32, max_indent: i32, line: &str) -> (r: Option<usize>)
        ensures
            r == (if indent >= max_indent || line@.len() == 0 || line@[0] != '<' {
                None
            } else {
                match first_literal_sequence(line@, 0) {
                    Some(k) => Some(k as usize),
                    None => None,
                }
            }),
    {
        if indent >= max_indent {
            return None;
        }
        let v = crate::text::chars_of(line);
        if v.len() == 0 || v[0] != '<' {
            return None;
        }
        let mut k: usize = 0;
        while k < LITERAL_SEQUENCE_COUNT
            invariant
                k <= LITERAL_SEQUENCE_COUNT,
                indent < max_indent,
                line@.len() > 0 && line@[0] == '<',
                first_literal_sequence(line@, 0) == first_literal_sequence(line@, k as int),
            decreases LITERAL_SEQUENCE_COUNT - k,
        {
            if matches_pattern(literal_open(k), line) {
                return Some(k);
            }
            k += 1;
        }
        None
    }

    /// Whether an HTML block of kind `k` may interrupt a paragraph.
    pub fn check(k: usize) -> (r: Option<()>)
        requires
            k < HTML_SEQUENCE_COUNT,
        ensures
            r is Some <==> spec_can_terminate_paragraph(k as int),
    {
        if HTMLSequence::new(k).can_terminate_paragraph {
            Some(())
        } else {
            None
        }
    }

    /// The first line after the HTML block of kind `k` that starts on line
    /// `start_line`: the next line when the first line already matches the
    /// end pattern, else where `html_block_end` stops.
    pub fn run(k: usize, lines: &[HtmlLine], start_line: usize, line_max: usize) -> (r: usize)
        requires
            k < HTML_SEQUENCE_COUNT,
            start_line < line_max <= lines@.len(),
        ensures
            r == (if spec_matches(spec_html_close(k as int), lines@[start_line as int].text@) {
                start_line + 1
            } else {
                html_block_end(lines@, k as int, start_line + 1, line_max as int)
            }),
            start_line < r <= line_max,
    {
        let seq = HTMLSequence::new(k);
        let mut next_line = start_line + 1;
        if matches_pattern(seq.close, lines[start_line].text.as_str()) {
            return next_line;
        }
        while next_line < line_max
            invariant
                start_line < next_line <= line_max <= lines@.len(),
                !spec_matches(spec_html_close(k as int), lines@[start_line as int].text@),
                seq.close@ == spec_html_close(k as int),
                seq.ends_at_blank == spec_ends_at_blank(k as int),
                html_block_end(lines@, k as int, start_line + 1, line_max as int) == html_block_end(
                    lines@,
                    k as int,
                    next_line as int,
                    line_max as int,
                ),
            decreases line_max - next_line,
        {
            let l = &lines[next_line];
            if !l.empty && l.indent < 0 {
                return next_line;
            }
            if seq.ends_at_blank && l.indent < 0 {
                return next_line;
            }
            if matches_pattern(seq.close, l.text.as_str()) {
                if !l.text.as_str().is_empty() {
                    next_line += 1;
                }
                return next_line;
            }
            next_line += 1;
        }
        next_line
    }
}

} // verus!
