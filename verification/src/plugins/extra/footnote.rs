//! Footnote definitions: `[^label]: content` on its own line.
use vstd::prelude::*;
use vstd::utf8::encode_utf8;
use crate::parser::{MarkdownParser, Placement, RuleId};
use crate::text::{chars_of, encoded_len_prefix, lemma_skip_ws_bounds, skip_white_space, skip_ws, string_of_chars};

verus! {

broadcast use vstd::seq::group_seq_axioms;

/// A footnote definition with its label.
#[derive(Clone, Debug)]
pub struct FootnoteDef {
    pub label: String,
}

/// Register footnote definitions, before link reference definitions so that
/// `[^a]:` is not read as one.
pub fn add(md: &mut MarkdownParser)
    ensures
        final(md)@ == old(md)@.push_block(RuleId::FootnoteDef, Placement::Before(RuleId::Reference)),
{
    md.block.add_rule(RuleId::FootnoteDef, Placement::Before(RuleId::Reference));
}

/// The first `]:` of `v` at or after index `j`.
pub open spec fn first_close_colon(v: Seq<char>, j: int) -> Option<int>
    decreases v.len() - j,
{
    if j < 0 || j + 1 >= v.len() {
        None
    } else if v[j] == ']' && v[j + 1] == ':' {
        Some(j)
    } else {
        first_close_colon(v, j + 1)
    }
}

/// A definition header `[^label]:` at the start of a line: the label, and
/// the byte column where the definition's content starts (after the `]:` and
/// the white space that follows it).
pub open spec fn spec_parse_header(v: Seq<char>) -> Option<(Seq<char>, int)> {
    if v.len() >= 2 && v[0] == '[' && v[1] == '^' {
        match first_close_colon(v, 2) {
            Some(j) => if j > 2 {
                Some((v.subrange(2, j), encode_utf8(v.take(skip_ws(v, j + 2))).len() as int))
            } else {
                None
            },
            None => None,
        }
    } else {
        None
    }
}

/// The block rule for footnote definitions.
pub struct FootnoteDefScanner;

impl FootnoteDefScanner {
    /// Parse `[^label]:` at the start of a line (its indentation removed),
    /// giving the label and the byte column where the content begins.
    pub fn parse_header(line: &str) -> (r: Option<(String, usize)>)
        ensures
            match spec_parse_header(line@) {
                Some((label, col)) => r matches Some((l, c)) && l@ == label && c == col,
                None => r is None,
            },
    {
        let bytes = line.as_bytes();
        let _ = bytes.len();
        let v = chars_of(line);
        let n = v.len();
        if !(n >= 2 && v[0] == '[' && v[1] == '^') {
            return None;
        }
        let mut j: usize = 2;
        while j < n - 1 && !(v[j] == ']' && v[j + 1] == ':')
            invariant
                v@ == line@,
                n == v@.len(),
                n >= 2,
                2 <= j <= n,
                first_close_colon(v@, 2) == first_close_colon(v@, j as int),
            decreases n - j,
        {
            j += 1;
        }
        if j >= n - 1 || j == 2 {
            return None;
        }
        let label = string_of_chars(&v, 2, j);
        let c = skip_white_space(&v, j + 2);
        proof {
            lemma_skip_ws_bounds(v@, j + 2);
        }
        let col = encoded_len_prefix(&v, c);
        Some((label, col))
    }

    /// Whether a footnote definition may start on a line indented by
    /// `indent` columns: an indentation of at most 3 and a header.
    pub fn check(indent: i32, line: &str) -> (r: Option<()>)
        ensures
            r is Some <==> (indent <= 3 && spec_parse_header(line@) is Some),
    {
        if indent > 3 {
            return None;
        }
        match Self::parse_header(line) {
            Some(_) => Some(()),
            None => None,
        }
    }
}

/// Columns of indentation that make a line part of a footnote definition.
pub const FOOTNOTE_DEF_INDENT: i32 = 4;

/// What the definition rule reads of a line after the header: its
/// indentation relative to the definition (negative when outdented out of an
/// enclosing list item), whether it is blank, and whether another block rule
/// would start a block on it.
#[derive(Clone, Copy, Debug, PartialEq, Eq, Structural)]
pub struct FootnoteLine {
    pub indent: i32,
    pub empty: bool,
    pub starts_block: bool,
}

/// How a line taken into a footnote definition is rewritten for the
/// definition's own block parse.
#[derive(Clone, Copy, Debug, PartialEq, Eq, Structural)]
pub enum ContinuationLine {
    /// A blank line, kept as a block separator.
    Blank,
    /// An indented line, its definition indentation removed.
    Indented,
    /// A lazy continuation of the last paragraph.
    Lazy,
}

/// The lines from `j` on (before `line_max`) that a definition takes in, and
/// where it ends: indented lines always, one blank line at a time, and
/// unindented lines as lazy continuations unless they follow a blank line or
/// start a block of their own; an outdented line ends it.
pub open spec fn continuation(ls: Seq<FootnoteLine>, j: int, line_max: int, last_empty: bool) -> (int, Seq<ContinuationLine>)
    decreases line_max - j,
{
    if j < 0 || j >= line_max || j >= ls.len() {
        (j, Seq::empty())
    } else {
        let l = ls[j];
        if l.indent < 0 {
            (j, Seq::empty())
        } else if l.empty {
            if last_empty {
                (j, Seq::empty())
            } else {
                let (e, rs) = continuation(ls, j + 1, line_max, true);
                (e, seq![ContinuationLine::Blank] + rs)
            }
        } else if l.indent >= FOOTNOTE_DEF_INDENT {
            let (e, rs) = continuation(ls, j + 1, line_max, false);
            (e, seq![ContinuationLine::Indented] + rs)
        } else if l.starts_block || last_empty {
            (j, Seq::empty())
        } else {
            let (e, rs) = continuation(ls, j + 1, line_max, false);
            (e, seq![ContinuationLine::Lazy] + rs)
        }
    }
}

/// What the definition rule decides for a definition starting at
/// `start_line`: its label, the byte column of its content on the header
/// line, the first line after it, and how each line after the header is
/// rewritten.
#[derive(Clone, Debug)]
pub struct FootnoteDefPlan {
    pub label: String,
    pub content_col: usize,
    pub next_line: usize,
    pub lines: Vec<ContinuationLine>,
}

impl FootnoteDefScanner {
    /// Decide a footnote definition on line `start_line`, whose indentation
    /// is `indent` and whose text (indentation removed) is `header`: `None`
    /// unless it is indented at most 3 columns and starts with `[^label]:`;
    /// else the plan of the definition (see `continuation`). `lines` describes
    /// the lines of the block being parsed.
    pub fn run(indent: i32, header: &str, lines: &[FootnoteLine], start_line: usize, line_max: usize) -> (r: Option<
        FootnoteDefPlan,
    >)
        requires
            start_line < line_max <= lines@.len(),
        ensures
            (indent > 3 || spec_parse_header(header@) is None) ==> r is None,
            indent <= 3 ==> match spec_parse_header(header@) {
                Some((label, col)) => r matches Some(p) && p.label@ == label && p.content_col == col && (
                p.next_line as int,
                p.lines@,
                ) == continuation(lines@, start_line + 1, line_max as int, false),
                None => true,
            },
    {
        if indent > 3 {
            return None;
        }
        let (label, content_col) = match Self::parse_header(header) {
            Some(h) => h,
            None => {
                return None;
            },
        };
        let ghost ls = lines@;
        let mut rewrites: Vec<ContinuationLine> = Vec::new();
        let mut next_line = start_line + 1;
        let mut last_line_empty = false;
        while next_line < line_max
            invariant_except_break
                next_line <= line_max,
            invariant
                ls == lines@,
                line_max <= lines@.len(),
                start_line + 1 <= next_line,
                rewrites@ + continuation(ls, next_line as int, line_max as int, last_line_empty).1 == continuation(
                    ls,
                    start_line + 1,
                    line_max as int,
                    false,
                ).1,
                continuation(ls, next_line as int, line_max as int, last_line_empty).0 == continuation(
                    ls,
                    start_line + 1,
                    line_max as int,
                    false,
                ).0,
            ensures
                continuation(ls, next_line as int, line_max as int, last_line_empty) == (next_line as int, Seq::<
                    ContinuationLine,
                >::empty()),
            decreases line_max - next_line,
        {
            let l = lines[next_line];
            let ghost before = rewrites@;
            if l.indent < 0 {
                break;
            }
            if l.empty {
                if last_line_empty {
                    break;
                }
                rewrites.push(ContinuationLine::Blank);
                proof {
                    let rest = continuation(ls, next_line + 1, line_max as int, true);
                    assert(rewrites@ + rest.1 =~= before + (seq![ContinuationLine::Blank] + rest.1));
                }
                last_line_empty = true;
                next_line += 1;
                continue;
            }
            if l.indent >= FOOTNOTE_DEF_INDENT {
                rewrites.push(ContinuationLine::Indented);
                proof {
                    let rest = continuation(ls, next_line + 1, line_max as int, false);
                    assert(rewrites@ + rest.1 =~= before + (seq![ContinuationLine::Indented] + rest.1));
                }
                last_line_empty = false;
                next_line += 1;
                continue;
            }
            if l.starts_block || last_line_empty {
                break;
            }
            rewrites.push(ContinuationLine::Lazy);
            proof {
                let rest = continuation(ls, next_line + 1, line_max as int, false);
                assert(rewrites@ + rest.1 =~= before + (seq![ContinuationLine::Lazy] + rest.1));
            }
            last_line_empty = false;
            next_line += 1;
        }
        proof {
            assert(rewrites@ =~= rewrites@ + Seq::<ContinuationLine>::empty());
        }
        Some(FootnoteDefPlan { label, content_col, next_line, lines: rewrites })
    }
}

/// No two blank lines follow each other in `rs`.
#[verifier::opaque]
pub open spec fn no_double_blank(rs: Seq<ContinuationLine>) -> bool {
    forall|k: int| 0 <= k < rs.len() - 1 ==> !(#[trigger] rs[k] is Blank && rs[k + 1] is Blank)
}

proof fn lemma_cons_no_double_blank(x: ContinuationLine, rest: Seq<ContinuationLine>)
    requires
        no_double_blank(rest),
        x is Blank && rest.len() > 0 ==> !(rest[0] is Blank),
    ensures
        no_double_blank(seq![x] + rest),
{
    reveal(no_double_blank);
    let rs = seq![x] + rest;
    assert forall|k: int| 0 <= k < rs.len() - 1 implies !(#[trigger] rs[k] is Blank && rs[k + 1] is Blank) by {
        if k > 0 {
            assert(rs[k] == rest[k - 1]);
        }
        assert(rs[k + 1] == rest[k]);
    }
}

/// A footnote definition never runs over two blank lines in a row: after a
/// blank line the next line it takes, if any, is not blank.
pub proof fn lemma_continuation_blank_lines(ls: Seq<FootnoteLine>, j: int, line_max: int, last_empty: bool)
    ensures
        last_empty && continuation(ls, j, line_max, last_empty).1.len() > 0 ==> !(continuation(
            ls,
            j,
            line_max,
            last_empty,
        ).1[0] is Blank),
        no_double_blank(continuation(ls, j, line_max, last_empty).1),
    decreases line_max - j,
{
    if j < 0 || j >= line_max || j >= ls.len() {
        reveal(no_double_blank);
    } else {
        let l = ls[j];
        if l.indent < 0 || (l.empty && last_empty) || (!l.empty && l.indent < FOOTNOTE_DEF_INDENT && (l.starts_block || last_empty)) {
            reveal(no_double_blank);
        } else {
            if l.empty {
                if !last_empty {
                    lemma_continuation_blank_lines(ls, j + 1, line_max, true);
                    lemma_cons_no_double_blank(ContinuationLine::Blank, continuation(ls, j + 1, line_max, true).1);
                }
            } else if l.indent >= FOOTNOTE_DEF_INDENT {
                lemma_continuation_blank_lines(ls, j + 1, line_max, false);
                lemma_cons_no_double_blank(ContinuationLine::Indented, continuation(ls, j + 1, line_max, false).1);
            } else {
                lemma_continuation_blank_lines(ls, j + 1, line_max, false);
                lemma_cons_no_double_blank(ContinuationLine::Lazy, continuation(ls, j + 1, line_max, false).1);
            }
        }
    }
}

} // verus!
