//! Line breaks: a line feed in inline content is a soft break, or a hard
//! break when two or more spaces (and no tab) end the preceding text.
use vstd::prelude::*;
use crate::parser::{MarkdownParser, Placement, RuleId};
use vstd::string::StringSliceAdditionalSpecFns;
use crate::text::chars_of;

verus! {

broadcast use vstd::seq::group_seq_axioms;

/// A hard line break.
#[derive(Clone, Copy, Debug, PartialEq, Eq, Structural)]
pub struct Hardbreak;

/// A soft line break.
#[derive(Clone, Copy, Debug, PartialEq, Eq, Structural)]
pub struct Softbreak;

/// The kind of break a line feed makes.
#[derive(Clone, Copy, Debug, PartialEq, Eq, Structural)]
pub enum LineBreak {
    Hard,
    Soft,
}

/// Register line breaks.
pub fn add(md: &mut MarkdownParser)
    ensures
        final(md)@ == old(md)@.push_inline(RuleId::Newline, Placement::Default),
{
    md.inline.add_rule(RuleId::Newline, Placement::Default);
}

/// Index of the first character at or after `i` that is neither a space nor
/// a tab.
pub open spec fn blanks_end(v: Seq<char>, i: int) -> int
    decreases v.len() - i,
{
    if i < 0 || i >= v.len() {
        if i < 0 { 0 } else { i }
    } else if v[i] == ' ' || v[i] == '\t' {
        blanks_end(v, i + 1)
    } else {
        i
    }
}

/// Start of the run of spaces and tabs that ends `t[..j]`.
pub open spec fn blanks_start(t: Seq<char>, j: int) -> int
    decreases j,
{
    if j <= 0 || j > t.len() {
        if j <= 0 { 0 } else { j }
    } else if t[j - 1] == ' ' || t[j - 1] == '\t' {
        blanks_start(t, j - 1)
    } else {
        j
    }
}

/// Number of spaces in `t[lo..hi]`.
pub open spec fn count_spaces(t: Seq<char>, lo: int, hi: int) -> int
    decreases hi - lo,
{
    if hi <= lo {
        0
    } else {
        count_spaces(t, lo, hi - 1) + if t[hi - 1] == ' ' { 1int } else { 0int }
    }
}

/// `t[lo..hi]` holds a tab.
pub open spec fn has_tab(t: Seq<char>, lo: int, hi: int) -> bool {
    exists|k: int| lo <= k < hi && t[k] == '\t'
}

/// What the line-break rule does with the text `v` that starts at the
/// current position, after the text `t` that precedes it in the current run:
/// the break's kind, the bytes it takes from the position backed up over the
/// trailing blanks of `t`, and how many trailing characters it removes from
/// `t`.
pub open spec fn spec_newline_run(v: Seq<char>, t: Seq<char>) -> Option<(LineBreak, int, int)> {
    if v.len() == 0 || v[0] != '\n' {
        None
    } else {
        let after = blanks_end(v, 1);
        let s = blanks_start(t, t.len() as int);
        let suffix = t.len() - s;
        let kind = if count_spaces(t, s, t.len() as int) >= 2 && !has_tab(t, s, t.len() as int) {
            LineBreak::Hard
        } else {
            LineBreak::Soft
        };
        Some((kind, after + suffix, suffix))
    }
}

/// The inline rule for line breaks.
pub struct NewlineScanner;

impl NewlineScanner {
    /// Whether the text from the current position starts with a line feed:
    /// the rule then takes one byte.
    pub fn check(rest: &str) -> (r: Option<usize>)
        requires
            rest@.len() > 0,
        ensures
            r == (if rest@[0] == '\n' { Some(1usize) } else { None::<usize> }),
    {
        let v = chars_of(rest);
        if v[0] != '\n' {
            return None;
        }
        Some(1)
    }

    /// Scan the text `rest` from the current position, with `trailing_text`
    /// the text before it in the current run. Gives the break, the number of
    /// bytes taken from the position backed up over the blanks that end
    /// `trailing_text`, and the number of those blanks, which leave the text.
    pub fn run(rest: &str, trailing_text: &str) -> (r: Option<(LineBreak, usize, usize)>)
        requires
            rest@.len() > 0,
            rest.spec_bytes().len() + trailing_text.spec_bytes().len() <= usize::MAX,
        ensures
            match spec_newline_run(rest@, trailing_text@) {
                Some((k, len, popped)) => r == Some((k, len as usize, popped as usize)),
                None => r is None,
            },
    {
        let v = chars_of(rest);
        let n = v.len();
        if v[0] != '\n' {
            return None;
        }
        proof {
            vstd::utf8::encode_utf8_valid_utf8(rest@);
            lemma_chars_le_bytes(rest@);
            lemma_chars_le_bytes(trailing_text@);
        }
        let mut after: usize = 1;
        while after < n && (v[after] == ' ' || v[after] == '\t')
            invariant
                v@ == rest@,
                n == v@.len(),
                1 <= after <= n,
                blanks_end(v@, 1) == blanks_end(v@, after as int),
            decreases n - after,
        {
            after += 1;
        }
        let t = chars_of(trailing_text);
        let m = t.len();
        let mut s = m;
        let mut spaces: usize = 0;
        let mut tab = false;
        while s > 0 && (t[s - 1] == ' ' || t[s - 1] == '\t')
            invariant
                t@ == trailing_text@,
                m == t@.len(),
                s <= m,
                blanks_start(t@, m as int) == blanks_start(t@, s as int),
                spaces == count_spaces(t@, s as int, m as int),
                spaces <= m - s,
                tab == has_tab(t@, s as int, m as int),
            decreases s,
        {
            proof {
                lemma_count_spaces_front(t@, s - 1, m as int);
                assert(has_tab(t@, s - 1, m as int) == (t@[s - 1] == '\t' || has_tab(t@, s as int, m as int)));
            }
            if t[s - 1] == ' ' {
                spaces += 1;
            } else {
                tab = true;
            }
            s -= 1;
        }
        let suffix = m - s;
        let kind = if spaces >= 2 && !tab {
            LineBreak::Hard
        } else {
            LineBreak::Soft
        };
        Some((kind, after + suffix, suffix))
    }
}

/// Counting from the front gives the same number of spaces.
proof fn lemma_count_spaces_front(t: Seq<char>, lo: int, hi: int)
    requires
        0 <= lo < hi <= t.len(),
    ensures
        count_spaces(t, lo, hi) == count_spaces(t, lo + 1, hi) + if t[lo] == ' ' { 1int } else { 0int },
    decreases hi - lo,
{
    if hi - 1 > lo {
        lemma_count_spaces_front(t, lo, hi - 1);
        assert(count_spaces(t, lo + 1, hi) == count_spaces(t, lo + 1, hi - 1) + if t[hi - 1] == ' ' {
            1int
        } else {
            0int
        });
    } else {
        assert(count_spaces(t, lo, lo) == 0);
        assert(count_spaces(t, lo + 1, hi) == 0);
    }
}

/// A string has no more characters than bytes.
proof fn lemma_chars_le_bytes(s: Seq<char>)
    ensures
        s.len() <= vstd::utf8::encode_utf8(s).len(),
    decreases s.len(),
{
    if s.len() > 0 {
        lemma_chars_le_bytes(s.drop_first());
        vstd::utf8::char_is_scalar(s[0]);
        assert(vstd::utf8::encode_utf8(s) == vstd::utf8::encode_scalar(s[0] as u32) + vstd::utf8::encode_utf8(
            s.drop_first(),
        ));
        assert(vstd::utf8::encode_scalar(s[0] as u32).len() >= 1);
    }
}

} // verus!
