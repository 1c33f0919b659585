//! Inline HTML.
use vstd::prelude::*;
use crate::parser::{MarkdownParser, Placement, RuleId};
use crate::text::{chars_of, push_char};

verus! {

broadcast use vstd::seq::group_seq_axioms;

/// A raw inline HTML tag, comment, processing instruction, declaration or
/// CDATA section.
#[derive(Clone, Debug)]
pub struct HtmlInline {
    pub content: String,
}

/// The inline rule for raw HTML.
pub struct HtmlInlineScanner;

/// Register inline HTML.
pub fn add(md: &mut MarkdownParser)
    ensures
        final(md)@ == old(md)@.push_inline(RuleId::HtmlInline, Placement::Default),
{
    md.inline.add_rule(RuleId::HtmlInline, Placement::Default);
}

/// Blanks that a continuation line of a raw-text construct loses.
pub open spec fn is_line_blank(c: char) -> bool {
    c == ' ' || c == '\t' || c == '\r' || c == '\n' || c == '\u{0c}'
}

/// `v[i..]` with the blanks that start each line after the first removed;
/// `line_start` tells whether `i` starts such a line.
pub open spec fn strip_continuations(v: Seq<char>, i: int, line_start: bool) -> Seq<char>
    decreases v.len() - i,
{
    if i < 0 || i >= v.len() {
        Seq::empty()
    } else if v[i] == '\n' {
        seq!['\n'] + strip_continuations(v, i + 1, true)
    } else if line_start && is_line_blank(v[i]) {
        strip_continuations(v, i + 1, true)
    } else {
        seq![v[i]] + strip_continuations(v, i + 1, false)
    }
}

/// The raw-text constructs: comments, processing instructions,
/// declarations and CDATA sections all start with `<!` or `<?`.
pub open spec fn is_raw_text_construct(v: Seq<char>) -> bool {
    v.len() >= 2 && v[0] == '<' && (v[1] == '!' || v[1] == '?')
}

/// An inline HTML value as the document model keeps it: in a comment, processing
/// instruction, declaration or CDATA section, each line after the first
/// loses its leading blanks; other tags are kept as they are.
pub open spec fn spec_normalize_raw_inline(v: Seq<char>) -> Seq<char> {
    if is_raw_text_construct(v) {
        strip_continuations(v, 0, false)
    } else {
        v
    }
}

/// Normalize the line breaks of a raw-text HTML construct.
pub fn normalize_raw_inline(value: &str) -> (r: String)
    ensures
        r@ == spec_normalize_raw_inline(value@),
{
    let v = chars_of(value);
    let n = v.len();
    if !(n >= 2 && v[0] == '<' && (v[1] == '!' || v[1] == '?')) {
        return value.to_owned();
    }
    let mut out = String::new();
    let mut line_start = false;
    let mut i: usize = 0;
    while i < n
        invariant
            v@ == value@,
            n == v@.len(),
            i <= n,
            out@ + strip_continuations(v@, i as int, line_start) == strip_continuations(v@, 0, false),
        decreases n - i,
    {
        let c = v[i];
        let ghost before = out@;
        if c == '\n' {
            push_char(&mut out, '\n');
            line_start = true;
            assert(out@ + strip_continuations(v@, i + 1, true) =~= before + (seq!['\n'] + strip_continuations(v@, i + 1, true)));
        } else if line_start && (c == ' ' || c == '\t' || c == '\r' || c == '\u{0c}') {
        } else {
            push_char(&mut out, c);
            line_start = false;
            assert(out@ + strip_continuations(v@, i + 1, false) =~= before + (seq![c] + strip_continuations(v@, i + 1, false)));
        }
        i += 1;
    }
    assert(out@ + strip_continuations(v@, n as int, line_start) =~= out@);
    out
}

} // verus!
