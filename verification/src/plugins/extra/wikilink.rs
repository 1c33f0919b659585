//! Wiki links: `[[target]]`, `[[target|label]]`, `[[target#section]]` and
//! `[[#section]]`.
//!
//! The content runs from `[[` to the first `]]`; a `[`, a line break, or a
//! single `]` before it means no wiki link. The content splits at its first
//! `|` (the label) and the part before it at its first `#` (the section). An
//! empty label or section, or no target and no section, means no wiki link,
//! and the text is left to the CommonMark rules. Inline math wins: `[[` that
//! sits inside a `$…$` span is not a wiki link.
use vstd::prelude::*;
use vstd::utf8::*;
use vstd::string::StringSliceAdditionalSpecFns;
use crate::parser::{MarkdownParser, Placement, RuleId};
use crate::supramark::inline_ext::{backslash_run, spec_is_escaped};
use crate::text::string_of_ascii_cut;

verus! {

broadcast use vstd::seq::group_seq_axioms;

/// A wiki link: its raw target, section and label.
#[derive(Clone, Debug)]
pub struct WikiLink {
    pub target: String,
    pub section: Option<String>,
    pub label: Option<String>,
}

/// A wiki link as UTF-8 bytes.
pub struct WikiLinkSpec {
    pub target: Seq<u8>,
    pub section: Option<Seq<u8>>,
    pub label: Option<Seq<u8>>,
}

pub open spec fn opt_bytes(o: Option<String>) -> Option<Seq<u8>> {
    match o {
        Some(s) => Some(encode_utf8(s@)),
        None => None,
    }
}

impl View for WikiLink {
    type V = WikiLinkSpec;

    open spec fn view(&self) -> WikiLinkSpec {
        WikiLinkSpec {
            target: encode_utf8(self.target@),
            section: opt_bytes(self.section),
            label: opt_bytes(self.label),
        }
    }
}

/// Register wiki links, before CommonMark links so that `[[target]]` is a wiki
/// link even when a `[target]: url` definition exists.
pub fn add(md: &mut MarkdownParser)
    ensures
        final(md)@ == old(md)@.push_inline(RuleId::WikiLink, Placement::Before(RuleId::Link)),
{
    md.inline.add_rule(RuleId::WikiLink, Placement::Before(RuleId::Link));
}

/// The first byte in `b[i..max]` that is a line break or a bracket.
pub open spec fn first_stop(b: Seq<u8>, i: int, max: int) -> Option<int>
    decreases max - i,
{
    if i < 0 || i >= max || i >= b.len() {
        None
    } else if b[i] == 10 || b[i] == 13 || b[i] == 91 || b[i] == 93 {
        Some(i)
    } else {
        first_stop(b, i + 1, max)
    }
}

/// The first index in `b[lo..hi]` that holds `x`.
pub open spec fn first_in(b: Seq<u8>, x: u8, lo: int, hi: int) -> Option<int>
    decreases hi - lo,
{
    if lo < 0 || lo >= hi || lo >= b.len() {
        None
    } else if b[lo] == x {
        Some(lo)
    } else {
        first_in(b, x, lo + 1, hi)
    }
}

/// The `]]` that closes a wiki link opened at `pos`.
pub open spec fn wiki_close(b: Seq<u8>, pos: int, max: int) -> Option<int> {
    match first_stop(b, pos + 2, max) {
        Some(q) => if b[q] == 93 && q + 1 < max && b[q + 1] == 93 {
            Some(q)
        } else {
            None
        },
        None => None,
    }
}

/// The wiki link whose content is `b[lo..hi]`, before the inline math check.
pub open spec fn wiki_parts(b: Seq<u8>, lo: int, hi: int) -> Option<WikiLinkSpec> {
    let (t_hi, label) = match first_in(b, 124, lo, hi) {
        Some(p) => (p, Some(b.subrange(p + 1, hi))),
        None => (hi, None),
    };
    if label matches Some(l) && l.len() == 0 {
        None
    } else {
        let (target, section) = match first_in(b, 35, lo, t_hi) {
            Some(h) => (b.subrange(lo, h), Some(b.subrange(h + 1, t_hi))),
            None => (b.subrange(lo, t_hi), None),
        };
        if section matches Some(s) && s.len() == 0 {
            None
        } else if target.len() == 0 && section is None {
            None
        } else {
            Some(WikiLinkSpec { target, section, label })
        }
    }
}

/// The first `$` of `b` at or after `i`.
pub open spec fn first_dollar(b: Seq<u8>, i: int) -> Option<int>
    decreases b.len() - i,
{
    if i < 0 || i >= b.len() {
        None
    } else if b[i] == 36 {
        Some(i)
    } else {
        first_dollar(b, i + 1)
    }
}

/// The first line feed or `$` of `b` at or after `k`.
pub open spec fn first_nl_or_dollar(b: Seq<u8>, k: int) -> Option<int>
    decreases b.len() - k,
{
    if k < 0 || k >= b.len() {
        None
    } else if b[k] == 10 || b[k] == 36 {
        Some(k)
    } else {
        first_nl_or_dollar(b, k + 1)
    }
}

pub proof fn lemma_first_dollar_bounds(b: Seq<u8>, i: int)
    requires
        0 <= i,
    ensures
        first_dollar(b, i) matches Some(p) ==> i <= p < b.len() && b[p] == 36,
    decreases b.len() - i,
{
    if i < b.len() && b[i] != 36 {
        lemma_first_dollar_bounds(b, i + 1);
    }
}

pub proof fn lemma_first_nl_or_dollar_bounds(b: Seq<u8>, k: int)
    requires
        0 <= k,
    ensures
        first_nl_or_dollar(b, k) matches Some(q) ==> k <= q < b.len() && (b[q] == 10 || b[q] == 36),
    decreases b.len() - k,
{
    if k < b.len() && b[k] != 10 && b[k] != 36 {
        lemma_first_nl_or_dollar_bounds(b, k + 1);
    }
}

/// The inline math pairing over `b[i..]` ends inside an open span: a `$`
/// whose closer (the next `$` on its line, not right after it) is not in the
/// text. A span that closes resumes the scan after it; an opener with no
/// same-line closer, or with an empty content, resumes after the opener.
pub open spec fn open_span_from(b: Seq<u8>, i: int) -> bool
    decreases b.len() - i,
{
    if i < 0 {
        false
    } else {
        match first_dollar(b, i) {
            None => false,
            Some(p) => {
                proof {
                    lemma_first_dollar_bounds(b, i);
                    lemma_first_nl_or_dollar_bounds(b, p + 1);
                }
                match first_nl_or_dollar(b, p + 1) {
                    None => true,
                    Some(q) => if b[q] == 10 {
                        open_span_from(b, p + 1)
                    } else if q > p + 1 {
                        open_span_from(b, q + 1)
                    } else {
                        open_span_from(b, p + 1)
                    },
                }
            },
        }
    }
}

/// Whether the current text run (the last child, when it is text) ends inside
/// an open inline math span.
pub fn ends_inside_open_math_span(last_text: Option<&str>) -> (r: bool)
    ensures
        r == match last_text {
            Some(t) => open_span_from(t.spec_bytes(), 0),
            None => false,
        },
{
    let text = match last_text {
        Some(t) => t,
        None => {
            return false;
        },
    };
    let bytes = text.as_bytes();
    let n = bytes.len();
    let ghost b = bytes@;
    let mut i: usize = 0;
    loop
        invariant
            last_text == Some(text),
            bytes@ == b,
            b == text.spec_bytes(),
            n == b.len(),
            i <= n,
            open_span_from(b, 0) == open_span_from(b, i as int),
        decreases n - i,
    {
        let mut p = i;
        while p < n && bytes[p] != 36
            invariant
                bytes@ == b,
                b == text.spec_bytes(),
                n == b.len(),
                i <= p <= n,
                open_span_from(b, 0) == open_span_from(b, i as int),
                first_dollar(b, i as int) == first_dollar(b, p as int),
            decreases n - p,
        {
            p += 1;
        }
        if p >= n {
            return false;
        }
        assert(first_dollar(b, p as int) == Some(p as int));
        let mut k = p + 1;
        while k < n && bytes[k] != 10 && bytes[k] != 36
            invariant
                bytes@ == b,
                b == text.spec_bytes(),
                n == b.len(),
                i <= p < n,
                b[p as int] == 36,
                p < k <= n,
                open_span_from(b, 0) == open_span_from(b, i as int),
                first_dollar(b, i as int) == Some(p as int),
                first_nl_or_dollar(b, p + 1) == first_nl_or_dollar(b, k as int),
            decreases n - k,
        {
            k += 1;
        }
        if k >= n {
            return true;
        }
        if bytes[k] == 10 {
            i = p + 1;
        } else if k > p + 1 {
            i = k + 1;
        } else {
            i = p + 1;
        }
    }
}

/// An unescaped `$` in `b[i..max]` before the next line break.
pub open spec fn closer_follows(b: Seq<u8>, i: int, max: int) -> bool
    decreases max - i,
{
    if i < 0 || i >= max || i >= b.len() || b[i] == 10 {
        false
    } else if b[i] == 36 && !spec_is_escaped(b, i) {
        true
    } else {
        closer_follows(b, i + 1, max)
    }
}

/// Whether the byte at `index` is escaped by an odd number of backslashes.
pub fn is_escaped_byte(bytes: &[u8], index: usize) -> (r: bool)
    requires
        index <= bytes@.len(),
    ensures
        r == spec_is_escaped(bytes@, index as int),
{
    let mut backslashes: usize = 0;
    let mut j = index;
    while j > 0 && bytes[j - 1] == 92
        invariant
            j <= index <= bytes@.len(),
            backslashes == index - j,
            backslash_run(bytes@, index as int) == backslashes + backslash_run(bytes@, j as int),
        decreases j,
    {
        backslashes += 1;
        j -= 1;
    }
    backslashes % 2 == 1
}

/// Whether an unescaped `$` comes between `from` and the next line break (or
/// `pos_max`): a closer for an open math span.
pub fn math_closer_follows(src: &str, pos_max: usize, from: usize) -> (r: bool)
    requires
        pos_max <= src.spec_bytes().len(),
    ensures
        r == closer_follows(src.spec_bytes(), from as int, pos_max as int),
{
    let bytes = src.as_bytes();
    let mut i = from;
    while i < pos_max && bytes[i] != 10
        invariant
            bytes@ == src.spec_bytes(),
            pos_max <= bytes@.len(),
            from <= i,
            closer_follows(bytes@, from as int, pos_max as int) == closer_follows(bytes@, i as int, pos_max as int),
        decreases pos_max - i,
    {
        if bytes[i] == 36 && !is_escaped_byte(bytes, i) {
            return true;
        }
        i += 1;
    }
    false
}

/// Whether `[[…]]` with its `]]` at `close` sits inside an inline math span:
/// the current text run ends in an open span, and a closer follows the `]]`
/// on the same line.
pub fn inside_math_span(last_text: Option<&str>, src: &str, pos_max: usize, close: usize) -> (r: bool)
    requires
        pos_max <= src.spec_bytes().len(),
        close + 2 <= usize::MAX,
    ensures
        r == ((match last_text {
            Some(t) => open_span_from(t.spec_bytes(), 0),
            None => false,
        }) && closer_follows(src.spec_bytes(), close + 2, pos_max as int)),
{
    ends_inside_open_math_span(last_text) && math_closer_follows(src, pos_max, close + 2)
}

/// What the wiki-link rule makes of `src` at `pos`, as plain values: the link
/// and the bytes it takes.
pub open spec fn spec_wikilink_run(b: Seq<u8>, pos: int, max: int, last: Option<Seq<u8>>) -> Option<(WikiLinkSpec, int)> {
    if pos + 1 >= max || b[pos] != 91 || b[pos + 1] != 91 {
        None
    } else {
        match wiki_close(b, pos, max) {
            None => None,
            Some(close) => match wiki_parts(b, pos + 2, close) {
                None => None,
                Some(w) => if (match last {
                    Some(t) => open_span_from(t, 0),
                    None => false,
                }) && closer_follows(b, close + 2, max) {
                    None
                } else {
                    Some((w, close + 2 - pos))
                },
            },
        }
    }
}

pub open spec fn opt_str_bytes(o: Option<&str>) -> Option<Seq<u8>> {
    match o {
        Some(s) => Some(s.spec_bytes()),
        None => None,
    }
}

/// The inline rule for wiki links.
pub struct WikiLinkScanner;

impl WikiLinkScanner {
    /// The rule takes nothing when only validating a link label, so that
    /// bracket counting there is not disturbed.
    pub fn check() -> (r: Option<usize>)
        ensures
            r is None,
    {
        None
    }

    /// Scan a wiki link at byte `pos` of `src` (the inline content ends at
    /// `pos_max`; `last_text` is the text child the content so far ends
    /// with, if any). Gives the link and the bytes it takes.
    pub fn run(src: &str, pos: usize, pos_max: usize, last_text: Option<&str>) -> (r: Option<(WikiLink, usize)>)
        requires
            pos <= pos_max <= src.spec_bytes().len(),
        ensures
            match spec_wikilink_run(src.spec_bytes(), pos as int, pos_max as int, opt_str_bytes(last_text)) {
                Some((w, len)) => r matches Some((link, l)) && link@ == w && l == len,
                None => r is None,
            },
    {
        let bytes = src.as_bytes();
        let ghost b = bytes@;
        proof {
            encode_utf8_valid_utf8(src@);
        }
        let max = pos_max;
        if max - pos <= 1 || bytes[pos] != 91 || bytes[pos + 1] != 91 {
            return None;
        }
        let mut q = pos + 2;
        while q < max && !(bytes[q] == 10 || bytes[q] == 13 || bytes[q] == 91 || bytes[q] == 93)
            invariant
                bytes@ == b,
                max <= b.len(),
                pos + 2 <= q <= max,
                first_stop(b, pos + 2, max as int) == first_stop(b, q as int, max as int),
            decreases max - q,
        {
            q += 1;
        }
        if q >= max || bytes[q] != 93 || q + 1 >= max || bytes[q + 1] != 93 {
            return None;
        }
        let close = q;
        let lo = pos + 2;
        let mut p = lo;
        while p < close && bytes[p] != 124
            invariant
                bytes@ == b,
                lo <= p <= close,
                close < b.len(),
                first_in(b, 124, lo as int, close as int) == first_in(b, 124, p as int, close as int),
            decreases close - p,
        {
            p += 1;
        }
        let t_hi = p;
        if p < close && p + 1 == close {
            return None;
        }
        let mut h = lo;
        while h < t_hi && bytes[h] != 35
            invariant
                bytes@ == b,
                lo <= h <= t_hi,
                t_hi <= close < b.len(),
                first_in(b, 35, lo as int, t_hi as int) == first_in(b, 35, h as int, t_hi as int),
            decreases t_hi - h,
        {
            h += 1;
        }
        if h < t_hi && h + 1 == t_hi {
            return None;
        }
        if h == lo && h == t_hi {
            return None;
        }
        if inside_math_span(last_text, src, pos_max, close) {
            return None;
        }
        let label = if p < close {
            Some(string_of_ascii_cut(bytes, p + 1, close))
        } else {
            None
        };
        let target = string_of_ascii_cut(bytes, lo, h);
        let section = if h < t_hi {
            Some(string_of_ascii_cut(bytes, h + 1, t_hi))
        } else {
            None
        };
        Some((WikiLink { target, section, label }, close + 2 - pos))
    }
}

} // verus!
