//! The scans over a text value that find inline math (`$…$`) and footnote
//! references (`[^label]`), and the checks on backslash escapes they rely on.
//!
//! All delimiters are ASCII, and a UTF-8 continuation byte is never ASCII, so
//! the scans are stated byte by byte: a delimiter can only sit where a
//! character starts.
use vstd::prelude::*;
use vstd::utf8::*;
use vstd::string::StringSliceAdditionalSpecFns;
use crate::text::lemma_ascii_is_char_boundary;

verus! {

broadcast use vstd::seq::group_seq_axioms;

/// Number of backslashes right before byte `i`.
pub open spec fn backslash_run(b: Seq<u8>, i: int) -> nat
    decreases i,
{
    if i <= 0 || i > b.len() || b[i - 1] != 92 {
        0
    } else {
        1 + backslash_run(b, i - 1)
    }
}

/// Byte `i` is escaped: an odd number of backslashes precede it.
pub open spec fn spec_is_escaped(b: Seq<u8>, i: int) -> bool {
    backslash_run(b, i) % 2 == 1
}

/// Whether the byte at `byte_index` of `value` is backslash-escaped.
pub fn is_escaped(value: &str, byte_index: usize) -> (r: bool)
    requires
        byte_index <= value.spec_bytes().len(),
    ensures
        r == spec_is_escaped(value.spec_bytes(), byte_index as int),
{
    let b = value.as_bytes();
    let mut count: usize = 0;
    let mut j = byte_index;
    while j > 0 && b[j - 1] == 92
        invariant
            b@ == value.spec_bytes(),
            j <= byte_index <= b@.len(),
            count == byte_index - j,
            backslash_run(b@, byte_index as int) == count + backslash_run(b@, j as int),
        decreases j,
    {
        count = count + 1;
        j = j - 1;
    }
    count % 2 == 1
}

/// Some byte of `b[lo..hi]` is a line feed.
pub open spec fn has_newline(b: Seq<u8>, lo: int, hi: int) -> bool {
    exists|k: int| lo <= k < hi && b[k] == 10
}

/// The first `$` at or after `c` that is not escaped and is on the same line as
/// `from`.
pub open spec fn closing_dollar_from(b: Seq<u8>, from: int, c: int) -> Option<int>
    decreases b.len() - c,
{
    if c < 0 || c >= b.len() {
        None
    } else if b[c] == 36 && !spec_is_escaped(b, c) && !has_newline(b, from, c) {
        Some(c)
    } else {
        closing_dollar_from(b, from, c + 1)
    }
}

/// The closing `$` of an inline math span whose content starts at `from`.
pub open spec fn spec_find_closing_math_delimiter(b: Seq<u8>, from: int) -> Option<int> {
    closing_dollar_from(b, from, from)
}

/// The byte index of the `$` that closes an inline math span whose content
/// starts at `from`: the first unescaped `$` with no line break before it.
pub fn find_closing_math_delimiter(value: &str, from: usize) -> (r: Option<usize>)
    ensures
        match spec_find_closing_math_delimiter(value.spec_bytes(), from as int) {
            Some(k) => r == Some(k as usize) && from <= k < value.spec_bytes().len(),
            None => r is None,
        },
{
    let b = value.as_bytes();
    let n = b.len();
    let mut c = from;
    let mut newline_seen = false;
    while c < n
        invariant
            b@ == value.spec_bytes(),
            n == b@.len(),
            from <= c,
            newline_seen == has_newline(b@, from as int, c as int),
            closing_dollar_from(b@, from as int, from as int) == closing_dollar_from(b@, from as int, c as int),
        decreases n - c,
    {
        if b[c] == 36 && !newline_seen && !is_escaped(value, c) {
            return Some(c);
        }
        if b[c] == 10 {
            newline_seen = true;
        }
        proof {
            assert(has_newline(b@, from as int, c + 1) == (has_newline(b@, from as int, c as int) || b@[c as int] == 10));
        }
        c = c + 1;
    }
    None
}

/// The first `]` at or after `c`.
pub open spec fn first_close_bracket(b: Seq<u8>, c: int) -> Option<int>
    decreases b.len() - c,
{
    if c < 0 || c >= b.len() {
        None
    } else if b[c] == 93 {
        Some(c)
    } else {
        first_close_bracket(b, c + 1)
    }
}

/// A non-empty inline math span opens at byte `i`; its closing `$`.
pub open spec fn math_at(b: Seq<u8>, i: int) -> Option<int> {
    if b[i] == 36 && !spec_is_escaped(b, i) {
        match spec_find_closing_math_delimiter(b, i + 1) {
            Some(end) => if end > i + 1 { Some(end) } else { None },
            None => None,
        }
    } else {
        None
    }
}

/// A footnote reference `[^label]` with a non-empty label opens at byte `i`;
/// its closing `]`.
pub open spec fn footnote_at(b: Seq<u8>, i: int) -> Option<int> {
    if b[i] == 91 && !spec_is_escaped(b, i) && i + 1 < b.len() && b[i + 1] == 94 && i + 2 < b.len() {
        match first_close_bracket(b, i + 2) {
            Some(end) => if end > i + 2 { Some(end) } else { None },
            None => None,
        }
    } else {
        None
    }
}

/// What an inline extension is: a math span with its content range, or a
/// footnote reference with its label range.
#[derive(Clone, Copy, Debug, PartialEq, Eq, Structural)]
pub enum InlineExtensionKind {
    Math { content_start: usize, end: usize },
    Footnote { label_start: usize, end: usize },
}

/// An inline extension starting at byte `start` of a text value.
#[derive(Clone, Copy, Debug, PartialEq, Eq, Structural)]
pub struct InlineExtension {
    pub start: usize,
    pub kind: InlineExtensionKind,
}

/// The first inline extension that starts at or after byte `c`; at a given
/// byte a math span is preferred to a footnote reference.
pub open spec fn next_extension_from(b: Seq<u8>, c: int) -> Option<InlineExtension>
    decreases b.len() - c,
{
    if c < 0 || c >= b.len() {
        None
    } else {
        match math_at(b, c) {
            Some(end) => Some(
                InlineExtension {
                    start: c as usize,
                    kind: InlineExtensionKind::Math { content_start: (c + 1) as usize, end: end as usize },
                },
            ),
            None => match footnote_at(b, c) {
                Some(end) => Some(
                    InlineExtension {
                        start: c as usize,
                        kind: InlineExtensionKind::Footnote { label_start: (c + 2) as usize, end: end as usize },
                    },
                ),
                None => next_extension_from(b, c + 1),
            },
        }
    }
}

pub(crate) fn first_close_bracket_exec(b: &[u8], from: usize) -> (r: Option<usize>)
    ensures
        match first_close_bracket(b@, from as int) {
            Some(k) => r == Some(k as usize) && from <= k < b@.len() && b@[k] == 93,
            None => r is None,
        },
{
    proof {
        lemma_first_close_bracket(b@, from as int);
    }
    let mut c = from;
    while c < b.len()
        invariant
            from <= c,
            first_close_bracket(b@, from as int) == first_close_bracket(b@, c as int),
        decreases b@.len() - c,
    {
        if b[c] == 93 {
            return Some(c);
        }
        c = c + 1;
    }
    None
}

/// The first inline math span or footnote reference of `value` that starts at
/// or after byte `from` (a character boundary).
pub fn find_next_inline_extension(value: &str, from: usize) -> (r: Option<InlineExtension>)
    ensures
        r == next_extension_from(value.spec_bytes(), from as int),
{
    let b = value.as_bytes();
    let n = b.len();
    let mut c = from;
    while c < n
        invariant
            b@ == value.spec_bytes(),
            n == b@.len(),
            from <= c,
            next_extension_from(b@, from as int) == next_extension_from(b@, c as int),
        decreases n - c,
    {
        if b[c] == 36 && !is_escaped(value, c) {
            if let Some(end) = find_closing_math_delimiter(value, c + 1) {
                if end > c + 1 {
                    return Some(
                        InlineExtension { start: c, kind: InlineExtensionKind::Math { content_start: c + 1, end } },
                    );
                }
            }
        }
        if b[c] == 91 && !is_escaped(value, c) && c + 1 < n && b[c + 1] == 94 && c + 2 < n {
            if let Some(end) = first_close_bracket_exec(b, c + 2) {
                if end > c + 2 {
                    return Some(
                        InlineExtension {
                            start: c,
                            kind: InlineExtensionKind::Footnote { label_start: c + 2, end },
                        },
                    );
                }
            }
        }
        proof {
            assert(math_at(b@, c as int) is None);
            assert(footnote_at(b@, c as int) is None);
        }
        c = c + 1;
    }
    None
}

/// `b` holds byte `x`.
pub open spec fn has_byte(b: Seq<u8>, x: u8) -> bool {
    exists|k: int| 0 <= k < b.len() && b[k] == x
}

/// `b` holds the two-byte sequence `[^`.
pub open spec fn has_caret_open(b: Seq<u8>) -> bool {
    exists|k: int| 0 <= k < b.len() - 1 && #[trigger] b[k] == 91 && b[k + 1] == 94
}

/// Whether a text value may hold inline math or a footnote reference: it
/// holds a `$` or a `[^`.
pub fn inline_extension_scan_needed(value: &str) -> (r: bool)
    ensures
        r == (has_byte(value.spec_bytes(), 36) || has_caret_open(value.spec_bytes())),
{
    let b = value.as_bytes();
    let n = b.len();
    let mut k: usize = 0;
    while k < n
        invariant
            b@ == value.spec_bytes(),
            n == b@.len(),
            k <= n,
            forall|j: int| 0 <= j < k ==> b@[j] != 36,
            forall|j: int| 0 <= j < k && j < n - 1 ==> !(#[trigger] b@[j] == 91 && b@[j + 1] == 94),
        decreases n - k,
    {
        if b[k] == 36 {
            return true;
        }
        if k + 1 < n && b[k] == 91 && b[k + 1] == 94 {
            return true;
        }
        k = k + 1;
    }
    false
}

/// The first `[^` at or after byte `k` whose remainder holds no `]`.
pub open spec fn unclosed_caret_from(b: Seq<u8>, k: int) -> Option<int>
    decreases b.len() - k,
{
    if k < 0 || k + 1 >= b.len() {
        None
    } else if b[k] == 91 && b[k + 1] == 94 && !has_byte(b.subrange(k + 2, b.len() as int), 93) {
        Some(k)
    } else {
        unclosed_caret_from(b, k + 1)
    }
}

/// If `value` holds a `[^` whose remainder has no `]`, the text before the
/// `[` and the text after the `^` (the label so far), for the first such `[^`.
pub fn find_unclosed_footnote_open(value: &str) -> (r: Option<(&str, &str)>)
    ensures
        match unclosed_caret_from(value.spec_bytes(), 0) {
            Some(k) => r matches Some((before, rest)) && before.spec_bytes() == value.spec_bytes().subrange(0, k)
                && rest.spec_bytes() == value.spec_bytes().subrange(k + 2, value.spec_bytes().len() as int),
            None => r is None,
        },
{
    let b = value.as_bytes();
    let n = b.len();
    let ghost src = b@;
    proof {
        encode_utf8_valid_utf8(value@);
    }
    let mut k: usize = 0;
    while n > 0 && k < n - 1
        invariant
            b@ == src,
            src == value.spec_bytes(),
            valid_utf8(src),
            n == src.len(),
            unclosed_caret_from(src, 0) == unclosed_caret_from(src, k as int),
        decreases n - k,
    {
        if b[k] == 91 && b[k + 1] == 94 {
            let mut j = k + 2;
            let mut closed = false;
            while j < n
                invariant_except_break
                    !closed,
                invariant
                    b@ == src,
                    src == value.spec_bytes(),
                    valid_utf8(src),
                    n == src.len(),
                    k + 2 <= j <= n,
                    forall|q: int| k + 2 <= q < j ==> src[q] != 93,
                ensures
                    closed ==> j < n && src[j as int] == 93,
                    !closed ==> j == n,
                    k + 2 <= j <= n,
                    forall|q: int| k + 2 <= q < j ==> src[q] != 93,
                decreases n - j,
            {
                if b[j] == 93 {
                    closed = true;
                    break;
                }
                assert(src[j as int] != 93);
                j = j + 1;
            }
            proof {
                let tail = src.subrange(k + 2, n as int);
                if closed {
                    assert(tail[j - (k + 2)] == 93);
                } else {
                    assert forall|q: int| 0 <= q < tail.len() implies tail[q] != 93 by {
                        assert(tail[q] == src[q + k + 2]);
                    }
                }
            }
            if !closed {
                proof {
                    lemma_ascii_is_char_boundary(src, k as int);
                }
                let (before, after) = value.split_at(k);
                proof {
                    assert(after.spec_bytes() =~= src.subrange(k as int, n as int));
                    crate::text::lemma_ascii_cut_valid(src, k as int, n as int);
                    lemma_ascii_is_char_boundary(after.spec_bytes(), 2);
                }
                let (_, rest) = after.split_at(2);
                proof {
                    assert(rest.spec_bytes() =~= src.subrange(k + 2, n as int));
                }
                return Some((before, rest));
            }
        }
        k = k + 1;
    }
    None
}

/// `b[k]` closes a math span whose content starts at `from`.
pub open spec fn closes_math(b: Seq<u8>, from: int, k: int) -> bool {
    b[k] == 36 && !spec_is_escaped(b, k) && !has_newline(b, from, k)
}

proof fn lemma_closing_dollar_from(b: Seq<u8>, from: int, c: int)
    requires
        0 <= from <= c,
    ensures
        match closing_dollar_from(b, from, c) {
            Some(k) => c <= k < b.len() && closes_math(b, from, k) && forall|j: int| c <= j < k ==> !closes_math(b, from, j),
            None => forall|j: int| c <= j < b.len() ==> !closes_math(b, from, j),
        },
    decreases b.len() - c,
{
    if c < b.len() && !closes_math(b, from, c) {
        lemma_closing_dollar_from(b, from, c + 1);
    }
}

/// The closing delimiter of an inline math span is the first `$` after the
/// opener that is not escaped and has no line break before it; when there is
/// none, no `$` closes the span.
pub proof fn lemma_closing_math_delimiter(b: Seq<u8>, from: int)
    requires
        0 <= from,
    ensures
        match spec_find_closing_math_delimiter(b, from) {
            Some(k) => from <= k < b.len() && closes_math(b, from, k) && forall|j: int| from <= j < k ==> !closes_math(
                b,
                from,
                j,
            ),
            None => forall|j: int| from <= j < b.len() ==> !closes_math(b, from, j),
        },
{
    lemma_closing_dollar_from(b, from, from);
}

proof fn lemma_first_close_bracket(b: Seq<u8>, c: int)
    requires
        0 <= c,
    ensures
        first_close_bracket(b, c) matches Some(k) ==> c <= k < b.len() && b[k] == 93 && forall|j: int| c <= j < k ==> b[j] != 93,
    decreases b.len() - c,
{
    if c < b.len() && b[c] != 93 {
        lemma_first_close_bracket(b, c + 1);
    }
}

proof fn lemma_next_extension_from(b: Seq<u8>, c: int)
    requires
        0 <= c,
        b.len() <= usize::MAX,
    ensures
        match next_extension_from(b, c) {
            Some(e) => c <= e.start < b.len() && match e.kind {
                InlineExtensionKind::Math { content_start, end } => b[e.start as int] == 36 && content_start == e.start + 1
                    && e.start + 1 < end < b.len() && closes_math(b, e.start + 1, end as int),
                InlineExtensionKind::Footnote { label_start, end } => b[e.start as int] == 91 && b[e.start + 1] == 94
                    && label_start == e.start + 2 && e.start + 2 < end < b.len() && b[end as int] == 93 && forall|j: int|
                    e.start + 2 <= j < end ==> b[j] != 93,
            },
            None => true,
        },
    decreases b.len() - c,
{
    if c < b.len() {
        if b[c] == 36 && !spec_is_escaped(b, c) {
            lemma_closing_math_delimiter(b, c + 1);
        }
        if b[c] == 91 && !spec_is_escaped(b, c) && c + 1 < b.len() && b[c + 1] == 94 && c + 2 < b.len() {
            lemma_first_close_bracket(b, c + 2);
        }
        if math_at(b, c) is None && footnote_at(b, c) is None {
            lemma_next_extension_from(b, c + 1);
        }
    }
}

/// What the scan finds is a real inline extension: a math span opens with an
/// unescaped `$` and is closed, on the same line, by a later one with content
/// between them; a footnote reference is `[^`, a non-empty label without `]`,
/// and the `]` that closes it.
pub proof fn lemma_inline_extension_sound(b: Seq<u8>, from: int)
    requires
        0 <= from,
        b.len() <= usize::MAX,
    ensures
        match next_extension_from(b, from) {
            Some(e) => from <= e.start < b.len() && match e.kind {
                InlineExtensionKind::Math { content_start, end } => b[e.start as int] == 36 && content_start == e.start + 1
                    && e.start + 1 < end < b.len() && closes_math(b, e.start + 1, end as int),
                InlineExtensionKind::Footnote { label_start, end } => b[e.start as int] == 91 && b[e.start + 1] == 94
                    && label_start == e.start + 2 && e.start + 2 < end < b.len() && b[end as int] == 93 && forall|j: int|
                    e.start + 2 <= j < end ==> b[j] != 93,
            },
            None => true,
        },
{
    lemma_next_extension_from(b, from);
}

} // verus!
