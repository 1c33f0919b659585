//! GFM autolink extension: bare `www.`, scheme (`http://`/`https://`/`ftp://`)
//! and email autolinking, with the GFM rules for
//! trailing punctuation, parenthesis balancing, `<` truncation, `&entity;`
//! truncation and the `mailto:`/`xmpp:` rewind.
//!
//! The matchers work on the UTF-8 bytes of a text run. Each is specified by a
//! spec function over byte sequences (`spec_www_match`, `spec_url_match`,
//! `spec_email_match`, `spec_autolink_split`) and proved to compute it.
use vstd::prelude::*;
use vstd::utf8::*;
use vstd::string::StringSliceAdditionalSpecFns;
use crate::text::{string_of_range, copy_range, push_range, lemma_ascii_is_char_boundary};
use crate::parser::{MarkdownParser, Placement, RuleId};

verus! {

broadcast use vstd::seq::group_seq_axioms;

// ---------------------------------------------------------------------------
// Byte classes
// ---------------------------------------------------------------------------

/// ASCII whitespace: space, tab, LF, CR, VT, FF.
pub open spec fn spec_is_space(b: u8) -> bool {
    b == 32 || b == 9 || b == 10 || b == 13 || b == 11 || b == 12
}

/// ASCII punctuation: ``!"#$%&'()*+,-./:;<=>?@[\]^_`{|}~``.
pub open spec fn spec_is_punct(b: u8) -> bool {
    (33 <= b <= 47) || (58 <= b <= 64) || (91 <= b <= 96) || (123 <= b <= 126)
}

pub open spec fn spec_is_alpha(b: u8) -> bool {
    (65 <= b <= 90) || (97 <= b <= 122)
}

pub open spec fn spec_is_digit(b: u8) -> bool {
    48 <= b <= 57
}

pub open spec fn spec_is_alnum(b: u8) -> bool {
    spec_is_alpha(b) || spec_is_digit(b)
}

/// A byte that may appear in a host name: ASCII other than whitespace and
/// punctuation, or a byte that leads a multi-byte UTF-8 character.
pub open spec fn spec_is_valid_hostchar(b: u8) -> bool {
    if b < 0x80 {
        !spec_is_space(b) && !spec_is_punct(b)
    } else {
        b >= 0xC0
    }
}

pub fn is_space(b: u8) -> (r: bool)
    ensures
        r == spec_is_space(b),
{
    b == 32 || b == 9 || b == 10 || b == 13 || b == 11 || b == 12
}

pub fn is_punct(b: u8) -> (r: bool)
    ensures
        r == spec_is_punct(b),
{
    (33 <= b && b <= 47) || (58 <= b && b <= 64) || (91 <= b && b <= 96) || (123 <= b && b <= 126)
}

fn is_alpha(b: u8) -> (r: bool)
    ensures
        r == spec_is_alpha(b),
{
    (65 <= b && b <= 90) || (97 <= b && b <= 122)
}

fn is_alnum(b: u8) -> (r: bool)
    ensures
        r == spec_is_alnum(b),
{
    (65 <= b && b <= 90) || (97 <= b && b <= 122) || (48 <= b && b <= 57)
}

pub fn is_valid_hostchar(b: u8) -> (r: bool)
    ensures
        r == spec_is_valid_hostchar(b),
{
    if b < 0x80 {
        return !is_space(b) && !is_punct(b);
    }
    b >= 0xC0
}

/// ASCII case folding of one byte.
pub open spec fn spec_lower(b: u8) -> u8 {
    if 65 <= b <= 90 {
        (b + 32) as u8
    } else {
        b
    }
}

/// `a` and `b` are equal up to ASCII case.
pub open spec fn spec_eq_ignore_ascii_case(a: Seq<u8>, b: Seq<u8>) -> bool {
    a.len() == b.len() && forall|i: int| 0 <= i < a.len() ==> spec_lower(a[i]) == spec_lower(b[i])
}

pub open spec fn http_word() -> Seq<u8> {
    seq![104u8, 116u8, 116u8, 112u8]
}

pub open spec fn https_word() -> Seq<u8> {
    seq![104u8, 116u8, 116u8, 112u8, 115u8]
}

pub open spec fn ftp_word() -> Seq<u8> {
    seq![102u8, 116u8, 112u8]
}

/// `www.`
pub open spec fn www_dot() -> Seq<u8> {
    seq![119u8, 119u8, 119u8, 46u8]
}

/// `http://`
pub open spec fn http_prefix() -> Seq<u8> {
    seq![104u8, 116u8, 116u8, 112u8, 58u8, 47u8, 47u8]
}

/// `mailto:`
pub open spec fn mailto_prefix() -> Seq<u8> {
    seq![109u8, 97u8, 105u8, 108u8, 116u8, 111u8, 58u8]
}

/// `xmpp:`
pub open spec fn xmpp_prefix() -> Seq<u8> {
    seq![120u8, 109u8, 112u8, 112u8, 58u8]
}

pub open spec fn spec_is_safe_scheme(scheme: Seq<u8>) -> bool {
    spec_eq_ignore_ascii_case(scheme, http_word()) || spec_eq_ignore_ascii_case(scheme, https_word())
        || spec_eq_ignore_ascii_case(scheme, ftp_word())
}

fn lower(b: u8) -> (r: u8)
    ensures
        r == spec_lower(b),
{
    if 65 <= b && b <= 90 {
        b + 32
    } else {
        b
    }
}

pub(crate) fn eq_ignore_ascii_case_at(data: &[u8], lo: usize, hi: usize, word: &[u8]) -> (r: bool)
    requires
        lo <= hi <= data@.len(),
    ensures
        r == spec_eq_ignore_ascii_case(data@.subrange(lo as int, hi as int), word@),
{
    if hi - lo != word.len() {
        return false;
    }
    let mut i: usize = 0;
    while i < word.len()
        invariant
            lo <= hi <= data@.len(),
            hi - lo == word@.len(),
            0 <= i <= word@.len(),
            forall|k: int| 0 <= k < i ==> spec_lower(data@[lo + k]) == spec_lower(word@[k]),
        decreases word@.len() - i,
    {
        if lower(data[lo + i]) != lower(word[i]) {
            assert(data@.subrange(lo as int, hi as int)[i as int] == data@[lo + i]);
            return false;
        }
        i += 1;
    }
    true
}

/// Whether `scheme` is `http`, `https` or `ftp`, ignoring ASCII case.
pub fn is_safe_scheme(scheme: &[u8]) -> (r: bool)
    ensures
        r == spec_is_safe_scheme(scheme@),
{
    let http: [u8; 4] = [104u8, 116u8, 116u8, 112u8];
    let https: [u8; 5] = [104u8, 116u8, 116u8, 112u8, 115u8];
    let ftp: [u8; 3] = [102u8, 116u8, 112u8];
    assert(http@ == http_word());
    assert(https@ == https_word());
    assert(ftp@ == ftp_word());
    let n = scheme.len();
    assert(scheme@.subrange(0, n as int) == scheme@);
    eq_ignore_ascii_case_at(scheme, 0, n, &http) || eq_ignore_ascii_case_at(scheme, 0, n, &https)
        || eq_ignore_ascii_case_at(scheme, 0, n, &ftp)
}

// ---------------------------------------------------------------------------
// Domain check
// ---------------------------------------------------------------------------

/// The scan of `check_domain` from index `i`, with `np` dots seen and the
/// underscore counts of the last two labels. Returns the index where the scan
/// stopped and the final counters.
pub open spec fn domain_scan(data: Seq<u8>, i: int, np: int, us1: int, us2: int) -> (int, int, int, int)
    decreases data.len() - i,
{
    if i < 0 || i >= data.len() - 1 {
        (i, np, us1, us2)
    } else {
        let j = if data[i] == 92 && i < data.len() - 2 { i + 1 } else { i };
        let c = data[j];
        if c == 95 {
            domain_scan(data, j + 1, np, us1, us2 + 1)
        } else if c == 46 {
            domain_scan(data, j + 1, np + 1, us2, 0)
        } else if !spec_is_valid_hostchar(c) && c != 45 {
            (j, np, us1, us2)
        } else {
            domain_scan(data, j + 1, np, us1, us2)
        }
    }
}

/// Length of the domain at the start of `data` (the scan starts at index 1),
/// or `None` when an underscore sits in one of the last two labels of a short
/// domain, or when a dot is required (`!allow_short`) and there is none.
pub open spec fn spec_check_domain(data: Seq<u8>, allow_short: bool) -> Option<int> {
    let (i, np, us1, us2) = domain_scan(data, 1, 0, 0, 0);
    if (us1 > 0 || us2 > 0) && np <= 10 {
        None
    } else if allow_short {
        Some(i)
    } else if np > 0 {
        Some(i)
    } else {
        None
    }
}

proof fn lemma_domain_scan_bounds(data: Seq<u8>, i: int, np: int, us1: int, us2: int)
    requires
        1 <= i,
        data.len() >= 1,
        i <= data.len(),
    ensures
        ({
            let (e, _, _, _) = domain_scan(data, i, np, us1, us2);
            i <= e <= data.len()
        }),
    decreases data.len() - i,
{
    if i >= data.len() - 1 {
    } else {
        let j = if data[i] == 92 && i < data.len() - 2 { i + 1 } else { i };
        if j + 1 <= data.len() {
            lemma_domain_scan_bounds(data, j + 1, np, us1, us2 + 1);
            lemma_domain_scan_bounds(data, j + 1, np + 1, us2, 0);
            lemma_domain_scan_bounds(data, j + 1, np, us1, us2);
        }
    }
}

/// The length of the domain at the start of
/// `data`, scanning from index 1.
pub fn check_domain(data: &[u8], allow_short: bool) -> (r: Option<usize>)
    requires
        data@.len() >= 1,
    ensures
        r matches Some(n) ==> spec_check_domain(data@, allow_short) == Some(n as int),
        r is None ==> spec_check_domain(data@, allow_short) is None,
        r matches Some(n) ==> 1 <= n <= data@.len(),
{
    let mut np: usize = 0;
    let mut uscore1: usize = 0;
    let mut uscore2: usize = 0;
    let size = data.len();
    let mut i: usize = 1;
    proof {
        lemma_domain_scan_bounds(data@, 1, 0, 0, 0);
    }
    while i < size - 1
        invariant_except_break
            domain_scan(data@, i as int, np as int, uscore1 as int, uscore2 as int)
                == domain_scan(data@, 1, 0, 0, 0),
        invariant
            size == data@.len(),
            size >= 1,
            1 <= i <= size,
            np <= i,
            uscore1 <= i,
            uscore2 <= i,
        ensures
            domain_scan(data@, 1, 0, 0, 0) == (i as int, np as int, uscore1 as int, uscore2 as int),
        decreases size - i,
    {
        if data[i] == 92 && i < size - 2 {
            i += 1;
        }
        let c = data[i];
        if c == 95 {
            uscore2 += 1;
        } else if c == 46 {
            uscore1 = uscore2;
            uscore2 = 0;
            np += 1;
        } else if !is_valid_hostchar(c) && c != 45 {
            break;
        }
        i += 1;
    }
    proof {
        lemma_domain_scan_bounds(data@, 1, 0, 0, 0);
    }
    if uscore1 > 0 || uscore2 > 0 {
        if np <= 10 {
            return None;
        }
    }
    if allow_short {
        Some(i)
    } else {
        if np > 0 {
            Some(i)
        } else {
            None
        }
    }
}

// ---------------------------------------------------------------------------
// Link end: `<` truncation and trailing-punctuation trimming
// ---------------------------------------------------------------------------

/// Index of the first `<` in `data[i..end]`, or `end`.
pub open spec fn first_lt(data: Seq<u8>, i: int, end: int) -> int
    decreases end - i,
{
    if i >= end {
        end
    } else if data[i] == 60 {
        i
    } else {
        first_lt(data, i + 1, end)
    }
}

/// Number of occurrences of the byte `b` in `data[lo..hi]`.
pub open spec fn count_byte(data: Seq<u8>, lo: int, hi: int, b: u8) -> int
    decreases hi - lo,
{
    if hi <= lo {
        0
    } else {
        count_byte(data, lo, hi - 1, b) + if data[hi - 1] == b { 1int } else { 0int }
    }
}

/// Walk back from `k` over ASCII letters.
pub open spec fn entity_back(data: Seq<u8>, k: int) -> int
    decreases k,
{
    if k > 0 && spec_is_alpha(data[k]) {
        entity_back(data, k - 1)
    } else {
        k
    }
}

/// Bytes trimmed from the end of a link: `?!.,:*_~'"`.
pub open spec fn spec_trailing_punct(c: u8) -> bool {
    c == 63 || c == 33 || c == 46 || c == 44 || c == 58 || c == 42 || c == 95 || c == 126 || c == 39
        || c == 34
}

/// Trailing trim of `autolink_delim`: unbalanced `)`, trailing punctuation
/// and a trailing `&entity;` are removed from `data[..end]`.
pub open spec fn delim_trim(data: Seq<u8>, end: int, opening: int, closing: int) -> int
    decreases end,
{
    if end <= 0 {
        end
    } else {
        let c = data[end - 1];
        if c == 41 {
            if closing <= opening {
                end
            } else {
                delim_trim(data, end - 1, opening, closing - 1)
            }
        } else if spec_trailing_punct(c) {
            delim_trim(data, end - 1, opening, closing)
        } else if c == 59 {
            if end >= 2 {
                let ne = entity_back(data, end - 2);
                if 0 <= ne < end - 2 && data[ne] == 38 {
                    delim_trim(data, ne, opening, closing)
                } else {
                    delim_trim(data, end - 1, opening, closing)
                }
            } else {
                delim_trim(data, end - 1, opening, closing)
            }
        } else {
            end
        }
    }
}

/// The end of the link inside `data[..link_end]`.
pub open spec fn spec_autolink_delim(data: Seq<u8>, link_end: int) -> int {
    let e = first_lt(data, 0, link_end);
    delim_trim(data, e, count_byte(data, 0, e, 40), count_byte(data, 0, e, 41))
}

proof fn lemma_first_lt(data: Seq<u8>, i: int, end: int)
    requires
        0 <= i <= end <= data.len(),
    ensures
        i <= first_lt(data, i, end) <= end,
        first_lt(data, i, end) < end ==> data[first_lt(data, i, end)] == 60,
        forall|k: int| i <= k < first_lt(data, i, end) ==> data[k] != 60,
    decreases end - i,
{
    if i < end && data[i] != 60 {
        lemma_first_lt(data, i + 1, end);
    }
}

proof fn lemma_entity_back(data: Seq<u8>, k: int)
    requires
        0 <= k < data.len(),
    ensures
        0 <= entity_back(data, k) <= k,
    decreases k,
{
    if k > 0 && spec_is_alpha(data[k]) {
        lemma_entity_back(data, k - 1);
    }
}

/// The trimmed end never grows, and it stops right before an ASCII byte (or
/// where the untrimmed end stopped).
proof fn lemma_delim_trim(data: Seq<u8>, end: int, opening: int, closing: int)
    requires
        0 <= end <= data.len(),
    ensures
        0 <= delim_trim(data, end, opening, closing) <= end,
        delim_trim(data, end, opening, closing) < end ==> data[delim_trim(data, end, opening, closing)] < 0x80,
    decreases end,
{
    if end > 0 {
        let c = data[end - 1];
        if c == 41 {
            if closing > opening {
                lemma_delim_trim(data, end - 1, opening, closing - 1);
            }
        } else if spec_trailing_punct(c) {
            lemma_delim_trim(data, end - 1, opening, closing);
        } else if c == 59 {
            if end >= 2 {
                lemma_entity_back(data, end - 2);
                let ne = entity_back(data, end - 2);
                if 0 <= ne < end - 2 && data[ne] == 38 {
                    lemma_delim_trim(data, ne, opening, closing);
                } else {
                    lemma_delim_trim(data, end - 1, opening, closing);
                }
            } else {
                lemma_delim_trim(data, end - 1, opening, closing);
            }
        }
    }
}

/// Cut `data[..link_end]` at the first `<`,
/// then trim trailing punctuation, unbalanced `)` and an `&entity;` tail.
pub fn autolink_delim(data: &[u8], link_end: usize) -> (r: usize)
    requires
        link_end <= data@.len(),
    ensures
        r as int == spec_autolink_delim(data@, link_end as int),
        r <= link_end,
        (r as int) < first_lt(data@, 0, link_end as int) ==> data@[r as int] < 0x80,
{
    let ghost end0 = link_end;
    let mut le = link_end;
    let mut opening: usize = 0;
    let mut closing: usize = 0;
    let mut i: usize = 0;
    proof {
        lemma_first_lt(data@, 0, end0 as int);
    }
    while i < le
        invariant_except_break
            le == end0,
        invariant
            end0 <= data@.len(),
            i <= end0,
            i <= first_lt(data@, 0, end0 as int),
            opening as int == count_byte(data@, 0, i as int, 40),
            closing as int == count_byte(data@, 0, i as int, 41),
            opening <= i,
            closing <= i,
            0 <= first_lt(data@, 0, end0 as int) <= end0,
            first_lt(data@, 0, end0 as int) < end0 ==> data@[first_lt(data@, 0, end0 as int)] == 60,
            forall|k: int| 0 <= k < first_lt(data@, 0, end0 as int) ==> data@[k] != 60,
        ensures
            le as int == first_lt(data@, 0, end0 as int),
            i == le,
            opening as int == count_byte(data@, 0, i as int, 40),
            closing as int == count_byte(data@, 0, i as int, 41),
        decreases end0 - i,
    {
        let c = data[i];
        if c == 60 {
            le = i;
            break;
        } else if c == 40 {
            opening += 1;
        } else if c == 41 {
            closing += 1;
        }
        i += 1;
    }
    let ghost e = first_lt(data@, 0, end0 as int);
    assert(le as int == e && i as int == e);
    proof {
        lemma_delim_trim(data@, e, opening as int, closing as int);
    }
    while le > 0
        invariant
            e == first_lt(data@, 0, end0 as int),
            end0 == link_end,
            le <= e <= end0 <= data@.len(),
            delim_trim(data@, le as int, opening as int, closing as int)
                == delim_trim(data@, e, count_byte(data@, 0, e, 40), count_byte(data@, 0, e, 41)),
            (le as int) < e ==> data@[le as int] < 0x80,
        decreases le,
    {
        let c = data[le - 1];
        if c == 41 {
            if closing <= opening {
                return le;
            }
            closing -= 1;
            le -= 1;
        } else if c == 63 || c == 33 || c == 46 || c == 44 || c == 58 || c == 42 || c == 95 || c
            == 126 || c == 39 || c == 34 {
            le -= 1;
        } else if c == 59 {
            if le >= 2 {
                let tail = le - 2;
                let mut new_end = tail;
                while new_end > 0 && is_alpha(data[new_end])
                    invariant
                        new_end <= tail,
                        tail + 2 == le,
                        tail < data@.len(),
                        entity_back(data@, new_end as int) == entity_back(data@, tail as int),
                    decreases new_end,
                {
                    new_end -= 1;
                }
                if new_end < tail && data[new_end] == 38 {
                    le = new_end;
                } else {
                    le -= 1;
                }
            } else {
                le -= 1;
            }
        } else {
            return le;
        }
    }
    le
}

/// Index of the first whitespace or `<` in `data[i..]`, or `data.len()`.
pub open spec fn scan_link_end(data: Seq<u8>, i: int) -> int
    decreases data.len() - i,
{
    if i >= data.len() || spec_is_space(data[i]) || data[i] == 60 {
        i
    } else {
        scan_link_end(data, i + 1)
    }
}

proof fn lemma_scan_link_end(data: Seq<u8>, i: int)
    requires
        0 <= i <= data.len(),
    ensures
        i <= scan_link_end(data, i) <= data.len(),
        scan_link_end(data, i) < data.len() ==> data[scan_link_end(data, i)] < 0x80,
    decreases data.len() - i,
{
    if !(i >= data.len() || spec_is_space(data[i]) || data[i] == 60) {
        lemma_scan_link_end(data, i + 1);
    }
}

fn link_end_from(data: &[u8], start: usize) -> (r: usize)
    requires
        start <= data@.len(),
    ensures
        r as int == scan_link_end(data@, start as int),
        start <= r <= data@.len(),
        r < data@.len() ==> data@[r as int] < 0x80,
{
    proof {
        lemma_scan_link_end(data@, start as int);
    }
    let mut link_end = start;
    while link_end < data.len() && !is_space(data[link_end]) && data[link_end] != 60
        invariant
            start <= link_end <= data@.len(),
            scan_link_end(data@, link_end as int) == scan_link_end(data@, start as int),
        decreases data@.len() - link_end,
    {
        link_end += 1;
    }
    link_end
}

/// The end found by `autolink_delim` after the forward scan stops right
/// before an ASCII byte or at the end of `data`.
proof fn lemma_delim_after_scan(data: Seq<u8>, from: int)
    requires
        0 <= from <= data.len(),
    ensures
        ({
            let r = spec_autolink_delim(data, scan_link_end(data, from));
            &&& 0 <= r <= scan_link_end(data, from) <= data.len()
            &&& r < data.len() ==> data[r] < 0x80
        }),
{
    lemma_scan_link_end(data, from);
    let s = scan_link_end(data, from);
    lemma_first_lt(data, 0, s);
    let e = first_lt(data, 0, s);
    lemma_delim_trim(data, e, count_byte(data, 0, e, 40), count_byte(data, 0, e, 41));
}

// ---------------------------------------------------------------------------
// Matches
// ---------------------------------------------------------------------------

/// A match as byte data: `data[start..end]` becomes a link to `url`,
/// displayed as `display`.
pub struct MatchSpec {
    pub start: int,
    pub end: int,
    pub url: Seq<u8>,
    pub display: Seq<u8>,
}

/// One autolink found in a text run: `start..end` are byte offsets into the
/// run, `url` is the link target and `display` the link text.
pub struct Match {
    pub start: usize,
    pub end: usize,
    pub url: String,
    pub display: String,
}

impl View for Match {
    type V = MatchSpec;

    open spec fn view(&self) -> MatchSpec {
        MatchSpec {
            start: self.start as int,
            end: self.end as int,
            url: encode_utf8(self.url@),
            display: encode_utf8(self.display@),
        }
    }
}

pub open spec fn opt_match_view(m: Option<Match>) -> Option<MatchSpec> {
    match m {
        Some(m) => Some(m@),
        None => None,
    }
}

/// The byte before a `www.` match must be whitespace, one of `*_~(`, or absent.
pub open spec fn www_prefix_ok(data: Seq<u8>, pos: int) -> bool {
    pos == 0 || {
        let p = data[pos - 1];
        spec_is_space(p) || p == 42 || p == 95 || p == 126 || p == 40
    }
}

/// The `www.` autolink starting at `pos`.
pub open spec fn spec_www_match(data: Seq<u8>, pos: int) -> Option<MatchSpec> {
    let rest = data.subrange(pos, data.len() as int);
    if !www_prefix_ok(data, pos) {
        None
    } else if rest.len() < 4 || rest.subrange(0, 4) != www_dot() {
        None
    } else {
        match spec_check_domain(rest, false) {
            None => None,
            Some(d) => {
                let le = spec_autolink_delim(rest, scan_link_end(rest, d));
                let m = rest.subrange(0, le);
                if le == 0 || !valid_utf8(m) {
                    None
                } else {
                    Some(MatchSpec { start: pos, end: pos + le, url: http_prefix() + m, display: m })
                }
            },
        }
    }
}

/// A `www.` autolink at `www_pos`: the link text runs
/// over the domain and the rest of the non-space run, trimmed by
/// `autolink_delim`; the target is `http://` followed by the text.
pub fn www_match(data: &[u8], www_pos: usize) -> (r: Option<Match>)
    requires
        www_pos <= data@.len(),
    ensures
        opt_match_view(r) == spec_www_match(data@, www_pos as int),
{
    let ghost rest = data@.subrange(www_pos as int, data@.len() as int);
    if www_pos > 0 {
        let prev = data[www_pos - 1];
        let ok = is_space(prev) || prev == 42 || prev == 95 || prev == 126 || prev == 40;
        if !ok {
            return None;
        }
    }
    let rest_s = &data[www_pos..data.len()];
    assert(rest_s@ == rest);
    if rest_s.len() < 4 || !(rest_s[0] == 119 && rest_s[1] == 119 && rest_s[2] == 119 && rest_s[3] == 46) {
        proof {
            if rest.len() >= 4 {
                assert(rest.subrange(0, 4) != www_dot()) by {
                    if rest.subrange(0, 4) == www_dot() {
                        assert(rest.subrange(0, 4)[0] == rest[0]);
                        assert(rest.subrange(0, 4)[1] == rest[1]);
                        assert(rest.subrange(0, 4)[2] == rest[2]);
                        assert(rest.subrange(0, 4)[3] == rest[3]);
                    }
                }
            }
        }
        return None;
    }
    assert(rest.subrange(0, 4) =~= www_dot());
    let domain_end = match check_domain(rest_s, false) {
        Some(d) => d,
        None => {
            return None;
        },
    };
    let link_end = link_end_from(rest_s, domain_end);
    let link_end = autolink_delim(rest_s, link_end);
    if link_end == 0 {
        return None;
    }
    let display = match string_of_range(rest_s, 0, link_end) {
        Some(s) => s,
        None => {
            return None;
        },
    };
    let mut url_bytes: Vec<u8> = Vec::new();
    url_bytes.push(104);
    url_bytes.push(116);
    url_bytes.push(116);
    url_bytes.push(112);
    url_bytes.push(58);
    url_bytes.push(47);
    url_bytes.push(47);
    assert(url_bytes@ =~= http_prefix());
    push_range(&mut url_bytes, rest_s, 0, link_end);
    let ghost m = rest.subrange(0, link_end as int);
    proof {
        vstd::utf8::encode_utf8_valid_utf8(display@);
        assert(valid_utf8(http_prefix())) by {
            reveal_with_fuel(valid_utf8, 8);
        }
        vstd::utf8::valid_utf8_concat(http_prefix(), m);
    }
    let url = match crate::text::string_from_utf8(url_bytes) {
        Some(u) => u,
        None => {
            return None;
        },
    };
    Some(Match { start: www_pos, end: www_pos + link_end, url, display })
}

/// Number of ASCII letters immediately before `colon` (looking back from
/// `colon - r`).
pub open spec fn rewind_alpha(data: Seq<u8>, colon: int, r: int) -> int
    decreases colon - r,
{
    if 0 <= r < colon && spec_is_alpha(data[colon - r - 1]) {
        rewind_alpha(data, colon, r + 1)
    } else {
        r
    }
}

proof fn lemma_rewind_alpha(data: Seq<u8>, colon: int, r: int)
    requires
        0 <= r <= colon <= data.len(),
        forall|k: int| colon - r <= k < colon ==> spec_is_alpha(data[k]),
    ensures
        r <= rewind_alpha(data, colon, r) <= colon,
        forall|k: int| colon - rewind_alpha(data, colon, r) <= k < colon ==> spec_is_alpha(data[k]),
    decreases colon - r,
{
    if 0 <= r < colon && spec_is_alpha(data[colon - r - 1]) {
        lemma_rewind_alpha(data, colon, r + 1);
    }
}

/// The scheme autolink whose `:` sits at `colon_pos`.
pub open spec fn spec_url_match(data: Seq<u8>, colon_pos: int) -> Option<MatchSpec> {
    let rw = rewind_alpha(data, colon_pos, 0);
    let ss = colon_pos - rw;
    let after = data.subrange(colon_pos, data.len() as int);
    if rw == 0 {
        None
    } else if !spec_is_safe_scheme(data.subrange(ss, colon_pos)) {
        None
    } else if after.len() <= 3 || !spec_is_valid_hostchar(after[3]) {
        None
    } else {
        match spec_check_domain(after.subrange(3, after.len() as int), true) {
            None => None,
            Some(dl) => {
                let le = spec_autolink_delim(after, scan_link_end(after, 3 + dl));
                let m = data.subrange(ss, colon_pos + le);
                if le == 0 || !valid_utf8(m) {
                    None
                } else {
                    Some(MatchSpec { start: ss, end: colon_pos + le, url: m, display: m })
                }
            },
        }
    }
}

/// A scheme autolink (`http://`, `https://`, `ftp://`) whose `:` sits at
/// `colon_pos`.
pub fn url_match(data: &[u8], colon_pos: usize) -> (r: Option<Match>)
    requires
        colon_pos <= data@.len(),
    ensures
        opt_match_view(r) == spec_url_match(data@, colon_pos as int),
{
    let mut rewind: usize = 0;
    proof {
        lemma_rewind_alpha(data@, colon_pos as int, 0);
    }
    while colon_pos > rewind
        invariant
            rewind <= colon_pos <= data@.len(),
            rewind_alpha(data@, colon_pos as int, rewind as int) == rewind_alpha(data@, colon_pos as int, 0),
        ensures
            rewind as int == rewind_alpha(data@, colon_pos as int, 0),
            rewind <= colon_pos,
        decreases colon_pos - rewind,
    {
        let c = data[colon_pos - rewind - 1];
        if is_alpha(c) {
            rewind += 1;
        } else {
            break;
        }
    }
    if rewind == 0 {
        return None;
    }
    let scheme_start = colon_pos - rewind;
    let scheme = &data[scheme_start..colon_pos];
    if !is_safe_scheme(scheme) {
        return None;
    }
    let after = &data[colon_pos..data.len()];
    let ghost after_s = data@.subrange(colon_pos as int, data@.len() as int);
    assert(after@ == after_s);
    if after.len() <= 3 || !is_valid_hostchar(after[3]) {
        return None;
    }
    let mut link_end: usize = 3;
    let domain_part = &after[link_end..after.len()];
    let domain_len = match check_domain(domain_part, true) {
        Some(d) => d,
        None => {
            return None;
        },
    };
    link_end += domain_len;
    let link_end = link_end_from(after, link_end);
    let link_end = autolink_delim(after, link_end);
    if link_end == 0 {
        return None;
    }
    let matched = match string_of_range(data, scheme_start, colon_pos + link_end) {
        Some(s) => s,
        None => {
            return None;
        },
    };
    let display = match string_of_range(data, scheme_start, colon_pos + link_end) {
        Some(s) => s,
        None => {
            return None;
        },
    };
    Some(Match { start: scheme_start, end: colon_pos + link_end, url: matched, display })
}

// ---------------------------------------------------------------------------
// Email autolinks
// ---------------------------------------------------------------------------

/// Outcome of an email scan at one `@`, as byte data.
pub enum EmailScanSpec {
    Found(MatchSpec),
    Skip(int),
}

/// Outcome of an email scan at one `@`.
pub enum EmailScan {
    Found(Match),
    /// Advance the outer cursor by this many bytes from the `@` position.
    Skip(usize),
}

impl View for EmailScan {
    type V = EmailScanSpec;

    open spec fn view(&self) -> EmailScanSpec {
        match self {
            EmailScan::Found(m) => EmailScanSpec::Found(m@),
            EmailScan::Skip(n) => EmailScanSpec::Skip(*n as int),
        }
    }
}

/// Whether `protocol` (`mailto:` or `xmpp:`) ends right before the rewind
/// position and is not glued to a preceding alphanumeric byte.
pub open spec fn spec_validate_protocol(
    protocol: Seq<u8>,
    data: Seq<u8>,
    at_pos: int,
    rewind: int,
    max_rewind: int,
) -> bool {
    let len = protocol.len() as int;
    let ps = at_pos - rewind - len;
    if len > max_rewind - rewind {
        false
    } else if data.subrange(ps, ps + len) != protocol {
        false
    } else if len == max_rewind - rewind {
        true
    } else {
        !spec_is_alnum(data[ps - 1])
    }
}

/// Check that `protocol` ends right before the rewind position of the `@`
/// at `at_pos`, and that no alphanumeric byte is glued to its start.
pub fn validate_protocol(protocol: &[u8], data: &[u8], at_pos: usize, rewind: usize, max_rewind: usize) -> (r: bool)
    requires
        rewind < max_rewind <= at_pos <= data@.len(),
    ensures
        r == spec_validate_protocol(protocol@, data@, at_pos as int, rewind as int, max_rewind as int),
{
    let dlen = data.len();
    let len = protocol.len();
    if len > max_rewind - rewind {
        return false;
    }
    let proto_start = at_pos - rewind - len;
    let ghost ps = at_pos as int - rewind as int - len as int;
    assert(proto_start as int == ps);
    let mut k: usize = 0;
    while k < len
        invariant
            len == protocol@.len(),
            proto_start as int == ps,
            ps == at_pos as int - rewind as int - len as int,
            len <= max_rewind - rewind,
            ps >= 0,
            proto_start + len <= data@.len(),
            dlen == data@.len(),
            0 <= k <= len,
            forall|j: int| 0 <= j < k ==> data@[proto_start + j] == protocol@[j],
        decreases len - k,
    {
        assert(proto_start + k < data@.len());
        let idx = proto_start + k;
        if data[idx] != protocol[k] {
            assert(data@.subrange(ps, ps + len as int)[k as int] == data@[proto_start + k]);
            assert(data@.subrange(ps, ps + len as int) != protocol@);
            return false;
        }
        k += 1;
    }
    assert(data@.subrange(proto_start as int, proto_start + len) =~= protocol@);
    if len == max_rewind - rewind {
        return true;
    }
    let prev = data[proto_start - 1];
    !is_alnum(prev)
}

/// The rewind loop of the email scan: how far the local part reaches back
/// from the `@` at `at_pos`, and the updated `auto_mailto`/`is_xmpp` flags.
pub open spec fn email_rewind(
    data: Seq<u8>,
    at_pos: int,
    max_rewind: int,
    rewind: int,
    auto_mailto: bool,
    is_xmpp: bool,
) -> (int, bool, bool)
    decreases max_rewind - rewind,
{
    if rewind < 0 || rewind >= max_rewind {
        (rewind, auto_mailto, is_xmpp)
    } else {
        let c = data[at_pos - rewind - 1];
        if spec_is_alnum(c) || c == 46 || c == 43 || c == 45 || c == 95 {
            email_rewind(data, at_pos, max_rewind, rewind + 1, auto_mailto, is_xmpp)
        } else if c == 58 {
            if spec_validate_protocol(mailto_prefix(), data, at_pos, rewind, max_rewind) {
                email_rewind(data, at_pos, max_rewind, rewind + 1, false, is_xmpp)
            } else if spec_validate_protocol(xmpp_prefix(), data, at_pos, rewind, max_rewind) {
                email_rewind(data, at_pos, max_rewind, rewind + 1, false, true)
            } else {
                (rewind, auto_mailto, is_xmpp)
            }
        } else {
            (rewind, auto_mailto, is_xmpp)
        }
    }
}

/// The forward scan after the `@`: returns the stopping offset, the number of
/// dots followed by an alphanumeric byte, and whether it stopped at another `@`.
pub open spec fn email_forward(after: Seq<u8>, link_end: int, np: int, is_xmpp: bool) -> (int, int, bool)
    decreases after.len() - link_end,
{
    if link_end < 0 || link_end >= after.len() {
        (link_end, np, false)
    } else {
        let c = after[link_end];
        if spec_is_alnum(c) {
            email_forward(after, link_end + 1, np, is_xmpp)
        } else if c == 64 {
            (link_end, np, true)
        } else if c == 46 && link_end < after.len() - 1 && spec_is_alnum(after[link_end + 1]) {
            email_forward(after, link_end + 1, np + 1, is_xmpp)
        } else if c == 47 && is_xmpp {
            email_forward(after, link_end + 1, np, is_xmpp)
        } else if c == 45 || c == 95 {
            email_forward(after, link_end + 1, np, is_xmpp)
        } else {
            (link_end, np, false)
        }
    }
}

/// The email scan from the `@` at `at_pos` (first `@` at `orig`), with
/// `rewind_floor` bounding the local part; a second `@` rebases the scan.
pub open spec fn email_from(
    data: Seq<u8>,
    orig: int,
    at_pos: int,
    rewind_floor: int,
    auto_mailto: bool,
    is_xmpp: bool,
) -> EmailScanSpec
    decreases data.len() - at_pos,
{
    let max_rewind = at_pos - rewind_floor;
    let (rewind, am, x) = email_rewind(data, at_pos, max_rewind, 0, auto_mailto, is_xmpp);
    let after = data.subrange(at_pos, data.len() as int);
    let (le, np, hit) = email_forward(after, 1, 0, x);
    if rewind == 0 {
        EmailScanSpec::Skip(at_pos - orig + 1)
    } else if hit {
        if 0 < le && at_pos + le <= data.len() {
            email_from(data, orig, at_pos + le, at_pos + 1, am, x)
        } else {
            EmailScanSpec::Skip(0)
        }
    } else if le < 2 || np == 0 {
        EmailScanSpec::Skip(at_pos - orig + le)
    } else if !(spec_is_alpha(after[le - 1]) || after[le - 1] == 46) {
        EmailScanSpec::Skip(at_pos - orig + le)
    } else {
        let le2 = spec_autolink_delim(after, le);
        let m = data.subrange(at_pos - rewind, at_pos + le2);
        if le2 == 0 {
            EmailScanSpec::Skip(at_pos - orig + 1)
        } else if !valid_utf8(m) {
            EmailScanSpec::Skip(at_pos - orig + le2)
        } else {
            EmailScanSpec::Found(
                MatchSpec {
                    start: at_pos - rewind,
                    end: at_pos + le2,
                    url: if am { mailto_prefix() + m } else { m },
                    display: m,
                },
            )
        }
    }
}

/// The email scan at the `@` at `at_pos`.
pub open spec fn spec_email_match(data: Seq<u8>, at_pos: int) -> EmailScanSpec {
    email_from(data, at_pos, at_pos, 0, true, false)
}

proof fn lemma_email_rewind(
    data: Seq<u8>,
    at_pos: int,
    max_rewind: int,
    rewind: int,
    auto_mailto: bool,
    is_xmpp: bool,
)
    requires
        0 <= rewind <= max_rewind <= at_pos <= data.len(),
        forall|k: int| at_pos - rewind <= k < at_pos ==> data[k] < 0x80,
    ensures
        ({
            let (r, _, _) = email_rewind(data, at_pos, max_rewind, rewind, auto_mailto, is_xmpp);
            &&& rewind <= r <= max_rewind
            &&& forall|k: int| at_pos - r <= k < at_pos ==> data[k] < 0x80
        }),
    decreases max_rewind - rewind,
{
    if rewind < max_rewind {
        let c = data[at_pos - rewind - 1];
        if spec_is_alnum(c) || c == 46 || c == 43 || c == 45 || c == 95 {
            lemma_email_rewind(data, at_pos, max_rewind, rewind + 1, auto_mailto, is_xmpp);
        } else if c == 58 {
            lemma_email_rewind(data, at_pos, max_rewind, rewind + 1, false, is_xmpp);
            lemma_email_rewind(data, at_pos, max_rewind, rewind + 1, false, true);
        }
    }
}

proof fn lemma_email_forward(after: Seq<u8>, link_end: int, np: int, is_xmpp: bool)
    requires
        0 <= link_end,
        0 <= np <= link_end,
    ensures
        ({
            let (le, n, hit) = email_forward(after, link_end, np, is_xmpp);
            &&& link_end <= le
            &&& (link_end <= after.len() ==> le <= after.len())
            &&& 0 <= n <= le
            &&& hit ==> le < after.len() && after[le] == 64
            &&& (le > link_end ==> after[le - 1] < 0x80)
        }),
    decreases after.len() - link_end,
{
    if link_end < after.len() {
        let c = after[link_end];
        if spec_is_alnum(c) {
            lemma_email_forward(after, link_end + 1, np, is_xmpp);
        } else if c == 46 && link_end < after.len() - 1 && spec_is_alnum(after[link_end + 1]) {
            lemma_email_forward(after, link_end + 1, np + 1, is_xmpp);
        } else if (c == 47 && is_xmpp) || c == 45 || c == 95 {
            lemma_email_forward(after, link_end + 1, np, is_xmpp);
        }
    }
}

/// The rewind loop of the email scan, executed.
fn run_email_rewind(data: &[u8], at_pos: usize, max_rewind: usize, auto_mailto: bool, is_xmpp: bool) -> (r: (
    usize,
    bool,
    bool,
))
    requires
        max_rewind <= at_pos <= data@.len(),
    ensures
        (r.0 as int, r.1, r.2) == email_rewind(data@, at_pos as int, max_rewind as int, 0, auto_mailto, is_xmpp),
        r.0 <= max_rewind,
{
    let mailto: [u8; 7] = [109u8, 97u8, 105u8, 108u8, 116u8, 111u8, 58u8];
    let xmpp: [u8; 5] = [120u8, 109u8, 112u8, 112u8, 58u8];
    assert(mailto@ =~= mailto_prefix());
    assert(xmpp@ =~= xmpp_prefix());
    let mut rewind: usize = 0;
    let mut am = auto_mailto;
    let mut x = is_xmpp;
    while rewind < max_rewind
        invariant_except_break
            email_rewind(data@, at_pos as int, max_rewind as int, rewind as int, am, x)
                == email_rewind(data@, at_pos as int, max_rewind as int, 0, auto_mailto, is_xmpp),
        invariant
            max_rewind <= at_pos <= data@.len(),
            rewind <= max_rewind,
            mailto@ == mailto_prefix(),
            xmpp@ == xmpp_prefix(),
        ensures
            email_rewind(data@, at_pos as int, max_rewind as int, 0, auto_mailto, is_xmpp)
                == (rewind as int, am, x),
            rewind <= max_rewind,
        decreases max_rewind - rewind,
    {
        let c = data[at_pos - rewind - 1];
        if is_alnum(c) || c == 46 || c == 43 || c == 45 || c == 95 {
            rewind += 1;
        } else if c == 58 && validate_protocol(&mailto, data, at_pos, rewind, max_rewind) {
            am = false;
            rewind += 1;
        } else if c == 58 && validate_protocol(&xmpp, data, at_pos, rewind, max_rewind) {
            am = false;
            x = true;
            rewind += 1;
        } else {
            break;
        }
    }
    (rewind, am, x)
}

/// The forward scan after the `@`, executed on `after` (which starts at the `@`).
fn run_email_forward(after: &[u8], is_xmpp: bool) -> (r: (usize, usize, bool))
    ensures
        (r.0 as int, r.1 as int, r.2) == email_forward(after@, 1, 0, is_xmpp),
        1 <= r.0,
        r.1 <= r.0,
        r.0 <= after@.len() || (after@.len() == 0 && r.0 == 1),
        r.2 ==> r.0 < after@.len(),
{
    let n = after.len();
    let mut np: usize = 0;
    let mut link_end: usize = 1;
    let mut hit = false;
    while link_end < n
        invariant_except_break
            !hit,
            email_forward(after@, link_end as int, np as int, is_xmpp) == email_forward(after@, 1, 0, is_xmpp),
        invariant
            n == after@.len(),
            1 <= link_end,
            np <= link_end,
            link_end <= n || (n == 0 && link_end == 1),
        ensures
            email_forward(after@, 1, 0, is_xmpp) == (link_end as int, np as int, hit),
            1 <= link_end,
            np <= link_end,
            link_end <= n || (n == 0 && link_end == 1),
            hit ==> link_end < n,
        decreases n - link_end,
    {
        let c = after[link_end];
        if is_alnum(c) {
            link_end += 1;
        } else if c == 64 {
            hit = true;
            break;
        } else if c == 46 && link_end < n - 1 && is_alnum(after[link_end + 1]) {
            np += 1;
            link_end += 1;
        } else if c == 47 && is_xmpp {
            link_end += 1;
        } else if c == 45 || c == 95 {
            link_end += 1;
        } else {
            break;
        }
    }
    (link_end, np, hit)
}

/// The end of an email scan that did not meet a second `@`: the checks on the
/// domain, the trailing trim, and the match itself.
fn finish_email(
    data: &[u8],
    orig: usize,
    at_pos: usize,
    rewind: usize,
    auto_mailto: bool,
    link_end: usize,
    np: usize,
) -> (r: EmailScan)
    requires
        data@.len() <= isize::MAX,
        orig <= at_pos <= data@.len(),
        1 <= rewind <= at_pos,
        1 <= link_end,
        link_end <= data@.len() - at_pos || (at_pos == data@.len() && link_end == 1),
    ensures
        r@ == ({
            let after = data@.subrange(at_pos as int, data@.len() as int);
            let le = link_end as int;
            if le < 2 || np == 0 {
                EmailScanSpec::Skip(at_pos - orig + le)
            } else if !(spec_is_alpha(after[le - 1]) || after[le - 1] == 46) {
                EmailScanSpec::Skip(at_pos - orig + le)
            } else {
                let le2 = spec_autolink_delim(after, le);
                let m = data@.subrange(at_pos - rewind, at_pos + le2);
                if le2 == 0 {
                    EmailScanSpec::Skip(at_pos - orig + 1)
                } else if !valid_utf8(m) {
                    EmailScanSpec::Skip(at_pos - orig + le2)
                } else {
                    EmailScanSpec::Found(
                        MatchSpec {
                            start: at_pos - rewind,
                            end: at_pos + le2,
                            url: if auto_mailto { mailto_prefix() + m } else { m },
                            display: m,
                        },
                    )
                }
            }
        }),
{
    let dlen = data.len();
    if link_end < 2 || np == 0 {
        return EmailScan::Skip(at_pos - orig + link_end);
    }
    let after_at = &data[at_pos..dlen];
    assert(after_at@ == data@.subrange(at_pos as int, data@.len() as int));
    let last = after_at[link_end - 1];
    if !(is_alpha(last) || last == 46) {
        return EmailScan::Skip(at_pos - orig + link_end);
    }
    let link_end = autolink_delim(after_at, link_end);
    if link_end == 0 {
        return EmailScan::Skip(at_pos - orig + 1);
    }
    let display = match string_of_range(data, at_pos - rewind, at_pos + link_end) {
        Some(s) => s,
        None => {
            return EmailScan::Skip(at_pos - orig + link_end);
        },
    };
    let ghost m = data@.subrange(at_pos - rewind, at_pos + link_end);
    let url = if auto_mailto {
        let mut url_bytes: Vec<u8> = Vec::new();
        url_bytes.push(109);
        url_bytes.push(97);
        url_bytes.push(105);
        url_bytes.push(108);
        url_bytes.push(116);
        url_bytes.push(111);
        url_bytes.push(58);
        assert(url_bytes@ =~= mailto_prefix());
        push_range(&mut url_bytes, data, at_pos - rewind, at_pos + link_end);
        proof {
            assert(valid_utf8(mailto_prefix())) by {
                reveal_with_fuel(valid_utf8, 8);
            }
            vstd::utf8::encode_utf8_valid_utf8(display@);
            vstd::utf8::valid_utf8_concat(mailto_prefix(), m);
        }
        match crate::text::string_from_utf8(url_bytes) {
            Some(u) => u,
            None => {
                return EmailScan::Skip(at_pos - orig + link_end);
            },
        }
    } else {
        match string_of_range(data, at_pos - rewind, at_pos + link_end) {
            Some(u) => u,
            None => {
                return EmailScan::Skip(at_pos - orig + link_end);
            },
        }
    };
    EmailScan::Found(Match { start: at_pos - rewind, end: at_pos + link_end, url, display })
}

/// The email scan at the `@` at `at_pos0`.
/// A second `@` in the domain rebases the scan onto it; a failed scan reports
/// how far the caller may skip.
pub fn email_match(data: &[u8], at_pos0: usize) -> (r: EmailScan)
    requires
        at_pos0 <= data@.len(),
        data@.len() <= isize::MAX,
    ensures
        r@ == spec_email_match(data@, at_pos0 as int),
{
    let dlen = data.len();
    let orig = at_pos0;
    let mut at_pos = at_pos0;
    let mut rewind_floor: usize = 0;
    let mut auto_mailto = true;
    let mut is_xmpp = false;
    loop
        invariant
            dlen == data@.len(),
            data@.len() <= isize::MAX,
            orig == at_pos0,
            orig <= at_pos <= data@.len(),
            rewind_floor <= at_pos,
            email_from(data@, orig as int, at_pos as int, rewind_floor as int, auto_mailto, is_xmpp)
                == spec_email_match(data@, orig as int),
        decreases data@.len() - at_pos,
    {
        let max_rewind = at_pos - rewind_floor;
        let (rewind, am, x) = run_email_rewind(data, at_pos, max_rewind, auto_mailto, is_xmpp);
        assert(email_from(data@, orig as int, at_pos as int, rewind_floor as int, auto_mailto, is_xmpp)
            == ({
                let after = data@.subrange(at_pos as int, data@.len() as int);
                let (le, np, hit) = email_forward(after, 1, 0, x);
                if rewind == 0 {
                    EmailScanSpec::Skip(at_pos - orig + 1)
                } else if hit {
                    if 0 < le && at_pos + le <= data@.len() {
                        email_from(data@, orig as int, at_pos + le, at_pos + 1, am, x)
                    } else {
                        EmailScanSpec::Skip(0)
                    }
                } else {
                    email_from(data@, orig as int, at_pos as int, rewind_floor as int, auto_mailto, is_xmpp)
                }
            }));
        if rewind == 0 {
            return EmailScan::Skip(at_pos - orig + 1);
        }
        let after_at = &data[at_pos..dlen];
        assert(after_at@ == data@.subrange(at_pos as int, data@.len() as int));
        let (link_end, np, hit) = run_email_forward(after_at, x);
        if hit {
            rewind_floor = at_pos + 1;
            at_pos += link_end;
            auto_mailto = am;
            is_xmpp = x;
            continue;
        }
        return finish_email(data, orig, at_pos, rewind, am, link_end, np);
    }
}

// ---------------------------------------------------------------------------
// Dispatch and text splitting
// ---------------------------------------------------------------------------

/// The `www.` or scheme match triggered at `i` (a `w` starting `www.`, or a
/// `:` followed by `//`).
pub open spec fn spec_match_next(data: Seq<u8>, i: int) -> Option<MatchSpec> {
    if data[i] == 119 && i + 4 <= data.len() && data.subrange(i, i + 4) == www_dot() {
        spec_www_match(data, i)
    } else if data[i] == 58 && i + 2 < data.len() && data[i + 1] == 47 && data[i + 2] == 47 {
        spec_url_match(data, i)
    } else {
        None
    }
}

/// The `www.` or scheme autolink triggered at byte `i`: a `w` that starts
/// `www.`, or a `:` followed by `//`.
pub fn match_next(bytes: &[u8], i: usize) -> (r: Option<Match>)
    requires
        i < bytes@.len(),
    ensures
        opt_match_view(r) == spec_match_next(bytes@, i as int),
{
    let b = bytes[i];
    if b == 119 && bytes.len() >= 4 && i <= bytes.len() - 4 && bytes[i + 1] == 119 && bytes[i + 2] == 119 && bytes[i + 3] == 46 {
        assert(bytes@.subrange(i as int, i + 4) =~= www_dot());
        return www_match(bytes, i);
    }
    proof {
        if b == 119 && i + 4 <= bytes@.len() && bytes@.subrange(i as int, i + 4) == www_dot() {
            assert(bytes@.subrange(i as int, i + 4)[1] == bytes@[i + 1]);
            assert(bytes@.subrange(i as int, i + 4)[2] == bytes@[i + 2]);
            assert(bytes@.subrange(i as int, i + 4)[3] == bytes@[i + 3]);
        }
    }
    if b == 58 && bytes.len() >= 3 && i < bytes.len() - 2 && bytes[i + 1] == 47 && bytes[i + 2] == 47 {
        return url_match(bytes, i);
    }
    None
}


// ---------------------------------------------------------------------------
// Facts about where matches start and end
// ---------------------------------------------------------------------------

/// `pos` is a place where a `&str` over `data` may be cut: the start, the
/// end, or a position at or right after an ASCII byte.
pub open spec fn cut_point(data: Seq<u8>, pos: int) -> bool {
    0 <= pos <= data.len() && (0 < pos < data.len() ==> (data[pos] < 0x80 || data[pos - 1] < 0x80))
}

/// A match found at `i` lies in `data`, ends past `i`, and starts and ends at
/// cut points.
pub open spec fn match_well_placed(data: Seq<u8>, i: int, m: MatchSpec) -> bool {
    &&& 0 <= m.start < m.end <= data.len()
    &&& i < m.end
    &&& data[m.start] < 0x80
    &&& cut_point(data, m.end)
}

proof fn lemma_www_placed(data: Seq<u8>, pos: int)
    requires
        0 <= pos <= data.len(),
        spec_www_match(data, pos) is Some,
    ensures
        match_well_placed(data, pos, spec_www_match(data, pos)->0),
{
    let rest = data.subrange(pos, data.len() as int);
    let d = spec_check_domain(rest, false)->0;
    assert(rest.subrange(0, 4)[0] == rest[0]);
    assert(rest[0] == data[pos]);
    lemma_domain_scan_bounds(rest, 1, 0, 0, 0);
    lemma_delim_after_scan(rest, d);
    let le = spec_autolink_delim(rest, scan_link_end(rest, d));
    if pos + le < data.len() {
        assert(rest[le] == data[pos + le]);
    }
}

proof fn lemma_url_placed(data: Seq<u8>, colon: int)
    requires
        0 <= colon <= data.len(),
        spec_url_match(data, colon) is Some,
    ensures
        match_well_placed(data, colon, spec_url_match(data, colon)->0),
{
    lemma_rewind_alpha(data, colon, 0);
    let rw = rewind_alpha(data, colon, 0);
    let after = data.subrange(colon, data.len() as int);
    let dom = after.subrange(3, after.len() as int);
    lemma_domain_scan_bounds(dom, 1, 0, 0, 0);
    let dl = spec_check_domain(dom, true)->0;
    lemma_delim_after_scan(after, 3 + dl);
    let le = spec_autolink_delim(after, scan_link_end(after, 3 + dl));
    if colon + le < data.len() {
        assert(after[le] == data[colon + le]);
    }
}

proof fn lemma_email_finish_placed(data: Seq<u8>, orig: int, at_pos: int, rewind: int, le: int)
    requires
        0 <= orig <= at_pos <= data.len(),
        1 <= rewind <= at_pos,
        forall|k: int| at_pos - rewind <= k < at_pos ==> data[k] < 0x80,
        2 <= le <= data.len() - at_pos,
        data[at_pos + le - 1] < 0x80,
    ensures
        ({
            let after = data.subrange(at_pos, data.len() as int);
            let le2 = spec_autolink_delim(after, le);
            &&& 0 <= le2 <= le
            &&& (le2 > 0 ==> cut_point(data, at_pos + le2))
            &&& data[at_pos - rewind] < 0x80
        }),
{
    let after = data.subrange(at_pos, data.len() as int);
    lemma_first_lt(after, 0, le);
    let e = first_lt(after, 0, le);
    lemma_delim_trim(after, e, count_byte(after, 0, e, 40), count_byte(after, 0, e, 41));
    let le2 = spec_autolink_delim(after, le);
    if le2 > 0 && at_pos + le2 < data.len() {
        assert(after[le2] == data[at_pos + le2]);
        assert(after[le2 - 1] == data[at_pos + le2 - 1]);
    }
}

proof fn lemma_email_placed(data: Seq<u8>, orig: int, at_pos: int, floor: int, am: bool, x: bool)
    requires
        0 <= floor <= at_pos,
        0 <= orig <= at_pos <= data.len(),
    ensures
        email_from(data, orig, at_pos, floor, am, x) matches EmailScanSpec::Found(m) ==> match_well_placed(
            data,
            orig,
            m,
        ),
        email_from(data, orig, at_pos, floor, am, x) matches EmailScanSpec::Skip(k) ==> 1 <= k <= data.len() - orig + 1,
    decreases data.len() - at_pos,
{
    let max_rewind = at_pos - floor;
    lemma_email_rewind(data, at_pos, max_rewind, 0, am, x);
    let (rewind, am2, x2) = email_rewind(data, at_pos, max_rewind, 0, am, x);
    let after = data.subrange(at_pos, data.len() as int);
    lemma_email_forward(after, 1, 0, x2);
    let (le, np, hit) = email_forward(after, 1, 0, x2);
    if rewind == 0 {
    } else if hit {
        lemma_email_placed(data, orig, at_pos + le, at_pos + 1, am2, x2);
    } else if le < 2 || np == 0 {
    } else if !(spec_is_alpha(after[le - 1]) || after[le - 1] == 46) {
    } else {
        assert(after[le - 1] == data[at_pos + le - 1]);
        lemma_email_finish_placed(data, orig, at_pos, rewind, le);
    }
}

proof fn lemma_match_next_placed(data: Seq<u8>, i: int)
    requires
        0 <= i < data.len(),
        spec_match_next(data, i) is Some,
    ensures
        match_well_placed(data, i, spec_match_next(data, i)->0),
{
    if data[i] == 119 && i + 4 <= data.len() && data.subrange(i, i + 4) == www_dot() {
        lemma_www_placed(data, i);
    } else {
        lemma_url_placed(data, i);
    }
}

// ---------------------------------------------------------------------------
// Splitting a text run
// ---------------------------------------------------------------------------

/// A fragment of a split text run, as positions: plain text `data[lo..hi]`,
/// or a link.
pub enum PieceSpec {
    Text { lo: int, hi: int },
    Link { m: MatchSpec },
}

/// What the scan does at byte `i`: a match, or how far to advance.
pub open spec fn split_step(data: Seq<u8>, i: int) -> Result<MatchSpec, int> {
    if data[i] == 64 {
        match spec_email_match(data, i) {
            EmailScanSpec::Found(m) => Ok(m),
            EmailScanSpec::Skip(k) => Err(k),
        }
    } else {
        match spec_match_next(data, i) {
            Some(m) => Ok(m),
            None => Err(1),
        }
    }
}

/// The scan of `autolink_split` from byte `i`, with text pending since
/// `text_start` and `out` emitted so far. `None` when a match would reach back
/// into text already emitted.
pub open spec fn split_scan(data: Seq<u8>, i: int, text_start: int, out: Seq<PieceSpec>) -> Option<
    (Seq<PieceSpec>, int),
>
    decreases data.len() - i,
{
    if i < 0 || i >= data.len() {
        Some((out, text_start))
    } else {
        match split_step(data, i) {
            Err(k) => if k <= 0 {
                None
            } else if i + k <= data.len() {
                split_scan(data, i + k, text_start, out)
            } else {
                Some((out, text_start))
            },
            Ok(m) => if m.start < text_start {
                None
            } else if m.end <= i || m.end > data.len() {
                None
            } else {
                let out2 = if m.start > text_start {
                    out.push(PieceSpec::Text { lo: text_start, hi: m.start })
                } else {
                    out
                };
                split_scan(data, m.end, m.end, out2.push(PieceSpec::Link { m }))
            },
        }
    }
}

/// The fragments a text run splits into: `None` when it holds no autolink.
pub open spec fn spec_autolink_split_pieces(data: Seq<u8>) -> Option<Seq<PieceSpec>> {
    match split_scan(data, 0, 0, Seq::empty()) {
        None => None,
        Some((out, ts)) => if out.len() == 0 {
            None
        } else if ts < data.len() {
            Some(out.push(PieceSpec::Text { lo: ts, hi: data.len() as int }))
        } else {
            Some(out)
        },
    }
}

/// A fragment of a split text run with its text and its source span.
pub enum PieceView {
    Text { content: Seq<u8>, span: Option<(int, int)> },
    Link { url: Seq<u8>, display: Seq<u8>, span: Option<(int, int)> },
}

pub open spec fn shift_span(base: Option<usize>, lo: int, hi: int) -> Option<(int, int)> {
    match base {
        Some(b) => Some((b + lo, b + hi)),
        None => None,
    }
}

/// A fragment as text and span, for a run whose source starts at `base`.
pub open spec fn piece_view(data: Seq<u8>, base: Option<usize>, p: PieceSpec) -> PieceView {
    match p {
        PieceSpec::Text { lo, hi } => PieceView::Text {
            content: data.subrange(lo, hi),
            span: shift_span(base, lo, hi),
        },
        PieceSpec::Link { m } => PieceView::Link {
            url: m.url,
            display: m.display,
            span: shift_span(base, m.start, m.end),
        },
    }
}

/// One fragment of a text run split by `autolink_split`: plain text, or an
/// autolink with its target and link text. `span` is the fragment's byte
/// range in the source, when the run's own source offset is known.
pub enum AutolinkPiece {
    Text { content: String, span: Option<(usize, usize)> },
    Link { url: String, display: String, span: Option<(usize, usize)> },
}

pub open spec fn span_view(s: Option<(usize, usize)>) -> Option<(int, int)> {
    match s {
        Some((a, b)) => Some((a as int, b as int)),
        None => None,
    }
}

impl View for AutolinkPiece {
    type V = PieceView;

    open spec fn view(&self) -> PieceView {
        match self {
            AutolinkPiece::Text { content, span } => PieceView::Text {
                content: encode_utf8(content@),
                span: span_view(*span),
            },
            AutolinkPiece::Link { url, display, span } => PieceView::Link {
                url: encode_utf8(url@),
                display: encode_utf8(display@),
                span: span_view(*span),
            },
        }
    }
}

/// The fragments `ps` rendered against `data`, in order.
pub open spec fn pieces_match(v: Seq<AutolinkPiece>, data: Seq<u8>, base: Option<usize>, ps: Seq<PieceSpec>) -> bool {
    v.len() == ps.len() && forall|k: int| 0 <= k < v.len() ==> #[trigger] v[k]@ == piece_view(data, base, ps[k])
}

/// Every fragment sits inside `data` between cut points.
pub open spec fn pieces_placed(data: Seq<u8>, ps: Seq<PieceSpec>, upto: int) -> bool {
    forall|k: int|
        0 <= k < ps.len() ==> match #[trigger] ps[k] {
            PieceSpec::Text { lo, hi } => cut_point(data, lo) && cut_point(data, hi) && lo <= hi <= upto,
            PieceSpec::Link { m } => m.end <= upto,
        }
}

fn make_span(base: Option<usize>, lo: usize, hi: usize) -> (r: Option<(usize, usize)>)
    requires
        base matches Some(b) ==> b + hi <= usize::MAX,
        lo <= hi,
    ensures
        span_view(r) == shift_span(base, lo as int, hi as int),
{
    match base {
        Some(b) => Some((b + lo, b + hi)),
        None => None,
    }
}

fn text_piece(data: &[u8], base: Option<usize>, lo: usize, hi: usize) -> (r: AutolinkPiece)
    requires
        valid_utf8(data@),
        cut_point(data@, lo as int),
        cut_point(data@, hi as int),
        lo <= hi <= data@.len(),
        base matches Some(b) ==> b + data@.len() <= usize::MAX,
    ensures
        r@ == piece_view(data@, base, PieceSpec::Text { lo: lo as int, hi: hi as int }),
{
    proof {
        crate::text::lemma_ascii_cut_valid(data@, lo as int, hi as int);
    }
    let content = match string_of_range(data, lo, hi) {
        Some(s) => s,
        None => String::new(),
    };
    AutolinkPiece::Text { content, span: make_span(base, lo, hi) }
}

/// Split one text run into plain-text and autolink fragments (the autolink
/// scan over a text node). Returns `None` when
/// the run holds no autolink, so the text node stays as it is.
///
/// `base_start` is the run's byte offset in the source; each fragment's span
/// is that offset plus the fragment's range in the run.
pub fn autolink_split(content: &str, base_start: Option<usize>) -> (r: Option<Vec<AutolinkPiece>>)
    requires
        content.spec_bytes().len() <= isize::MAX,
        base_start matches Some(b) ==> b + content.spec_bytes().len() <= usize::MAX,
    ensures
        r is Some <==> spec_autolink_split_pieces(content.spec_bytes()) is Some,
        r matches Some(v) ==> pieces_match(
            v@,
            content.spec_bytes(),
            base_start,
            spec_autolink_split_pieces(content.spec_bytes())->0,
        ),
        r matches Some(v) ==> split_shape(piece_views(v@), content.spec_bytes(), base_start),
{
    let bytes = content.as_bytes();
    let n = bytes.len();
    proof {
        vstd::utf8::encode_utf8_valid_utf8(content@);
    }
    let ghost data = bytes@;
    let mut out: Vec<AutolinkPiece> = Vec::new();
    let ghost mut out_spec: Seq<PieceSpec> = Seq::empty();
    let mut text_start: usize = 0;
    let mut i: usize = 0;
    while i < n
        invariant
            n == data.len(),
            bytes@ == data,
            data == content.spec_bytes(),
            valid_utf8(data),
            n <= isize::MAX,
            base_start matches Some(b) ==> b + data.len() <= usize::MAX,
            text_start <= i <= n,
            cut_point(data, text_start as int),
            split_scan(data, i as int, text_start as int, out_spec) == split_scan(data, 0, 0, Seq::empty()),
            pieces_match(out@, data, base_start, out_spec),
            pieces_placed(data, out_spec, text_start as int),
        decreases n - i,
    {
        let step: Option<Match>;
        if bytes[i] == 64 {
            proof {
                lemma_email_placed(data, i as int, i as int, 0, true, false);
            }
            match email_match(bytes, i) {
                EmailScan::Found(m) => {
                    step = Some(m);
                },
                EmailScan::Skip(k) => {
                    i += k;
                    if i > n {
                        i = n;
                    }
                    continue;
                },
            }
        } else {
            let found = match_next(bytes, i);
            proof {
                if found is Some {
                    lemma_match_next_placed(data, i as int);
                }
            }
            match found {
                Some(m) => {
                    step = Some(m);
                },
                None => {
                    i += 1;
                    continue;
                },
            }
        }
        let m = match step {
            Some(m) => m,
            None => {
                return None;
            },
        };
        if m.start < text_start {
            return None;
        }
        if m.start > text_start {
            let piece = text_piece(bytes, base_start, text_start, m.start);
            out.push(piece);
            proof {
                out_spec = out_spec.push(PieceSpec::Text { lo: text_start as int, hi: m.start as int });
            }
        }
        let span = make_span(base_start, m.start, m.end);
        let end = m.end;
        out.push(AutolinkPiece::Link { url: m.url, display: m.display, span });
        proof {
            out_spec = out_spec.push(PieceSpec::Link { m: m@ });
        }
        text_start = end;
        i = end;
    }
    if out.len() == 0 {
        return None;
    }
    if text_start < n {
        let piece = text_piece(bytes, base_start, text_start, n);
        out.push(piece);
        proof {
            out_spec = out_spec.push(PieceSpec::Text { lo: text_start as int, hi: n as int });
        }
    }
    proof {
        assert(pieces_match(out@, data, base_start, spec_autolink_split_pieces(data)->0));
        lemma_autolink_split_shape(out@, data, base_start);
    }
    Some(out)
}

/// The text a piece stands for: a slice of the run, or a link's text.
pub open spec fn piece_text(data: Seq<u8>, p: PieceSpec) -> Seq<u8> {
    match p {
        PieceSpec::Text { lo, hi } => data.subrange(lo, hi),
        PieceSpec::Link { m } => m.display,
    }
}

/// The texts of the pieces, concatenated in order.
pub open spec fn pieces_text(data: Seq<u8>, ps: Seq<PieceSpec>) -> Seq<u8>
    decreases ps.len(),
{
    if ps.len() == 0 {
        Seq::empty()
    } else {
        pieces_text(data, ps.drop_last()) + piece_text(data, ps.last())
    }
}

proof fn lemma_email_display(data: Seq<u8>, orig: int, at_pos: int, floor: int, am: bool, x: bool)
    requires
        0 <= floor <= at_pos,
        0 <= orig <= at_pos <= data.len(),
    ensures
        email_from(data, orig, at_pos, floor, am, x) matches EmailScanSpec::Found(m) ==> m.display
            == data.subrange(m.start, m.end),
    decreases data.len() - at_pos,
{
    let max_rewind = at_pos - floor;
    lemma_email_rewind(data, at_pos, max_rewind, 0, am, x);
    let (rewind, am2, x2) = email_rewind(data, at_pos, max_rewind, 0, am, x);
    let after = data.subrange(at_pos, data.len() as int);
    lemma_email_forward(after, 1, 0, x2);
    let (le, np, hit) = email_forward(after, 1, 0, x2);
    if rewind != 0 && hit && 0 < le && at_pos + le <= data.len() {
        lemma_email_display(data, orig, at_pos + le, at_pos + 1, am2, x2);
    }
}

/// A match that the split takes shows the very bytes it replaces.
proof fn lemma_split_step_display(data: Seq<u8>, i: int)
    requires
        0 <= i < data.len(),
        split_step(data, i) is Ok,
    ensures
        ({
            let m = split_step(data, i)->Ok_0;
            &&& m.display == data.subrange(m.start, m.end)
            &&& 0 <= m.start <= m.end <= data.len()
        }),
{
    if data[i] == 64 {
        lemma_email_placed(data, i, i, 0, true, false);
        lemma_email_display(data, i, i, 0, true, false);
    } else {
        lemma_match_next_placed(data, i);
        if data[i] == 119 && i + 4 <= data.len() && data.subrange(i, i + 4) == www_dot() {
            let m = spec_www_match(data, i)->0;
            let rest = data.subrange(i, data.len() as int);
            assert(m.display =~= data.subrange(m.start, m.end));
        }
    }
}

proof fn lemma_split_scan_text(data: Seq<u8>, i: int, ts: int, out: Seq<PieceSpec>)
    requires
        0 <= i,
        0 <= ts <= data.len(),
        pieces_text(data, out) == data.subrange(0, ts),
    ensures
        split_scan(data, i, ts, out) matches Some((o, t)) ==> 0 <= t <= data.len() && pieces_text(data, o)
            == data.subrange(0, t),
    decreases data.len() - i,
{
    if i < data.len() {
        match split_step(data, i) {
            Err(k) => {
                if k > 0 && i + k <= data.len() {
                    lemma_split_scan_text(data, i + k, ts, out);
                }
            },
            Ok(m) => {
                lemma_split_step_display(data, i);
                if m.start >= ts && m.end > i && m.end <= data.len() {
                    let out2 = if m.start > ts {
                        out.push(PieceSpec::Text { lo: ts, hi: m.start })
                    } else {
                        out
                    };
                    assert(pieces_text(data, out2) =~= data.subrange(0, m.start)) by {
                        if m.start > ts {
                            assert(out2.drop_last() =~= out);
                        }
                    }
                    let out3 = out2.push(PieceSpec::Link { m });
                    assert(out3.drop_last() =~= out2);
                    assert(pieces_text(data, out3) =~= data.subrange(0, m.end));
                    lemma_split_scan_text(data, m.end, m.end, out3);
                }
            },
        }
    }
}

/// Splitting a text run neither loses nor adds text: the texts of the
/// pieces, each link taken as its link text, concatenate back to the run.
pub proof fn lemma_autolink_split_preserves_text(data: Seq<u8>)
    requires
        spec_autolink_split_pieces(data) is Some,
    ensures
        pieces_text(data, spec_autolink_split_pieces(data)->0) == data,
{
    assert(pieces_text(data, Seq::<PieceSpec>::empty()) =~= data.subrange(0, 0));
    lemma_split_scan_text(data, 0, 0, Seq::empty());
    let (out, ts) = split_scan(data, 0, 0, Seq::empty())->0;
    if ts < data.len() {
        let ps = out.push(PieceSpec::Text { lo: ts, hi: data.len() as int });
        assert(ps.drop_last() =~= out);
        assert(pieces_text(data, ps) =~= data);
    } else {
        assert(data.subrange(0, ts) =~= data);
    }
}

/// Append a text piece to the pieces of a split run.
pub fn push_text(out: &mut Vec<AutolinkPiece>, s: &str, span: Option<(usize, usize)>)
    ensures
        final(out)@.len() == old(out)@.len() + 1,
        forall|i: int| 0 <= i < old(out)@.len() ==> final(out)@[i] == old(out)@[i],
        final(out)@.last()@ == (PieceView::Text { content: s.spec_bytes(), span: span_view(span) }),
{
    out.push(AutolinkPiece::Text { content: s.to_owned(), span });
}

/// Append an autolink to the pieces of a split run. `full_url` is the
/// normalized link target, or `None` when link validation refused it: the
/// link text is then kept as plain text.
pub fn push_link(out: &mut Vec<AutolinkPiece>, full_url: Option<String>, display: &str, span: Option<(usize, usize)>)
    ensures
        final(out)@.len() == old(out)@.len() + 1,
        forall|i: int| 0 <= i < old(out)@.len() ==> final(out)@[i] == old(out)@[i],
        match full_url {
            Some(u) => final(out)@.last()@ == (PieceView::Link {
                url: encode_utf8(u@),
                display: display.spec_bytes(),
                span: span_view(span),
            }),
            None => final(out)@.last()@ == (PieceView::Text { content: display.spec_bytes(), span: span_view(span) }),
        },
{
    match full_url {
        Some(url) => {
            out.push(AutolinkPiece::Link { url, display: display.to_owned(), span });
        },
        None => {
            push_text(out, display, span);
        },
    }
}

/// Whether a node type name names a code span or code block, whose text the
/// autolink postprocess leaves alone.
pub fn is_code_node(name: &str) -> (r: bool)
    ensures
        r == (ends_with(name.spec_bytes(), code_inline_word()) || ends_with(name.spec_bytes(), code_block_word())
            || ends_with(name.spec_bytes(), code_fence_word())),
{
    let b = name.as_bytes();
    let w1: [u8; 10] = [67u8, 111u8, 100u8, 101u8, 73u8, 110u8, 108u8, 105u8, 110u8, 101u8];
    let w2: [u8; 9] = [67u8, 111u8, 100u8, 101u8, 66u8, 108u8, 111u8, 99u8, 107u8];
    let w3: [u8; 9] = [67u8, 111u8, 100u8, 101u8, 70u8, 101u8, 110u8, 99u8, 101u8];
    assert(w1@ =~= code_inline_word());
    assert(w2@ =~= code_block_word());
    assert(w3@ =~= code_fence_word());
    bytes_end_with(b, &w1) || bytes_end_with(b, &w2) || bytes_end_with(b, &w3)
}

/// `CodeInline`
pub open spec fn code_inline_word() -> Seq<u8> {
    seq![67u8, 111u8, 100u8, 101u8, 73u8, 110u8, 108u8, 105u8, 110u8, 101u8]
}

/// `CodeBlock`
pub open spec fn code_block_word() -> Seq<u8> {
    seq![67u8, 111u8, 100u8, 101u8, 66u8, 108u8, 111u8, 99u8, 107u8]
}

/// `CodeFence`
pub open spec fn code_fence_word() -> Seq<u8> {
    seq![67u8, 111u8, 100u8, 101u8, 70u8, 101u8, 110u8, 99u8, 101u8]
}

pub open spec fn ends_with(s: Seq<u8>, w: Seq<u8>) -> bool {
    s.len() >= w.len() && s.subrange(s.len() - w.len(), s.len() as int) == w
}

fn bytes_end_with(s: &[u8], w: &[u8]) -> (r: bool)
    ensures
        r == ends_with(s@, w@),
{
    let n = s.len();
    let m = w.len();
    if n < m {
        return false;
    }
    let mut k: usize = 0;
    while k < m
        invariant
            n == s@.len(),
            m == w@.len(),
            m <= n,
            k <= m,
            forall|j: int| 0 <= j < k ==> s@[n - m + j] == w@[j],
        decreases m - k,
    {
        if s[n - m + k] != w[k] {
            assert(s@.subrange(n - m, n as int)[k as int] == s@[n - m + k]);
            return false;
        }
        k += 1;
    }
    assert(s@.subrange(n - m, n as int) =~= w@);
    true
}

// ---------------------------------------------------------------------------
// Laws of the matchers and of the split
// ---------------------------------------------------------------------------

/// Neither white space nor `<`.
pub open spec fn link_text_byte(b: u8) -> bool {
    !spec_is_space(b) && b != 60
}

proof fn lemma_domain_scan_clean(data: Seq<u8>, i: int, np: int, us1: int, us2: int)
    requires
        0 <= i,
    ensures
        ({
            let (e, _, _, _) = domain_scan(data, i, np, us1, us2);
            forall|k: int| i <= k < e && k < data.len() ==> link_text_byte(#[trigger] data[k])
        }),
    decreases data.len() - i,
{
    if i < data.len() - 1 {
        let j = if data[i] == 92 && i < data.len() - 2 { i + 1 } else { i };
        let c = data[j];
        if c == 95 {
            lemma_domain_scan_clean(data, j + 1, np, us1, us2 + 1);
        } else if c == 46 {
            lemma_domain_scan_clean(data, j + 1, np + 1, us2, 0);
        } else if !spec_is_valid_hostchar(c) && c != 45 {
        } else {
            lemma_domain_scan_clean(data, j + 1, np, us1, us2);
        }
    }
}

proof fn lemma_scan_link_end_clean(data: Seq<u8>, i: int)
    requires
        0 <= i,
    ensures
        forall|k: int| i <= k < scan_link_end(data, i) ==> link_text_byte(#[trigger] data[k]),
    decreases data.len() - i,
{
    if !(i >= data.len() || spec_is_space(data[i]) || data[i] == 60) {
        lemma_scan_link_end_clean(data, i + 1);
    }
}

/// A `www.` autolink needs white space, `*`, `_`, `~` or `(` (or nothing)
/// before it; what it finds starts at the `www.`, is not empty, shows the very
/// bytes it covers, holds neither white space nor `<`, and links to
/// `http://` followed by that text.
pub proof fn lemma_www_match_shape(data: Seq<u8>, pos: int)
    requires
        0 <= pos < data.len(),
    ensures
        pos > 0 && !(spec_is_space(data[pos - 1]) || data[pos - 1] == 42 || data[pos - 1] == 95 || data[pos - 1]
            == 126 || data[pos - 1] == 40) ==> spec_www_match(data, pos) is None,
        spec_www_match(data, pos) matches Some(m) ==> {
            &&& m.start == pos
            &&& m.start < m.end <= data.len()
            &&& m.display == data.subrange(m.start, m.end)
            &&& m.url == http_prefix() + m.display
            &&& forall|k: int| 0 <= k < m.display.len() ==> link_text_byte(#[trigger] m.display[k])
        },
{
    if spec_www_match(data, pos) is Some {
        lemma_www_placed(data, pos);
        let rest = data.subrange(pos, data.len() as int);
        let d = spec_check_domain(rest, false)->0;
        lemma_domain_scan_bounds(rest, 1, 0, 0, 0);
        lemma_domain_scan_clean(rest, 1, 0, 0, 0);
        lemma_scan_link_end(rest, d);
        lemma_scan_link_end_clean(rest, d);
        lemma_delim_after_scan(rest, d);
        let s = scan_link_end(rest, d);
        lemma_first_lt(rest, 0, s);
        let e = first_lt(rest, 0, s);
        lemma_delim_trim(rest, e, count_byte(rest, 0, e, 40), count_byte(rest, 0, e, 41));
        let m = spec_www_match(data, pos)->0;
        assert(rest.subrange(0, 4)[0] == rest[0]);
        assert(m.display =~= data.subrange(m.start, m.end));
        assert forall|k: int| 0 <= k < m.display.len() implies link_text_byte(#[trigger] m.display[k]) by {
            assert(m.display[k] == rest[k]);
            if k == 0 {
                assert(rest[0] == 119);
            } else if k < d {
            } else {
                assert(k < e);
            }
        }
    }
}

/// An email scan outcome that is well formed for a scan from `orig`: a link
/// inside `data` showing the very bytes it covers, holding an `@`, and
/// linking to its text or to `mailto:` followed by it; or a skip of at least
/// one byte that stays inside `data`.
pub open spec fn email_outcome_ok(data: Seq<u8>, orig: int, r: EmailScanSpec) -> bool {
    match r {
        EmailScanSpec::Found(m) => {
            &&& 0 <= m.start < m.end <= data.len()
            &&& m.display == data.subrange(m.start, m.end)
            &&& exists|k: int| 0 <= k < m.display.len() && m.display[k] == 64
            &&& (m.url == m.display || m.url == mailto_prefix() + m.display)
        },
        EmailScanSpec::Skip(s) => 1 <= s <= data.len() - orig,
    }
}

proof fn lemma_email_found_ok(data: Seq<u8>, orig: int, start: int, at: int, end: int, am: bool)
    requires
        0 <= start < at < end <= data.len(),
        data[at] == 64,
    ensures
        ({
            let m = data.subrange(start, end);
            email_outcome_ok(
                data,
                orig,
                EmailScanSpec::Found(
                    MatchSpec { start, end, url: if am { mailto_prefix() + m } else { m }, display: m },
                ),
            )
        }),
{
    let m = data.subrange(start, end);
    assert(m[at - start] == 64);
}

#[verifier::spinoff_prover]
proof fn lemma_email_from_shape(data: Seq<u8>, orig: int, at_pos: int, floor: int, am: bool, x: bool)
    requires
        0 <= floor <= at_pos,
        0 <= orig <= at_pos < data.len(),
        data[at_pos] == 64,
    ensures
        email_outcome_ok(data, orig, email_from(data, orig, at_pos, floor, am, x)),
    decreases data.len() - at_pos,
{
    let max_rewind = at_pos - floor;
    lemma_email_rewind(data, at_pos, max_rewind, 0, am, x);
    let (rewind, am2, x2) = email_rewind(data, at_pos, max_rewind, 0, am, x);
    let after = data.subrange(at_pos, data.len() as int);
    lemma_email_forward(after, 1, 0, x2);
    let (le, np, hit) = email_forward(after, 1, 0, x2);
    let r = email_from(data, orig, at_pos, floor, am, x);
    if rewind == 0 {
        assert(r == EmailScanSpec::Skip(at_pos - orig + 1));
    } else if hit {
        assert(after[le] == data[at_pos + le]);
        assert(r == email_from(data, orig, at_pos + le, at_pos + 1, am2, x2));
        lemma_email_from_shape(data, orig, at_pos + le, at_pos + 1, am2, x2);
    } else if le < 2 || np == 0 {
        assert(r == EmailScanSpec::Skip(at_pos - orig + le));
    } else if !(spec_is_alpha(after[le - 1]) || after[le - 1] == 46) {
        assert(r == EmailScanSpec::Skip(at_pos - orig + le));
    } else {
        lemma_first_lt(after, 0, le);
        let e = first_lt(after, 0, le);
        lemma_delim_trim(after, e, count_byte(after, 0, e, 40), count_byte(after, 0, e, 41));
        let le2 = spec_autolink_delim(after, le);
        let m = data.subrange(at_pos - rewind, at_pos + le2);
        if le2 == 0 {
            assert(r == EmailScanSpec::Skip(at_pos - orig + 1));
        } else if !valid_utf8(m) {
            assert(r == EmailScanSpec::Skip(at_pos - orig + le2));
        } else {
            assert(r == EmailScanSpec::Found(
                MatchSpec {
                    start: at_pos - rewind,
                    end: at_pos + le2,
                    url: if am2 { mailto_prefix() + m } else { m },
                    display: m,
                },
            ));
            lemma_email_found_ok(data, orig, at_pos - rewind, at_pos, at_pos + le2, am2);
        }
    }
}

/// `email_match` at an `@`: a link it finds lies inside `data`, shows the
/// very bytes it covers, holds an `@`, and links to its text or to `mailto:`
/// followed by it; a skip moves on by at least one byte and never past the
/// end of `data`.
pub proof fn lemma_email_match_shape(data: Seq<u8>, at_pos: int)
    requires
        0 <= at_pos < data.len(),
        data[at_pos] == 64,
    ensures
        email_outcome_ok(data, at_pos, spec_email_match(data, at_pos)),
{
    lemma_email_from_shape(data, at_pos, at_pos, 0, true, false);
}

/// `n` copies of `a@` followed by `a`.
pub open spec fn a_at_chain(n: nat) -> Seq<u8> {
    Seq::new(2 * n + 1, |k: int| if k % 2 == 1 { 64u8 } else { 97u8 })
}

proof fn lemma_email_chain_from(n: nat, j: int)
    requires
        n >= 1,
        0 <= j < n,
    ensures
        email_from(a_at_chain(n), 1, 2 * j + 1, 2 * j, true, false) == EmailScanSpec::Skip(2 * n as int),
    decreases n - j,
{
    let data = a_at_chain(n);
    let at_pos = 2 * j + 1;
    assert(data[2 * j] == 97u8);
    assert(data[at_pos] == 64u8);
    assert(email_rewind(data, at_pos, 1, 1, true, false) == (1int, true, false));
    assert(email_rewind(data, at_pos, 1, 0, true, false) == (1int, true, false));
    let after = data.subrange(at_pos, data.len() as int);
    assert(after[1] == data[at_pos + 1]);
    assert(spec_is_alnum(after[1]));
    if j + 1 < n {
        assert(after[2] == data[at_pos + 2]);
        assert(after[2] == 64u8);
        assert(email_forward(after, 2, 0, false) == (2int, 0int, true));
        assert(email_forward(after, 1, 0, false) == (2int, 0int, true));
        lemma_email_chain_from(n, j + 1);
    } else {
        assert(after.len() == 2);
        assert(email_forward(after, 2, 0, false) == (2int, 0int, false));
        assert(email_forward(after, 1, 0, false) == (2int, 0int, false));
    }
}

/// At the first `@` of `n` copies of `a@` followed by `a`, the email scan
/// walks the whole chain and skips `2 * n` bytes.
pub proof fn lemma_email_chain_skip(n: nat)
    requires
        n >= 1,
    ensures
        spec_email_match(a_at_chain(n), 1) == EmailScanSpec::Skip(2 * n as int),
{
    lemma_email_chain_from(n, 0);
}

/// Where a fragment starts in its run.
pub open spec fn piece_lo(p: PieceSpec) -> int {
    match p {
        PieceSpec::Text { lo, .. } => lo,
        PieceSpec::Link { m } => m.start,
    }
}

/// Where a fragment ends in its run.
pub open spec fn piece_hi(p: PieceSpec) -> int {
    match p {
        PieceSpec::Text { hi, .. } => hi,
        PieceSpec::Link { m } => m.end,
    }
}

/// The fragments cover `from..to` one after the other, and no text fragment
/// is empty.
pub open spec fn pieces_tile(ps: Seq<PieceSpec>, from: int, to: int) -> bool {
    &&& ps.len() == 0 ==> from == to
    &&& ps.len() > 0 ==> piece_lo(ps[0]) == from && piece_hi(ps[ps.len() - 1]) == to
    &&& forall|k: int| 0 <= k < ps.len() - 1 ==> piece_hi(#[trigger] ps[k]) == piece_lo(ps[k + 1])
    &&& forall|k: int| 0 <= k < ps.len() ==> (#[trigger] ps[k] is Text ==> piece_lo(ps[k]) < piece_hi(ps[k]))
    &&& forall|k: int| 0 <= k < ps.len() ==> piece_lo(#[trigger] ps[k]) <= piece_hi(ps[k])
}

proof fn lemma_tile_push(ps: Seq<PieceSpec>, from: int, mid: int, p: PieceSpec)
    requires
        pieces_tile(ps, from, mid),
        piece_lo(p) == mid,
        p is Text ==> piece_lo(p) < piece_hi(p),
        piece_lo(p) <= piece_hi(p),
    ensures
        pieces_tile(ps.push(p), from, piece_hi(p)),
{
    let qs = ps.push(p);
    assert forall|k: int| 0 <= k < qs.len() implies piece_lo(#[trigger] qs[k]) <= piece_hi(qs[k]) by {
        if k < ps.len() {
            assert(qs[k] == ps[k]);
        }
    }
    assert forall|k: int| 0 <= k < qs.len() - 1 implies piece_hi(#[trigger] qs[k]) == piece_lo(qs[k + 1]) by {
        if k < ps.len() - 1 {
            assert(qs[k] == ps[k] && qs[k + 1] == ps[k + 1]);
        }
    }
    assert forall|k: int| 0 <= k < qs.len() implies (#[trigger] qs[k] is Text ==> piece_lo(qs[k]) < piece_hi(
        qs[k],
    )) by {
        if k < ps.len() {
            assert(qs[k] == ps[k]);
        }
    }
}

proof fn lemma_split_scan_tiles(data: Seq<u8>, i: int, ts: int, out: Seq<PieceSpec>)
    requires
        0 <= ts <= i <= data.len(),
        pieces_tile(out, 0, ts),
    ensures
        split_scan(data, i, ts, out) matches Some((o, t)) ==> pieces_tile(o, 0, t) && 0 <= t <= data.len(),
    decreases data.len() - i,
{
    if i < data.len() {
        match split_step(data, i) {
            Err(k) => {
                if k > 0 && i + k <= data.len() {
                    lemma_split_scan_tiles(data, i + k, ts, out);
                }
            },
            Ok(m) => {
                lemma_split_step_display(data, i);
                if m.start >= ts && m.end > i && m.end <= data.len() {
                    let out2 = if m.start > ts {
                        lemma_tile_push(out, 0, ts, PieceSpec::Text { lo: ts, hi: m.start });
                        out.push(PieceSpec::Text { lo: ts, hi: m.start })
                    } else {
                        out
                    };
                    lemma_tile_push(out2, 0, m.start, PieceSpec::Link { m });
                    lemma_split_scan_tiles(data, m.end, m.end, out2.push(PieceSpec::Link { m }));
                }
            },
        }
    }
}

/// A run that `autolink_split` splits gives at least one fragment; the
/// fragments cover the run from its start to its end one after the other
/// (so their spans, shifted by the run's offset, tile the run's span), and
/// no text fragment is empty.
pub proof fn lemma_autolink_split_tiles(data: Seq<u8>)
    requires
        spec_autolink_split_pieces(data) is Some,
    ensures
        spec_autolink_split_pieces(data)->0.len() > 0,
        pieces_tile(spec_autolink_split_pieces(data)->0, 0, data.len() as int),
{
    lemma_split_scan_tiles(data, 0, 0, Seq::empty());
    let (out, ts) = split_scan(data, 0, 0, Seq::empty())->0;
    if ts < data.len() {
        lemma_tile_push(out, 0, ts, PieceSpec::Text { lo: ts, hi: data.len() as int });
    }
}

proof fn lemma_tile_lo(ps: Seq<PieceSpec>, from: int, to: int, k: int)
    requires
        pieces_tile(ps, from, to),
        0 <= k < ps.len(),
    ensures
        from <= piece_lo(ps[k]),
    decreases k,
{
    if k > 0 {
        lemma_tile_lo(ps, from, to, k - 1);
        assert(piece_hi(ps[k - 1]) == piece_lo(ps[k]));
        assert(piece_lo(ps[k - 1]) <= piece_hi(ps[k - 1]));
    }
}

proof fn lemma_tile_hi(ps: Seq<PieceSpec>, from: int, to: int, k: int)
    requires
        pieces_tile(ps, from, to),
        0 <= k < ps.len(),
    ensures
        piece_hi(ps[k]) <= to,
    decreases ps.len() - k,
{
    if k < ps.len() - 1 {
        lemma_tile_hi(ps, from, to, k + 1);
        assert(piece_hi(ps[k]) == piece_lo(ps[k + 1]));
        assert(piece_lo(ps[k + 1]) <= piece_hi(ps[k + 1]));
    }
}

/// The text a fragment stands for: a text's content, a link's text.
pub open spec fn view_text(p: PieceView) -> Seq<u8> {
    match p {
        PieceView::Text { content, .. } => content,
        PieceView::Link { display, .. } => display,
    }
}

/// The texts of the fragments, concatenated in order.
pub open spec fn views_text(vs: Seq<PieceView>) -> Seq<u8>
    decreases vs.len(),
{
    if vs.len() == 0 {
        Seq::empty()
    } else {
        views_text(vs.drop_last()) + view_text(vs.last())
    }
}

/// Where a known span starts.
pub open spec fn span_start(s: Option<(int, int)>) -> int {
    match s {
        Some((a, _)) => a,
        None => 0,
    }
}

/// Where a known span ends.
pub open spec fn span_end(s: Option<(int, int)>) -> int {
    match s {
        Some((_, b)) => b,
        None => 0,
    }
}

/// The source span of a fragment.
pub open spec fn view_span(p: PieceView) -> Option<(int, int)> {
    match p {
        PieceView::Text { span, .. } => span,
        PieceView::Link { span, .. } => span,
    }
}

/// What a split of the run `data` (whose source starts at `base`, when
/// known) looks like: at least one fragment, no empty text fragment, the
/// fragments' texts concatenate back to the run, and their spans are the
/// adjacent pieces of the run's span (or all unknown when `base` is).
pub open spec fn split_shape(vs: Seq<PieceView>, data: Seq<u8>, base: Option<usize>) -> bool {
    &&& vs.len() > 0
    &&& forall|k: int| 0 <= k < vs.len() ==> (#[trigger] vs[k] matches PieceView::Text { content, .. } ==> content.len() > 0)
    &&& views_text(vs) == data
    &&& match base {
        Some(b) => {
            &&& forall|k: int| 0 <= k < vs.len() ==> (#[trigger] view_span(vs[k])) is Some
            &&& span_start(view_span(vs[0])) == b
            &&& span_end(view_span(vs[vs.len() - 1])) == b + data.len()
            &&& forall|k: int| 0 <= k < vs.len() - 1 ==> span_end(#[trigger] view_span(vs[k])) == span_start(view_span(vs[k + 1]))
        },
        None => forall|k: int| 0 <= k < vs.len() ==> (#[trigger] view_span(vs[k])) is None,
    }
}

/// The views of the fragments of `v`.
pub open spec fn piece_views(v: Seq<AutolinkPiece>) -> Seq<PieceView> {
    Seq::new(v.len(), |k: int| v[k]@)
}

proof fn lemma_views_text(data: Seq<u8>, base: Option<usize>, ps: Seq<PieceSpec>)
    ensures
        views_text(Seq::new(ps.len(), |k: int| piece_view(data, base, ps[k]))) == pieces_text(data, ps),
    decreases ps.len(),
{
    let vs = Seq::new(ps.len(), |k: int| piece_view(data, base, ps[k]));
    if ps.len() > 0 {
        let qs = ps.drop_last();
        lemma_views_text(data, base, qs);
        assert(vs.drop_last() =~= Seq::new(qs.len(), |k: int| piece_view(data, base, qs[k])));
        assert(view_text(vs.last()) == piece_text(data, ps.last()));
    }
}

/// The fragments `autolink_split` returns for a run: at least one, no empty
/// text fragment, their texts (each link taken as its link text)
/// concatenate back to the run, and their spans tile the run's span.
pub proof fn lemma_autolink_split_shape(v: Seq<AutolinkPiece>, data: Seq<u8>, base: Option<usize>)
    requires
        spec_autolink_split_pieces(data) is Some,
        pieces_match(v, data, base, spec_autolink_split_pieces(data)->0),
    ensures
        split_shape(piece_views(v), data, base),
{
    let ps = spec_autolink_split_pieces(data)->0;
    lemma_autolink_split_tiles(data);
    lemma_autolink_split_preserves_text(data);
    lemma_views_text(data, base, ps);
    let vs = piece_views(v);
    assert(vs =~= Seq::new(ps.len(), |k: int| piece_view(data, base, ps[k])));
    let n = data.len() as int;
    assert forall|k: int| 0 <= k < vs.len() implies (#[trigger] vs[k] matches PieceView::Text { content, .. } ==> content.len() > 0) by {
        lemma_tile_lo(ps, 0, n, k);
        lemma_tile_hi(ps, 0, n, k);
        assert(vs[k] == piece_view(data, base, ps[k]));
    }
    assert(vs[0] == piece_view(data, base, ps[0]));
    assert(vs[vs.len() - 1] == piece_view(data, base, ps[ps.len() - 1]));
    assert forall|k: int| 0 <= k < vs.len() - 1 implies span_end(#[trigger] view_span(vs[k])) == span_start(view_span(vs[k + 1]))
        || base is None by {
        assert(vs[k] == piece_view(data, base, ps[k]));
        assert(vs[k + 1] == piece_view(data, base, ps[k + 1]));
        assert(piece_hi(ps[k]) == piece_lo(ps[k + 1]));
    }
    assert forall|k: int| 0 <= k < vs.len() implies (base is Some <==> (#[trigger] view_span(vs[k])) is Some) by {
        assert(vs[k] == piece_view(data, base, ps[k]));
    }
}

/// A byte a link never ends with: `?`, `!`, `.`, `,`, `:`, `*`, `_`, `~`,
/// `'`, `"` or `;`.
pub open spec fn never_ends_link(b: u8) -> bool {
    b == 63 || b == 33 || b == 46 || b == 44 || b == 58 || b == 42 || b == 95 || b == 126 || b == 39 || b == 34
        || b == 59
}

/// A byte that trimming the end of a link may drop: one a link never ends
/// with, `)`, `&` or an ASCII letter.
pub open spec fn trimmable(b: u8) -> bool {
    never_ends_link(b) || b == 41 || b == 38 || (65 <= b <= 90) || (97 <= b <= 122)
}

proof fn lemma_entity_back_letters(data: Seq<u8>, k: int)
    requires
        0 <= k < data.len(),
    ensures
        forall|j: int| entity_back(data, k) < j <= k ==> (65 <= #[trigger] data[j] <= 90) || (97 <= data[j] <= 122),
    decreases k,
{
    if k > 0 && spec_is_alpha(data[k]) {
        lemma_entity_back_letters(data, k - 1);
    }
}

proof fn lemma_delim_trim_shape(data: Seq<u8>, end: int, opening: int, closing: int)
    requires
        0 <= end <= data.len(),
    ensures
        ({
            let r = delim_trim(data, end, opening, closing);
            &&& 0 <= r <= end
            &&& r > 0 ==> !never_ends_link(data[r - 1])
            &&& forall|k: int| r <= k < end ==> trimmable(#[trigger] data[k])
        }),
    decreases end,
{
    if end > 0 {
        let c = data[end - 1];
        if c == 41 {
            if closing > opening {
                lemma_delim_trim_shape(data, end - 1, opening, closing - 1);
            }
        } else if spec_trailing_punct(c) {
            lemma_delim_trim_shape(data, end - 1, opening, closing);
        } else if c == 59 {
            if end >= 2 {
                lemma_entity_back(data, end - 2);
                let ne = entity_back(data, end - 2);
                if 0 <= ne < end - 2 && data[ne] == 38 {
                    lemma_entity_back_letters(data, end - 2);
                    lemma_delim_trim_shape(data, ne, opening, closing);
                } else {
                    lemma_delim_trim_shape(data, end - 1, opening, closing);
                }
            } else {
                lemma_delim_trim_shape(data, end - 1, opening, closing);
            }
        }
    }
}

/// Trimming the end of a link: the link keeps a prefix of `data[..link_end]`
/// with no `<` in it and never ends with one of `?!.,:*_~'";`; every byte
/// dropped before the first `<` is such a byte, a `)`, a `&` or a letter.
pub proof fn lemma_autolink_delim_trims(data: Seq<u8>, link_end: int)
    requires
        0 <= link_end <= data.len(),
    ensures
        ({
            let r = spec_autolink_delim(data, link_end);
            &&& 0 <= r <= link_end
            &&& forall|k: int| 0 <= k < r ==> #[trigger] data[k] != 60
            &&& r > 0 ==> !never_ends_link(data[r - 1])
            &&& forall|k: int|
                r <= k < link_end ==> trimmable(#[trigger] data[k]) || exists|j: int| r <= j <= k && data[j] == 60
        }),
{
    lemma_first_lt(data, 0, link_end);
    let e = first_lt(data, 0, link_end);
    lemma_delim_trim_shape(data, e, count_byte(data, 0, e, 40), count_byte(data, 0, e, 41));
    let r = spec_autolink_delim(data, link_end);
    assert forall|k: int| r <= k < link_end implies trimmable(#[trigger] data[k]) || exists|j: int|
        r <= j <= k && data[j] == 60 by {
        if k >= e {
            assert(data[e] == 60);
        }
    }
}

proof fn lemma_email_from_end_trimmed(data: Seq<u8>, orig: int, at_pos: int, floor: int, am: bool, x: bool)
    requires
        0 <= floor <= at_pos,
        0 <= orig <= at_pos < data.len(),
    ensures
        email_from(data, orig, at_pos, floor, am, x) matches EmailScanSpec::Found(m) ==> m.display.len() > 0
            && !never_ends_link(m.display[m.display.len() - 1]),
    decreases data.len() - at_pos,
{
    let max_rewind = at_pos - floor;
    lemma_email_rewind(data, at_pos, max_rewind, 0, am, x);
    let (rewind, am2, x2) = email_rewind(data, at_pos, max_rewind, 0, am, x);
    let after = data.subrange(at_pos, data.len() as int);
    lemma_email_forward(after, 1, 0, x2);
    let (le, np, hit) = email_forward(after, 1, 0, x2);
    let r = email_from(data, orig, at_pos, floor, am, x);
    if rewind == 0 {
    } else if hit {
        assert(r == email_from(data, orig, at_pos + le, at_pos + 1, am2, x2));
        lemma_email_from_end_trimmed(data, orig, at_pos + le, at_pos + 1, am2, x2);
    } else if le < 2 || np == 0 {
    } else if !(spec_is_alpha(after[le - 1]) || after[le - 1] == 46) {
    } else {
        lemma_autolink_delim_trims(after, le);
        let le2 = spec_autolink_delim(after, le);
        let m = data.subrange(at_pos - rewind, at_pos + le2);
        if le2 > 0 && valid_utf8(m) {
            assert(m[m.len() - 1] == data[at_pos + le2 - 1]);
            assert(after[le2 - 1] == data[at_pos + le2 - 1]);
        }
    }
}

/// An email autolink never ends with one of `?!.,:*_~'";`.
pub proof fn lemma_email_match_end_trimmed(data: Seq<u8>, at_pos: int)
    requires
        0 <= at_pos < data.len(),
    ensures
        spec_email_match(data, at_pos) matches EmailScanSpec::Found(m) ==> m.display.len() > 0 && !never_ends_link(
            m.display[m.display.len() - 1],
        ),
{
    lemma_email_from_end_trimmed(data, at_pos, at_pos, 0, true, false);
}

/// A `www.` or scheme autolink never ends with one of `?!.,:*_~'";`: such
/// bytes at its end stay text.
pub proof fn lemma_link_matches_end_trimmed(data: Seq<u8>, pos: int)
    requires
        0 <= pos < data.len(),
    ensures
        spec_www_match(data, pos) matches Some(m) ==> !never_ends_link(m.display[m.display.len() - 1]),
        spec_url_match(data, pos) matches Some(m) ==> !never_ends_link(m.display[m.display.len() - 1]),
{
    if spec_www_match(data, pos) is Some {
        let rest = data.subrange(pos, data.len() as int);
        let d = spec_check_domain(rest, false)->0;
        lemma_domain_scan_bounds(rest, 1, 0, 0, 0);
        lemma_scan_link_end(rest, d);
        lemma_autolink_delim_trims(rest, scan_link_end(rest, d));
    }
    if spec_url_match(data, pos) is Some {
        let after = data.subrange(pos, data.len() as int);
        let tail = after.subrange(3, after.len() as int);
        let dl = spec_check_domain(tail, true)->0;
        lemma_domain_scan_bounds(tail, 1, 0, 0, 0);
        lemma_scan_link_end(after, 3 + dl);
        lemma_autolink_delim_trims(after, scan_link_end(after, 3 + dl));
        let le = spec_autolink_delim(after, scan_link_end(after, 3 + dl));
        lemma_rewind_alpha(data, pos, 0);
        let ss = pos - rewind_alpha(data, pos, 0);
        let m = spec_url_match(data, pos)->0;
        assert(m.display == data.subrange(ss, pos + le));
        assert(0 < le <= after.len());
        assert(m.display.len() == pos + le - ss);
        assert(m.display[m.display.len() - 1] == data[pos + le - 1]);
        assert(after[le - 1] == data[pos + le - 1]);
    }
}

/// The punctuation bytes of the autolink scan are the ASCII punctuation
/// characters that a backslash escapes, and the white space bytes are space,
/// tab, line feed, vertical tab, form feed and carriage return.
pub proof fn lemma_punct_is_escapable(b: u8)
    ensures
        spec_is_punct(b) <==> b < 128 && crate::plugins::cmark::inline::escape::spec_is_escapable_punct(b as char),
        spec_is_space(b) <==> (b == 32 || (9 <= b <= 13)),
{
    crate::plugins::cmark::inline::escape::lemma_escapable_is_ascii_punctuation(b as char);
}

/// A GFM autolink with its target.
#[derive(Clone, Debug)]
pub struct GfmAutolink {
    pub url: String,
}

/// The core rule that linkifies the text nodes of the parsed tree.
pub struct GfmAutolinkPostprocess;

/// Register the autolink postprocess, after every other core rule.
pub fn add(md: &mut MarkdownParser)
    ensures
        final(md)@ == old(md)@.push_core(RuleId::GfmAutolink, Placement::AfterAll),
{
    md.add_rule(RuleId::GfmAutolink, Placement::AfterAll);
}

} // verus!
