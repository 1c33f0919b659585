//! Byte and string helpers shared by the scanners.
//!
//! The scanners work on the UTF-8 bytes of their input; the helpers here turn
//! byte ranges back into `String`s and carry the facts about UTF-8 that the
//! scanners need (an ASCII byte always starts a character).
use vstd::prelude::*;
use vstd::utf8::*;

verus! {

broadcast use vstd::seq::group_seq_axioms;

/// `std::string::String::from_utf8`, with the error discarded.
///
/// Claims what the documentation of `String::from_utf8` states: the call
/// succeeds exactly when the bytes are well-formed UTF-8, and the resulting
/// string consists of those very bytes.
#[verifier::external_body]
pub(crate) fn string_from_utf8(bytes: Vec<u8>) -> (r: Option<String>)
    ensures
        r is Some <==> valid_utf8(bytes@),
        r matches Some(s) ==> encode_utf8(s@) == bytes@,
{
    String::from_utf8(bytes).ok()
}

/// The bytes `s[lo..hi]`, copied into a fresh vector.
pub fn copy_range(s: &[u8], lo: usize, hi: usize) -> (r: Vec<u8>)
    requires
        lo <= hi <= s@.len(),
    ensures
        r@ == s@.subrange(lo as int, hi as int),
{
    let mut r: Vec<u8> = Vec::new();
    let mut i = lo;
    while i < hi
        invariant
            lo <= i <= hi <= s@.len(),
            r@ == s@.subrange(lo as int, i as int),
        decreases hi - i,
    {
        r.push(s[i]);
        i += 1;
    }
    r
}

/// Appends `s[lo..hi]` to `out`.
pub fn push_range(out: &mut Vec<u8>, s: &[u8], lo: usize, hi: usize)
    requires
        lo <= hi <= s@.len(),
    ensures
        final(out)@ == old(out)@ + s@.subrange(lo as int, hi as int),
{
    let ghost start = out@;
    let mut i = lo;
    while i < hi
        invariant
            lo <= i <= hi <= s@.len(),
            out@ == start + s@.subrange(lo as int, i as int),
        decreases hi - i,
    {
        out.push(s[i]);
        i += 1;
    }
}

/// The UTF-8 string made of the bytes `s[lo..hi]`, or `None` when those bytes
/// are not well-formed UTF-8.
pub fn string_of_range(s: &[u8], lo: usize, hi: usize) -> (r: Option<String>)
    requires
        lo <= hi <= s@.len(),
    ensures
        r is Some <==> valid_utf8(s@.subrange(lo as int, hi as int)),
        r matches Some(t) ==> encode_utf8(t@) == s@.subrange(lo as int, hi as int),
{
    string_from_utf8(copy_range(s, lo, hi))
}

/// The string whose UTF-8 bytes are `b`, which must be well-formed.
pub open spec fn decoded(b: Seq<u8>) -> Seq<char> {
    decode_utf8(b)
}

/// A byte below 0x80 never sits inside a multi-byte character: in well-formed
/// UTF-8 it starts a character.
pub proof fn lemma_ascii_is_char_boundary(bytes: Seq<u8>, i: int)
    requires
        valid_utf8(bytes),
        0 <= i <= bytes.len(),
        0 < i < bytes.len() ==> (bytes[i] < 0x80 || bytes[i - 1] < 0x80),
    ensures
        is_char_boundary(bytes, i),
    decreases bytes.len(),
{
    if i == 0 {
    } else if i == bytes.len() {
        is_char_boundary_start_end_of_seq(bytes);
    } else {
        let l = length_of_first_scalar(bytes);
        let rest = pop_first_scalar(bytes);
        assert(valid_first_scalar(bytes));
        if i < l {
            // bytes[i] would be a continuation byte (0x80..=0xbf), and so
            // would bytes[i - 1] unless it is the leading byte (0xc0..).
            assert(is_continuation_byte(bytes[i]));
            assert(bytes[i - 1] >= 0x80);
            assert(false);
        } else {
            assert(rest.len() == bytes.len() - l);
            assert forall|k: int| 0 <= k < rest.len() implies rest[k] == bytes[k + l] by {}
            if i - l > 0 {
                assert(rest[i - l] == bytes[i]);
                assert(rest[i - l - 1] == bytes[i - 1]);
            }
            lemma_ascii_is_char_boundary(rest, i - l);
        }
    }
}

/// Cutting well-formed UTF-8 at two ASCII positions leaves well-formed UTF-8.
pub proof fn lemma_ascii_cut_valid(bytes: Seq<u8>, lo: int, hi: int)
    requires
        valid_utf8(bytes),
        0 <= lo <= hi <= bytes.len(),
        0 < lo < bytes.len() ==> (bytes[lo] < 0x80 || bytes[lo - 1] < 0x80),
        0 < hi < bytes.len() ==> (bytes[hi] < 0x80 || bytes[hi - 1] < 0x80),
    ensures
        valid_utf8(bytes.subrange(lo, hi)),
{
    lemma_ascii_is_char_boundary(bytes, lo);
    valid_utf8_split(bytes, lo);
    let tail = bytes.subrange(lo, bytes.len() as int);
    if hi < bytes.len() && hi > lo {
        assert(tail[hi - lo] == bytes[hi]);
        assert(tail[hi - lo - 1] == bytes[hi - 1]);
    }
    lemma_ascii_is_char_boundary(tail, hi - lo);
    valid_utf8_split(tail, hi - lo);
    assert(tail.subrange(0, hi - lo) =~= bytes.subrange(lo, hi));
}

/// The characters of `s`, in order.
pub fn chars_of(s: &str) -> (r: Vec<char>)
    ensures
        r@ == s@,
{
    let mut out: Vec<char> = Vec::new();
    for c in it: s.chars()
        invariant
            out@ == it.seq().take(it.index()),
    {
        out.push(c);
    }
    out
}

/// `std::string::String::push`.
///
/// Claims what its documentation states: the character is appended to the
/// end of the string.
#[verifier::external_body]
pub(crate) fn push_char(s: &mut String, c: char)
    ensures
        final(s)@ == old(s)@.push(c),
{
    s.push(c);
}

/// The string made of the characters `v[lo..hi]`.
pub fn string_of_chars(v: &[char], lo: usize, hi: usize) -> (r: String)
    requires
        lo <= hi <= v@.len(),
    ensures
        r@ == v@.subrange(lo as int, hi as int),
{
    let mut out = String::new();
    let mut i = lo;
    while i < hi
        invariant
            lo <= i <= hi <= v@.len(),
            out@ == v@.subrange(lo as int, i as int),
        decreases hi - i,
    {
        push_char(&mut out, v[i]);
        i += 1;
    }
    out
}

/// Appends the characters `v[lo..hi]` to `out`.
pub fn push_chars(out: &mut String, v: &[char], lo: usize, hi: usize)
    requires
        lo <= hi <= v@.len(),
    ensures
        final(out)@ == old(out)@ + v@.subrange(lo as int, hi as int),
{
    let ghost start = out@;
    let mut i = lo;
    while i < hi
        invariant
            lo <= i <= hi <= v@.len(),
            out@ == start + v@.subrange(lo as int, i as int),
        decreases hi - i,
    {
        push_char(out, v[i]);
        i += 1;
    }
}

/// Whether `a[lo..hi]` equals `w`.
pub fn chars_range_eq(a: &[char], lo: usize, hi: usize, w: &[char]) -> (r: bool)
    requires
        lo <= hi <= a@.len(),
    ensures
        r == (a@.subrange(lo as int, hi as int) == w@),
{
    if hi - lo != w.len() {
        return false;
    }
    let mut k: usize = 0;
    while k < w.len()
        invariant
            lo <= hi <= a@.len(),
            hi - lo == w@.len(),
            k <= w@.len(),
            forall|j: int| 0 <= j < k ==> a@[lo + j] == w@[j],
        decreases w@.len() - k,
    {
        if a[lo + k] != w[k] {
            assert(a@.subrange(lo as int, hi as int)[k as int] == a@[lo + k]);
            return false;
        }
        k += 1;
    }
    assert(a@.subrange(lo as int, hi as int) =~= w@);
    true
}

/// The Unicode `White_Space` characters, which `char::is_whitespace` and the
/// `trim` family of `str` recognise.
pub open spec fn is_white_space(c: char) -> bool {
    ('\u{9}' <= c && c <= '\u{D}') || c == ' ' || c == '\u{85}' || c == '\u{A0}' || c == '\u{1680}'
        || ('\u{2000}' <= c && c <= '\u{200A}') || c == '\u{2028}' || c == '\u{2029}' || c == '\u{202F}'
        || c == '\u{205F}' || c == '\u{3000}'
}

/// Whether `c` is a Unicode `White_Space` character.
pub fn is_white_space_char(c: char) -> (r: bool)
    ensures
        r == is_white_space(c),
{
    ('\u{9}' <= c && c <= '\u{D}') || c == ' ' || c == '\u{85}' || c == '\u{A0}' || c == '\u{1680}'
        || ('\u{2000}' <= c && c <= '\u{200A}') || c == '\u{2028}' || c == '\u{2029}' || c == '\u{202F}'
        || c == '\u{205F}' || c == '\u{3000}'
}

/// Index of the first character at or after `i` that is not white space
/// (`v.len()` if there is none).
pub open spec fn skip_ws(v: Seq<char>, i: int) -> int
    decreases v.len() - i,
{
    if i < 0 || i >= v.len() {
        if i < 0 { 0 } else { i }
    } else if is_white_space(v[i]) {
        skip_ws(v, i + 1)
    } else {
        i
    }
}

/// End of `v[..j]` once its trailing white space is removed.
pub open spec fn trim_end_ws(v: Seq<char>, j: int) -> int
    decreases j,
{
    if j <= 0 {
        0
    } else if j <= v.len() && is_white_space(v[j - 1]) {
        trim_end_ws(v, j - 1)
    } else {
        j
    }
}

pub proof fn lemma_skip_ws_bounds(v: Seq<char>, i: int)
    requires
        0 <= i <= v.len(),
    ensures
        i <= skip_ws(v, i) <= v.len(),
        skip_ws(v, i) < v.len() ==> !is_white_space(v[skip_ws(v, i)]),
        forall|k: int| i <= k < skip_ws(v, i) ==> is_white_space(#[trigger] v[k]),
    decreases v.len() - i,
{
    if i < v.len() && is_white_space(v[i]) {
        lemma_skip_ws_bounds(v, i + 1);
    }
}

pub proof fn lemma_trim_end_ws_bounds(v: Seq<char>, j: int)
    requires
        0 <= j <= v.len(),
    ensures
        0 <= trim_end_ws(v, j) <= j,
        trim_end_ws(v, j) > 0 ==> !is_white_space(v[trim_end_ws(v, j) - 1]),
    decreases j,
{
    if j > 0 && is_white_space(v[j - 1]) {
        lemma_trim_end_ws_bounds(v, j - 1);
    }
}

/// Index of the first non-white-space character of `v[i..]`.
pub fn skip_white_space(v: &[char], i: usize) -> (r: usize)
    requires
        i <= v@.len(),
    ensures
        r == skip_ws(v@, i as int),
{
    let mut k = i;
    while k < v.len() && is_white_space_char(v[k])
        invariant
            i <= k <= v@.len(),
            skip_ws(v@, i as int) == skip_ws(v@, k as int),
        decreases v@.len() - k,
    {
        k += 1;
    }
    k
}

/// End of `v[..j]` without its trailing white space.
pub fn trim_white_space_end(v: &[char], j: usize) -> (r: usize)
    requires
        j <= v@.len(),
    ensures
        r == trim_end_ws(v@, j as int),
{
    let mut k = j;
    while k > 0 && is_white_space_char(v[k - 1])
        invariant
            k <= j <= v@.len(),
            trim_end_ws(v@, j as int) == trim_end_ws(v@, k as int),
        decreases k,
    {
        k -= 1;
    }
    k
}

/// ASCII lower case of one character.
pub open spec fn ascii_lower(c: char) -> char {
    if 'A' <= c && c <= 'Z' {
        ((c as u32) + 32) as char
    } else {
        c
    }
}

/// ASCII lower case of a character sequence.
pub open spec fn ascii_lower_seq(v: Seq<char>) -> Seq<char> {
    Seq::new(v.len(), |i: int| ascii_lower(v[i]))
}

pub fn ascii_lower_char(c: char) -> (r: char)
    ensures
        r == ascii_lower(c),
{
    if 'A' <= c && c <= 'Z' {
        let b = c as u8;
        ((b + 32) as char)
    } else {
        c
    }
}

/// The ASCII lower case of `v[lo..hi]`, as a string.
pub fn ascii_lower_range(v: &[char], lo: usize, hi: usize) -> (r: String)
    requires
        lo <= hi <= v@.len(),
    ensures
        r@ == ascii_lower_seq(v@.subrange(lo as int, hi as int)),
{
    let mut out = String::new();
    let mut i = lo;
    while i < hi
        invariant
            lo <= i <= hi <= v@.len(),
            out@ =~= ascii_lower_seq(v@.subrange(lo as int, i as int)),
        decreases hi - i,
    {
        push_char(&mut out, ascii_lower_char(v[i]));
        i += 1;
    }
    out
}

/// Number of bytes of the UTF-8 encoding of `c`.
pub fn len_utf8(c: char) -> (r: usize)
    ensures
        r == encode_utf8(seq![c]).len(),
        1 <= r <= 4,
{
    let u = c as u32;
    proof {
        char_is_scalar(c);
        let s = seq![c];
        assert(s.drop_first() =~= Seq::<char>::empty());
        assert(encode_utf8(s.drop_first()) =~= Seq::<u8>::empty());
        assert(encode_utf8(s) =~= encode_scalar(c as u32) + encode_utf8(s.drop_first()));
        assert(encode_utf8(s) =~= encode_scalar(u));
    }
    if u <= 0x7F {
        1
    } else if u <= 0x7FF {
        2
    } else if u <= 0xFFFF {
        3
    } else {
        4
    }
}

/// The UTF-8 encoding of a concatenation is the concatenation of the
/// encodings.
pub proof fn lemma_encode_utf8_concat(a: Seq<char>, b: Seq<char>)
    ensures
        encode_utf8(a + b) == encode_utf8(a) + encode_utf8(b),
    decreases a.len(),
{
    if a.len() == 0 {
        assert(a + b =~= b);
        assert(encode_utf8(a) =~= Seq::<u8>::empty());
        assert(encode_utf8(a) + encode_utf8(b) =~= encode_utf8(b));
    } else {
        lemma_encode_utf8_concat(a.drop_first(), b);
        assert((a + b).drop_first() =~= a.drop_first() + b);
        assert((a + b)[0] == a[0]);
        assert(encode_utf8(a + b) =~= encode_scalar(a[0] as u32) + encode_utf8(a.drop_first() + b));
        assert(encode_utf8(a) =~= encode_scalar(a[0] as u32) + encode_utf8(a.drop_first()));
    }
}

/// Byte length of the UTF-8 encoding of `v[..k]`.
pub fn encoded_len_prefix(v: &[char], k: usize) -> (r: usize)
    requires
        k <= v@.len(),
        encode_utf8(v@).len() <= usize::MAX,
    ensures
        r == encode_utf8(v@.take(k as int)).len(),
{
    let mut total: usize = 0;
    let mut i: usize = 0;
    while i < k
        invariant
            i <= k <= v@.len(),
            encode_utf8(v@).len() <= usize::MAX,
            total == encode_utf8(v@.take(i as int)).len(),
        decreases k - i,
    {
        proof {
            assert(v@.take(i + 1) =~= v@.take(i as int) + seq![v@[i as int]]);
            lemma_encode_utf8_concat(v@.take(i as int), seq![v@[i as int]]);
            assert(v@ =~= v@.take(i + 1) + v@.skip(i + 1));
            lemma_encode_utf8_concat(v@.take(i + 1), v@.skip(i + 1));
        }
        total = total + len_utf8(v[i]);
        i += 1;
    }
    total
}

/// The string made of the bytes `s[lo..hi]` of well-formed UTF-8, cut where
/// an ASCII byte starts or ends.
pub fn string_of_ascii_cut(s: &[u8], lo: usize, hi: usize) -> (r: String)
    requires
        valid_utf8(s@),
        lo <= hi <= s@.len(),
        0 < lo < s@.len() ==> (s@[lo as int] < 0x80 || s@[lo - 1] < 0x80),
        0 < hi < s@.len() ==> (s@[hi as int] < 0x80 || s@[hi - 1] < 0x80),
    ensures
        encode_utf8(r@) == s@.subrange(lo as int, hi as int),
{
    proof {
        lemma_ascii_cut_valid(s@, lo as int, hi as int);
    }
    match string_of_range(s, lo, hi) {
        Some(t) => t,
        None => String::new(),
    }
}

} // verus!
