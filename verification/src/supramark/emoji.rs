//! Emoji shortcodes (`:smile:` and the like) in text values, and the U+0000
//! replacement that CommonMark asks for.
use vstd::prelude::*;
use vstd::string::StringExecFns;
use crate::text::{chars_of, chars_range_eq, push_char, string_of_chars};

verus! {

broadcast use vstd::seq::group_seq_axioms;

/// A character allowed in a shortcode name: `a-z`, `0-9`, `_` or `-`.
pub open spec fn is_shortcode_char(c: char) -> bool {
    ('a' <= c && c <= 'z') || ('0' <= c && c <= '9') || c == '_' || c == '-'
}

/// A shortcode name: one or more shortcode characters.
pub open spec fn spec_is_emoji_shortcode_name(name: Seq<char>) -> bool {
    name.len() > 0 && forall|i: int| 0 <= i < name.len() ==> is_shortcode_char(#[trigger] name[i])
}

/// The emoji that a shortcode name stands for, if it is one of the known
/// names.
pub open spec fn spec_emoji_shortcode(name: Seq<char>) -> Option<Seq<char>> {
    if name == seq!['s', 'm', 'i', 'l', 'e'] {
        Some(seq!['\u{1F604}'])
    } else if name == seq!['j', 'o', 'y'] {
        Some(seq!['\u{1F602}'])
    } else if name == seq!['w', 'i', 'n', 'k'] {
        Some(seq!['\u{1F609}'])
    } else if name == seq!['r', 'o', 'c', 'k', 'e', 't'] {
        Some(seq!['\u{1F680}'])
    } else if name == seq!['t', 'a', 'd', 'a'] {
        Some(seq!['\u{1F389}'])
    } else if name == seq!['w', 'a', 'r', 'n', 'i', 'n', 'g'] {
        Some(seq!['\u{26A0}', '\u{FE0F}'])
    } else if name == seq!['h', 'e', 'a', 'r', 't'] {
        Some(seq!['\u{2764}', '\u{FE0F}'])
    } else if name == seq!['c', 'o', 'f', 'f', 'e', 'e'] {
        Some(seq!['\u{2615}'])
    } else if name == seq!['t', 'e', 'a'] {
        Some(seq!['\u{1F375}'])
    } else {
        None
    }
}

/// Whether `name` is a well-formed shortcode name.
pub fn is_emoji_shortcode_name(name: &str) -> (r: bool)
    ensures
        r == spec_is_emoji_shortcode_name(name@),
{
    let v = chars_of(name);
    if v.len() == 0 {
        return false;
    }
    let mut i: usize = 0;
    while i < v.len()
        invariant
            v@ == name@,
            i <= v@.len(),
            forall|k: int| 0 <= k < i ==> is_shortcode_char(#[trigger] v@[k]),
        decreases v@.len() - i,
    {
        let c = v[i];
        if !(('a' <= c && c <= 'z') || ('0' <= c && c <= '9') || c == '_' || c == '-') {
            assert(!is_shortcode_char(v@[i as int]));
            return false;
        }
        i += 1;
    }
    true
}

/// The emoji for a known shortcode name.
pub fn emoji_shortcode(name: &str) -> (r: Option<&'static str>)
    ensures
        match spec_emoji_shortcode(name@) {
            Some(e) => r matches Some(s) && s@ == e,
            None => r is None,
        },
{
    let v = chars_of(name);
    let n = v.len();
    let smile: [char; 5] = ['s', 'm', 'i', 'l', 'e'];
    let joy: [char; 3] = ['j', 'o', 'y'];
    let wink: [char; 4] = ['w', 'i', 'n', 'k'];
    let rocket: [char; 6] = ['r', 'o', 'c', 'k', 'e', 't'];
    let tada: [char; 4] = ['t', 'a', 'd', 'a'];
    let warning: [char; 7] = ['w', 'a', 'r', 'n', 'i', 'n', 'g'];
    let heart: [char; 5] = ['h', 'e', 'a', 'r', 't'];
    let coffee: [char; 6] = ['c', 'o', 'f', 'f', 'e', 'e'];
    let tea: [char; 3] = ['t', 'e', 'a'];
    assert(smile@ =~= seq!['s', 'm', 'i', 'l', 'e']);
    assert(joy@ =~= seq!['j', 'o', 'y']);
    assert(wink@ =~= seq!['w', 'i', 'n', 'k']);
    assert(rocket@ =~= seq!['r', 'o', 'c', 'k', 'e', 't']);
    assert(tada@ =~= seq!['t', 'a', 'd', 'a']);
    assert(warning@ =~= seq!['w', 'a', 'r', 'n', 'i', 'n', 'g']);
    assert(heart@ =~= seq!['h', 'e', 'a', 'r', 't']);
    assert(coffee@ =~= seq!['c', 'o', 'f', 'f', 'e', 'e']);
    assert(tea@ =~= seq!['t', 'e', 'a']);
    assert(v@.subrange(0, n as int) =~= v@);
    if chars_range_eq(&v, 0, n, &smile) {
        proof {
            reveal_strlit("\u{1F604}");
        }
        return Some("\u{1F604}");
    }
    if chars_range_eq(&v, 0, n, &joy) {
        proof {
            reveal_strlit("\u{1F602}");
        }
        return Some("\u{1F602}");
    }
    if chars_range_eq(&v, 0, n, &wink) {
        proof {
            reveal_strlit("\u{1F609}");
        }
        return Some("\u{1F609}");
    }
    if chars_range_eq(&v, 0, n, &rocket) {
        proof {
            reveal_strlit("\u{1F680}");
        }
        return Some("\u{1F680}");
    }
    if chars_range_eq(&v, 0, n, &tada) {
        proof {
            reveal_strlit("\u{1F389}");
        }
        return Some("\u{1F389}");
    }
    if chars_range_eq(&v, 0, n, &warning) {
        proof {
            reveal_strlit("\u{26A0}\u{FE0F}");
        }
        return Some("\u{26A0}\u{FE0F}");
    }
    if chars_range_eq(&v, 0, n, &heart) {
        proof {
            reveal_strlit("\u{2764}\u{FE0F}");
        }
        return Some("\u{2764}\u{FE0F}");
    }
    if chars_range_eq(&v, 0, n, &coffee) {
        proof {
            reveal_strlit("\u{2615}");
        }
        return Some("\u{2615}");
    }
    if chars_range_eq(&v, 0, n, &tea) {
        proof {
            reveal_strlit("\u{1F375}");
        }
        return Some("\u{1F375}");
    }
    None
}

/// The first index at or after `c` that holds `ch`.
pub open spec fn first_char_from(v: Seq<char>, c: int, ch: char) -> Option<int>
    decreases v.len() - c,
{
    if c < 0 || c >= v.len() {
        None
    } else if v[c] == ch {
        Some(c)
    } else {
        first_char_from(v, c + 1, ch)
    }
}

pub proof fn lemma_first_char_from_bounds(v: Seq<char>, c: int, ch: char)
    requires
        0 <= c,
    ensures
        first_char_from(v, c, ch) matches Some(k) ==> c <= k < v.len() && v[k] == ch,
    decreases v.len() - c,
{
    if c < v.len() && v[c] != ch {
        lemma_first_char_from_bounds(v, c + 1, ch);
    }
}

/// U+0000 replaced by U+FFFD.
pub open spec fn nul_replaced(v: Seq<char>) -> Seq<char> {
    Seq::new(v.len(), |i: int| if v[i] == '\0' { '\u{FFFD}' } else { v[i] })
}

/// The emoji that the colon at index `i` opens: the next colon closes a known
/// shortcode name.
pub open spec fn shortcode_at(v: Seq<char>, i: int) -> Option<(int, Seq<char>)> {
    match first_char_from(v, i + 1, ':') {
        Some(end) => if spec_is_emoji_shortcode_name(v.subrange(i + 1, end)) {
            match spec_emoji_shortcode(v.subrange(i + 1, end)) {
                Some(e) => Some((end, e)),
                None => None,
            }
        } else {
            None
        },
        None => None,
    }
}

/// `v[i..]` with each `:name:` of a known shortcode replaced by its emoji,
/// scanning from the left; a colon that opens no shortcode stays.
pub open spec fn emoji_scan(v: Seq<char>, i: int) -> Seq<char>
    decreases v.len() - i,
{
    if i < 0 || i >= v.len() {
        Seq::empty()
    } else if v[i] == ':' {
        proof {
            lemma_first_char_from_bounds(v, i + 1, ':');
        }
        match shortcode_at(v, i) {
            Some((end, e)) => e + emoji_scan(v, end + 1),
            None => seq![':'] + emoji_scan(v, i + 1),
        }
    } else {
        seq![v[i]] + emoji_scan(v, i + 1)
    }
}

/// The text value with U+0000 replaced by U+FFFD and the known emoji
/// shortcodes replaced by their emoji.
pub open spec fn spec_replace_emoji_shortcodes(value: Seq<char>) -> Seq<char> {
    emoji_scan(nul_replaced(value), 0)
}

/// Replace U+0000 by U+FFFD, then each known `:name:` shortcode by its emoji.
pub fn replace_emoji_shortcodes(value: &str) -> (r: String)
    ensures
        r@ == spec_replace_emoji_shortcodes(value@),
{
    let v0 = chars_of(value);
    let mut v: Vec<char> = Vec::new();
    let mut k: usize = 0;
    while k < v0.len()
        invariant
            v0@ == value@,
            k <= v0@.len(),
            v@ =~= nul_replaced(v0@).take(k as int),
        decreases v0@.len() - k,
    {
        if v0[k] == '\0' {
            v.push('\u{FFFD}');
        } else {
            v.push(v0[k]);
        }
        k += 1;
    }
    let ghost w = nul_replaced(value@);
    assert(v@ =~= w);
    let n = v.len();
    let mut out = String::new();
    let mut i: usize = 0;
    while i < n
        invariant
            v@ == w,
            n == w.len(),
            i <= n,
            out@ + emoji_scan(w, i as int) == emoji_scan(w, 0),
        decreases n - i,
    {
        if v[i] == ':' {
            let mut j = i + 1;
            while j < n && v[j] != ':'
                invariant
                    v@ == w,
                    n == w.len(),
                    i < j <= n,
                    first_char_from(w, i + 1, ':') == first_char_from(w, j as int, ':'),
                decreases n - j,
            {
                j += 1;
            }
            proof {
                lemma_first_char_from_bounds(w, i + 1, ':');
            }
            if j < n {
                let name = string_of_chars(&v, i + 1, j);
                if is_emoji_shortcode_name(name.as_str()) {
                    if let Some(e) = emoji_shortcode(name.as_str()) {
                        let ghost before = out@;
                        out.append(e);
                        proof {
                            assert(out@ + emoji_scan(w, j + 1) =~= before + (e@ + emoji_scan(w, j + 1)));
                        }
                        i = j + 1;
                        continue;
                    }
                }
            }
            let ghost before = out@;
            push_char(&mut out, ':');
            proof {
                assert(out@ + emoji_scan(w, i + 1) =~= before + (seq![':'] + emoji_scan(w, i + 1)));
            }
            i = i + 1;
        } else {
            let ghost before = out@;
            push_char(&mut out, v[i]);
            proof {
                assert(out@ + emoji_scan(w, i + 1) =~= before + (seq![w[i as int]] + emoji_scan(w, i + 1)));
            }
            i = i + 1;
        }
    }
    assert(out@ + emoji_scan(w, n as int) =~= out@);
    out
}

proof fn lemma_emoji_scan_plain(v: Seq<char>, i: int)
    requires
        0 <= i <= v.len(),
        forall|k: int| i <= k < v.len() ==> v[k] != ':',
    ensures
        emoji_scan(v, i) == v.subrange(i, v.len() as int),
    decreases v.len() - i,
{
    if i < v.len() {
        lemma_emoji_scan_plain(v, i + 1);
        assert(seq![v[i]] + v.subrange(i + 1, v.len() as int) =~= v.subrange(i, v.len() as int));
    } else {
        assert(v.subrange(i, v.len() as int) =~= Seq::<char>::empty());
    }
}

/// Text with no colon and no U+0000 is left exactly as it is.
pub proof fn lemma_replace_emoji_plain_text(value: Seq<char>)
    requires
        forall|k: int| 0 <= k < value.len() ==> value[k] != ':' && value[k] != '\0',
    ensures
        spec_replace_emoji_shortcodes(value) == value,
{
    let w = nul_replaced(value);
    assert(w =~= value);
    lemma_emoji_scan_plain(value, 0);
    assert(value.subrange(0, value.len() as int) =~= value);
}

/// No colon of `v` opens a known shortcode.
pub open spec fn no_shortcode(v: Seq<char>) -> bool {
    forall|i: int| 0 <= i < v.len() && v[i] == ':' ==> #[trigger] shortcode_at(v, i) is None
}

proof fn lemma_first_char_from_before(v: Seq<char>, c: int, ch: char)
    requires
        0 <= c,
    ensures
        first_char_from(v, c, ch) matches Some(k) ==> forall|j: int| c <= j < k ==> v[j] != ch,
        first_char_from(v, c, ch) is None ==> forall|j: int| c <= j < v.len() ==> v[j] != ch,
    decreases v.len() - c,
{
    if c < v.len() && v[c] != ch {
        lemma_first_char_from_before(v, c + 1, ch);
    }
}

proof fn lemma_first_colon_shift(x: Seq<char>, t: Seq<char>, c: int)
    requires
        0 <= c,
    ensures
        first_char_from(x + t, x.len() + c, ':') == match first_char_from(t, c, ':') {
            Some(k) => Some(k + x.len()),
            None => None,
        },
    decreases t.len() - c,
{
    if c < t.len() {
        assert((x + t)[x.len() + c] == t[c]);
        if t[c] != ':' {
            lemma_first_colon_shift(x, t, c + 1);
        }
    }
}

proof fn lemma_first_colon_skip(x: Seq<char>, t: Seq<char>, c: int)
    requires
        0 <= c <= x.len(),
        forall|k: int| c <= k < x.len() ==> x[k] != ':',
    ensures
        first_char_from(x + t, c, ':') == first_char_from(x + t, x.len() as int, ':'),
    decreases x.len() - c,
{
    if c < x.len() {
        assert((x + t)[c] == x[c]);
        lemma_first_colon_skip(x, t, c + 1);
    }
}

proof fn lemma_shortcode_shift(x: Seq<char>, t: Seq<char>, k: int)
    requires
        0 <= k < t.len(),
    ensures
        shortcode_at(x + t, x.len() + k) == match shortcode_at(t, k) {
            Some((end, e)) => Some((end + x.len(), e)),
            None => None,
        },
{
    lemma_first_colon_shift(x, t, k + 1);
    lemma_first_char_from_bounds(t, k + 1, ':');
    if let Some(end) = first_char_from(t, k + 1, ':') {
        assert((x + t).subrange(x.len() + k + 1, end + x.len()) =~= t.subrange(k + 1, end));
    }
}

proof fn lemma_no_shortcode_prefix(x: Seq<char>, t: Seq<char>)
    requires
        no_shortcode(t),
        forall|k: int| 0 <= k < x.len() ==> x[k] != ':',
    ensures
        no_shortcode(x + t),
{
    assert forall|i: int| 0 <= i < (x + t).len() && (x + t)[i] == ':' implies #[trigger] shortcode_at(x + t, i) is None by {
        if i < x.len() {
            assert((x + t)[i] == x[i]);
        } else {
            let k = i - x.len();
            assert((x + t)[i] == t[k]);
            lemma_shortcode_shift(x, t, k);
        }
    }
}

proof fn lemma_emoji_chars(name: Seq<char>)
    ensures
        spec_emoji_shortcode(name) matches Some(e) ==> e.len() >= 1 && forall|k: int|
            0 <= k < e.len() ==> #[trigger] e[k] != ':' && !is_shortcode_char(e[k]) && e[k] != '\0',
{
}

proof fn lemma_emoji_scan_plain_to(v: Seq<char>, a: int, b: int)
    requires
        0 <= a <= b <= v.len(),
        forall|k: int| a <= k < b ==> v[k] != ':',
    ensures
        emoji_scan(v, a) == v.subrange(a, b) + emoji_scan(v, b),
    decreases b - a,
{
    if a < b {
        lemma_emoji_scan_plain_to(v, a + 1, b);
        assert(seq![v[a]] + (v.subrange(a + 1, b) + emoji_scan(v, b)) =~= v.subrange(a, b) + emoji_scan(v, b));
    } else {
        assert(v.subrange(a, b) + emoji_scan(v, b) =~= emoji_scan(v, b));
    }
}

proof fn lemma_emoji_scan_stable(v: Seq<char>, i: int)
    requires
        0 <= i <= v.len(),
        no_shortcode(v),
    ensures
        emoji_scan(v, i) == v.subrange(i, v.len() as int),
    decreases v.len() - i,
{
    if i < v.len() {
        lemma_emoji_scan_stable(v, i + 1);
        if v[i] == ':' {
            assert(shortcode_at(v, i) is None);
        }
        assert(seq![v[i]] + v.subrange(i + 1, v.len() as int) =~= v.subrange(i, v.len() as int));
    } else {
        assert(v.subrange(i, v.len() as int) =~= Seq::<char>::empty());
    }
}

proof fn lemma_emoji_scan_no_nul(w: Seq<char>, i: int)
    requires
        0 <= i <= w.len(),
        forall|k: int| 0 <= k < w.len() ==> w[k] != '\0',
    ensures
        forall|k: int| 0 <= k < emoji_scan(w, i).len() ==> #[trigger] emoji_scan(w, i)[k] != '\0',
    decreases w.len() - i,
{
    if i < w.len() {
        let s = emoji_scan(w, i);
        if w[i] == ':' {
            lemma_first_char_from_bounds(w, i + 1, ':');
            match shortcode_at(w, i) {
                Some((end, e)) => {
                    lemma_emoji_chars(w.subrange(i + 1, end));
                    lemma_emoji_scan_no_nul(w, end + 1);
                    let t = emoji_scan(w, end + 1);
                    assert forall|k: int| 0 <= k < s.len() implies #[trigger] s[k] != '\0' by {
                        if k < e.len() {
                            assert(s[k] == e[k]);
                        } else {
                            assert(s[k] == t[k - e.len()]);
                        }
                    }
                },
                None => {
                    lemma_emoji_scan_no_nul(w, i + 1);
                    let t = emoji_scan(w, i + 1);
                    assert forall|k: int| 0 <= k < s.len() implies #[trigger] s[k] != '\0' by {
                        if k > 0 {
                            assert(s[k] == t[k - 1]);
                        }
                    }
                },
            }
        } else {
            lemma_emoji_scan_no_nul(w, i + 1);
            let t = emoji_scan(w, i + 1);
            assert forall|k: int| 0 <= k < s.len() implies #[trigger] s[k] != '\0' by {
                if k > 0 {
                    assert(s[k] == t[k - 1]);
                }
            }
        }
    }
}

proof fn lemma_emoji_scan_no_shortcode(w: Seq<char>, i: int)
    requires
        0 <= i <= w.len(),
    ensures
        no_shortcode(emoji_scan(w, i)),
    decreases w.len() - i,
{
    if i < w.len() {
        let s = emoji_scan(w, i);
        if w[i] != ':' {
            lemma_emoji_scan_no_shortcode(w, i + 1);
            lemma_no_shortcode_prefix(seq![w[i]], emoji_scan(w, i + 1));
        } else {
            lemma_first_char_from_bounds(w, i + 1, ':');
            match shortcode_at(w, i) {
                Some((end, e)) => {
                    lemma_emoji_chars(w.subrange(i + 1, end));
                    lemma_emoji_scan_no_shortcode(w, end + 1);
                    lemma_no_shortcode_prefix(e, emoji_scan(w, end + 1));
                },
                None => {
                    let t = emoji_scan(w, i + 1);
                    let colon: Seq<char> = seq![':'];
                    lemma_emoji_scan_no_shortcode(w, i + 1);
                    assert(s == colon + t);
                    assert forall|j: int| 0 <= j < s.len() && s[j] == ':' implies #[trigger] shortcode_at(s, j) is None by {
                        if j > 0 {
                            assert(s[j] == t[j - 1]);
                            lemma_shortcode_shift(colon, t, j - 1);
                        } else {
                            lemma_colon_opens_nothing(w, i);
                        }
                    }
                },
            }
        }
    }
}

/// A colon that the scan keeps still opens no shortcode in what the scan
/// gives.
proof fn lemma_colon_opens_nothing(w: Seq<char>, i: int)
    requires
        0 <= i < w.len(),
        w[i] == ':',
        shortcode_at(w, i) is None,
    ensures
        shortcode_at(seq![':'] + emoji_scan(w, i + 1), 0) is None,
{
    let colon: Seq<char> = seq![':'];
    let t = emoji_scan(w, i + 1);
    let s = colon + t;
    lemma_first_colon_shift(colon, t, 0);
    lemma_first_char_from_before(w, i + 1, ':');
    lemma_first_char_from_bounds(w, i + 1, ':');
    match first_char_from(w, i + 1, ':') {
        None => {
            lemma_emoji_scan_plain_to(w, i + 1, w.len() as int);
            assert(t =~= w.subrange(i + 1, w.len() as int));
            lemma_first_char_from_bounds(t, 0, ':');
            if let Some(k) = first_char_from(t, 0, ':') {
                assert(t[k] == w[i + 1 + k]);
            }
        },
        Some(end) => {
            lemma_emoji_scan_plain_to(w, i + 1, end);
            let x = w.subrange(i + 1, end);
            let u = emoji_scan(w, end);
            assert(t == x + u);
            lemma_first_colon_skip(x, u, 0);
            lemma_first_colon_shift(x, u, 0);
            lemma_first_char_from_bounds(w, end + 1, ':');
            match shortcode_at(w, end) {
                None => {
                    assert(u == seq![':'] + emoji_scan(w, end + 1));
                    assert(u[0] == ':');
                    assert(first_char_from(t, 0, ':') == Some(x.len() as int));
                    assert(s.subrange(1, 1 + x.len() as int) =~= x);
                },
                Some((end2, e2)) => {
                    lemma_emoji_chars(w.subrange(end + 1, end2));
                    let rest = emoji_scan(w, end2 + 1);
                    assert(u == e2 + rest);
                    lemma_first_colon_skip(e2, rest, 0);
                    lemma_first_colon_shift(e2, rest, 0);
                    lemma_first_char_from_bounds(u, 0, ':');
                    lemma_first_char_from_bounds(s, 1, ':');
                    if let Some(q) = first_char_from(s, 1, ':') {
                        assert(q >= 1 + x.len() + e2.len());
                        let name = s.subrange(1, q);
                        assert(name[x.len() as int] == e2[0]);
                        assert(!is_shortcode_char(name[x.len() as int]));
                    }
                },
            }
        },
    }
}

/// Replacing shortcodes a second time changes nothing, and the result holds
/// no U+0000.
pub proof fn lemma_replace_emoji_idempotent(value: Seq<char>)
    ensures
        spec_replace_emoji_shortcodes(spec_replace_emoji_shortcodes(value)) == spec_replace_emoji_shortcodes(value),
        forall|k: int|
            0 <= k < spec_replace_emoji_shortcodes(value).len() ==> #[trigger] spec_replace_emoji_shortcodes(value)[k]
                != '\0',
{
    let w = nul_replaced(value);
    let s = emoji_scan(w, 0);
    lemma_emoji_scan_no_nul(w, 0);
    assert(nul_replaced(s) =~= s);
    lemma_emoji_scan_no_shortcode(w, 0);
    lemma_emoji_scan_stable(s, 0);
    assert(s.subrange(0, s.len() as int) =~= s);
}

/// The documented shortcodes, each with its emoji.
pub open spec fn documented_shortcodes() -> Seq<(Seq<char>, Seq<char>)> {
    seq![
        (seq!['s', 'm', 'i', 'l', 'e'], seq!['\u{1F604}']),
        (seq!['j', 'o', 'y'], seq!['\u{1F602}']),
        (seq!['w', 'i', 'n', 'k'], seq!['\u{1F609}']),
        (seq!['r', 'o', 'c', 'k', 'e', 't'], seq!['\u{1F680}']),
        (seq!['t', 'a', 'd', 'a'], seq!['\u{1F389}']),
        (seq!['w', 'a', 'r', 'n', 'i', 'n', 'g'], seq!['\u{26A0}', '\u{FE0F}']),
        (seq!['h', 'e', 'a', 'r', 't'], seq!['\u{2764}', '\u{FE0F}']),
        (seq!['c', 'o', 'f', 'f', 'e', 'e'], seq!['\u{2615}']),
        (seq!['t', 'e', 'a'], seq!['\u{1F375}']),
    ]
}

proof fn lemma_emoji_scan_shift(x: Seq<char>, t: Seq<char>, i: int)
    requires
        0 <= i <= t.len(),
    ensures
        emoji_scan(x + t, x.len() + i) == emoji_scan(t, i),
    decreases t.len() - i,
{
    if i < t.len() {
        assert((x + t)[x.len() + i] == t[i]);
        if t[i] == ':' {
            lemma_shortcode_shift(x, t, i);
            lemma_first_char_from_bounds(t, i + 1, ':');
            lemma_first_char_from_bounds(x + t, x.len() + i + 1, ':');
            match shortcode_at(t, i) {
                Some((end, e)) => {
                    lemma_emoji_scan_shift(x, t, end + 1);
                },
                None => {
                    lemma_emoji_scan_shift(x, t, i + 1);
                },
            }
        } else {
            lemma_emoji_scan_shift(x, t, i + 1);
        }
    }
}

/// Each documented shortcode stands for its emoji, and `:name:` at the start
/// of a text value is replaced by that emoji whatever follows it.
pub proof fn lemma_documented_shortcode_replaced(k: int, rest: Seq<char>)
    requires
        0 <= k < documented_shortcodes().len(),
    ensures
        spec_emoji_shortcode(documented_shortcodes()[k].0) == Some(documented_shortcodes()[k].1),
        spec_replace_emoji_shortcodes(seq![':'] + documented_shortcodes()[k].0 + seq![':'] + rest)
            == documented_shortcodes()[k].1 + spec_replace_emoji_shortcodes(rest),
{
    let (name, e) = documented_shortcodes()[k];
    let colon: Seq<char> = seq![':'];
    let x = colon + name;
    let v = x + colon + rest;
    let nr = nul_replaced(rest);
    let t = colon + nr;
    let w = nul_replaced(v);
    assert(forall|j: int| 0 <= j < name.len() ==> name[j] != ':' && name[j] != '\0' && is_shortcode_char(#[trigger] name[j]));
    assert(w =~= x + t);
    lemma_first_colon_skip(x, t, 1);
    assert(t[0] == ':');
    lemma_first_colon_shift(x, t, 0);
    assert(first_char_from(t, 0, ':') == Some(0int));
    assert(first_char_from(w, 1, ':') == Some(x.len() as int));
    assert(w.subrange(1, x.len() as int) =~= name);
    assert(spec_is_emoji_shortcode_name(name));
    assert(shortcode_at(w, 0) == Some((x.len() as int, e)));
    assert(w[0] == ':');
    assert(emoji_scan(w, 0) == e + emoji_scan(w, x.len() + 1int));
    assert(w =~= (x + colon) + nr);
    lemma_emoji_scan_shift(x + colon, nr, 0);
}

/// The shortcodes are exactly the documented ones, and a shortcode name is
/// one or more of `a`-`z`, `0`-`9`, `_` and `-`.
pub proof fn lemma_shortcode_table_exact(name: Seq<char>)
    ensures
        spec_emoji_shortcode(name) is Some <==> exists|k: int|
            0 <= k < documented_shortcodes().len() && documented_shortcodes()[k].0 == name,
        spec_is_emoji_shortcode_name(name) <==> name.len() > 0 && forall|j: int|
            0 <= j < name.len() ==> ('a' <= #[trigger] name[j] <= 'z') || ('0' <= name[j] <= '9') || name[j] == '_'
                || name[j] == '-',
{
    let d = documented_shortcodes();
    if spec_emoji_shortcode(name) is Some {
        if name == d[0].0 {
        } else if name == d[1].0 {
            assert(d[1].0 == name);
        } else if name == d[2].0 {
            assert(d[2].0 == name);
        } else if name == d[3].0 {
            assert(d[3].0 == name);
        } else if name == d[4].0 {
            assert(d[4].0 == name);
        } else if name == d[5].0 {
            assert(d[5].0 == name);
        } else if name == d[6].0 {
            assert(d[6].0 == name);
        } else if name == d[7].0 {
            assert(d[7].0 == name);
        } else {
            assert(d[8].0 == name);
        }
    }
    if exists|k: int| 0 <= k < d.len() && d[k].0 == name {
        let k = choose|k: int| 0 <= k < d.len() && d[k].0 == name;
        lemma_documented_shortcode_replaced(k, Seq::empty());
    }
}

} // verus!
