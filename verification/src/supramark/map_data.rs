//! The body of a map container: the `center:` and `zoom:` lines and the
//! `lat:` and `lng:` lines of a `marker:` block, each with its raw value.
use vstd::prelude::*;
use crate::plugins::extra::math::trimmed;
use crate::supramark::weather::{line_end, lines_from, trim_range};
use crate::text::{chars_of, chars_range_eq, is_white_space, is_white_space_char, string_of_chars};

verus! {

broadcast use vstd::seq::group_seq_axioms;

/// The setting a line of a map body gives a value to.
#[derive(Clone, Copy, Debug, PartialEq, Eq, Structural)]
pub enum MapKey {
    Center,
    Zoom,
    Lat,
    Lng,
}

/// A setting of a map body with its value as written (trimmed).
pub struct MapField {
    pub key: MapKey,
    pub raw: String,
}

/// `t` starts with `p`.
pub open spec fn has_prefix(t: Seq<char>, p: Seq<char>) -> bool {
    t.len() >= p.len() && t.subrange(0, p.len() as int) == p
}

/// What `t` holds after the prefix `p`, trimmed.
pub open spec fn after_prefix(t: Seq<char>, p: Seq<char>) -> Seq<char> {
    trimmed(t.subrange(p.len() as int, t.len() as int))
}

/// What one line of a map body gives, and whether a `marker:` block is open
/// after it. Blank lines change nothing. An unindented line closes any
/// marker block and gives the center or the zoom, or opens a marker block
/// when it is `marker:`. An indented line inside a marker block gives the
/// marker's latitude or longitude.
pub open spec fn map_line_step(line: Seq<char>, in_marker: bool) -> (Option<(MapKey, Seq<char>)>, bool) {
    let t = trimmed(line);
    if t.len() == 0 {
        (None, in_marker)
    } else if !is_white_space(line[0]) {
        if has_prefix(t, "center:"@) {
            (Some((MapKey::Center, after_prefix(t, "center:"@))), false)
        } else if has_prefix(t, "zoom:"@) {
            (Some((MapKey::Zoom, after_prefix(t, "zoom:"@))), false)
        } else if t == "marker:"@ {
            (None, true)
        } else {
            (None, false)
        }
    } else if in_marker {
        if has_prefix(t, "lat:"@) {
            (Some((MapKey::Lat, after_prefix(t, "lat:"@))), true)
        } else if has_prefix(t, "lng:"@) {
            (Some((MapKey::Lng, after_prefix(t, "lng:"@))), true)
        } else {
            (None, true)
        }
    } else {
        (None, false)
    }
}

/// The settings the lines `ls` give, in order, starting with a marker block
/// open or not.
pub open spec fn map_fields(ls: Seq<Seq<char>>, in_marker: bool) -> Seq<(MapKey, Seq<char>)>
    decreases ls.len(),
{
    if ls.len() == 0 {
        Seq::empty()
    } else {
        let (f, m) = map_line_step(ls[0], in_marker);
        (match f {
            Some(x) => seq![x],
            None => Seq::empty(),
        }) + map_fields(ls.drop_first(), m)
    }
}

/// The settings as keys and raw values.
pub open spec fn map_fields_view(fs: Seq<MapField>) -> Seq<(MapKey, Seq<char>)> {
    Seq::new(fs.len(), |k: int| (fs[k].key, fs[k].raw@))
}

fn has_prefix_chars(t: &[char], p: &str) -> (r: bool)
    ensures
        r == has_prefix(t@, p@),
{
    let pv = chars_of(p);
    if t.len() < pv.len() {
        return false;
    }
    chars_range_eq(t, 0, pv.len(), &pv)
}

fn after_prefix_string(t: &[char], p: &str) -> (r: String)
    requires
        has_prefix(t@, p@),
    ensures
        r@ == after_prefix(t@, p@),
{
    let pv = chars_of(p);
    let w = trim_range(t, pv.len(), t.len());
    proof {
        assert(w@.subrange(0, w@.len() as int) =~= w@);
    }
    string_of_chars(&w, 0, w.len())
}

fn map_line(v: &[char], i: usize, e: usize, in_marker: bool) -> (r: (Option<MapField>, bool))
    requires
        i <= e <= v@.len(),
    ensures
        r.1 == map_line_step(v@.subrange(i as int, e as int), in_marker).1,
        match map_line_step(v@.subrange(i as int, e as int), in_marker).0 {
            Some((k, raw)) => r.0 matches Some(f) && f.key == k && f.raw@ == raw,
            None => r.0 is None,
        },
{
    let ghost line = v@.subrange(i as int, e as int);
    let t = trim_range(v, i, e);
    if t.len() == 0 {
        return (None, in_marker);
    }
    proof {
        assert(line.len() > 0);
        assert(line[0] == v@[i as int]);
    }
    if !is_white_space_char(v[i]) {
        if has_prefix_chars(&t, "center:") {
            (Some(MapField { key: MapKey::Center, raw: after_prefix_string(&t, "center:") }), false)
        } else if has_prefix_chars(&t, "zoom:") {
            (Some(MapField { key: MapKey::Zoom, raw: after_prefix_string(&t, "zoom:") }), false)
        } else {
            let mv = chars_of("marker:");
            proof {
                assert(t@.subrange(0, t@.len() as int) =~= t@);
            }
            (None, chars_range_eq(&t, 0, t.len(), &mv))
        }
    } else if in_marker {
        if has_prefix_chars(&t, "lat:") {
            (Some(MapField { key: MapKey::Lat, raw: after_prefix_string(&t, "lat:") }), true)
        } else if has_prefix_chars(&t, "lng:") {
            (Some(MapField { key: MapKey::Lng, raw: after_prefix_string(&t, "lng:") }), true)
        } else {
            (None, true)
        }
    } else {
        (None, false)
    }
}

/// The settings a map body gives, line by line (see `map_line_step`); the
/// values are left as text.
pub fn map_data_fields(value: &str) -> (r: Vec<MapField>)
    ensures
        map_fields_view(r@) == map_fields(lines_from(value@, 0), false),
{
    let v = chars_of(value);
    let n = v.len();
    let ghost all = map_fields(lines_from(v@, 0), false);
    let ghost mut done: Seq<(MapKey, Seq<char>)> = Seq::empty();
    let mut out: Vec<MapField> = Vec::new();
    let mut in_marker = false;
    let mut i: usize = 0;
    let mut more = true;
    while more
        invariant
            v@ == value@,
            n == v@.len(),
            i <= n,
            all == map_fields(lines_from(v@, 0), false),
            more ==> done + map_fields(lines_from(v@, i as int), in_marker) == all,
            !more ==> done == all,
            map_fields_view(out@) == done,
        decreases n - i + (if more { 1int } else { 0int }),
    {
        let mut e = i;
        while e < n && v[e] != '\n'
            invariant
                i <= e <= n,
                n == v@.len(),
                line_end(v@, i as int) == line_end(v@, e as int),
            decreases n - e,
        {
            e += 1;
        }
        proof {
            lemma_line_end_at(v@, i as int);
        }
        let ghost line = v@.subrange(i as int, e as int);
        let ghost step = map_line_step(line, in_marker);
        let ghost opt = match step.0 {
            Some(x) => seq![x],
            None => Seq::<(MapKey, Seq<char>)>::empty(),
        };
        let ghost done0 = done;
        let ghost m0 = in_marker;
        let (f, m) = map_line(&v, i, e, in_marker);
        let ghost out0 = out@;
        match f {
            Some(fd) => {
                out.push(fd);
                proof {
                    done = done.push(step.0->0);
                    assert(map_fields_view(out@) =~= map_fields_view(out0).push(step.0->0));
                }
            },
            None => {},
        }
        in_marker = m;
        proof {
            assert(done == done0 + opt);
            let rest = if e < n { lines_from(v@, e + 1) } else { Seq::empty() };
            assert(lines_from(v@, i as int) == seq![line] + rest);
            assert((seq![line] + rest).drop_first() =~= rest);
            assert(map_fields(seq![line] + rest, m0) == opt + map_fields(rest, in_marker));
        }
        if e < n {
            i = e + 1;
        } else {
            proof {
                assert(map_fields(Seq::<Seq<char>>::empty(), in_marker) =~= Seq::<(MapKey, Seq<char>)>::empty());
                assert(done =~= all);
            }
            i = n;
            more = false;
        }
    }
    out
}

proof fn lemma_line_end_at(v: Seq<char>, i: int)
    requires
        0 <= i <= v.len(),
    ensures
        i <= line_end(v, i) <= v.len(),
        line_end(v, i) < v.len() ==> v[line_end(v, i)] == '\n',
    decreases v.len() - i,
{
    if i < v.len() && v[i] != '\n' {
        lemma_line_end_at(v, i + 1);
    }
}

/// The first index from `i` on whose character is not `c` (`t.len()` if
/// none).
pub open spec fn skip_char(t: Seq<char>, i: int, c: char) -> int
    decreases t.len() - i,
{
    if i < 0 || i >= t.len() {
        if i < 0 { 0 } else { i }
    } else if t[i] == c {
        skip_char(t, i + 1, c)
    } else {
        i
    }
}

/// The end of `t[lo..j]` once the characters `c` at its end are dropped.
pub open spec fn skip_char_back(t: Seq<char>, lo: int, j: int, c: char) -> int
    decreases j - lo,
{
    if j <= lo {
        lo
    } else if t[j - 1] == c {
        skip_char_back(t, lo, j - 1, c)
    } else {
        j
    }
}

/// The first `,` of `t` at or after `k`.
pub open spec fn first_comma(t: Seq<char>, k: int) -> Option<int>
    decreases t.len() - k,
{
    if k < 0 || k >= t.len() {
        None
    } else if t[k] == ',' {
        Some(k)
    } else {
        first_comma(t, k + 1)
    }
}

/// The two parts of a `[a, b]` pair: `raw` trimmed, every `[` at its start
/// and `]` at its end dropped, then split at its one comma, each part
/// trimmed; none unless there is exactly one comma.
pub open spec fn spec_pair_parts(raw: Seq<char>) -> Option<(Seq<char>, Seq<char>)> {
    let t = trimmed(raw);
    let a = skip_char(t, 0, '[');
    let b = skip_char_back(t, a, t.len() as int, ']');
    let s = t.subrange(a, b);
    match first_comma(s, 0) {
        Some(c) => if first_comma(s, c + 1) is None {
            Some((trimmed(s.subrange(0, c)), trimmed(s.subrange(c + 1, s.len() as int))))
        } else {
            None
        },
        None => None,
    }
}

proof fn lemma_skip_char(t: Seq<char>, i: int, c: char)
    requires
        0 <= i <= t.len(),
    ensures
        i <= skip_char(t, i, c) <= t.len(),
    decreases t.len() - i,
{
    if i < t.len() && t[i] == c {
        lemma_skip_char(t, i + 1, c);
    }
}

proof fn lemma_skip_char_back(t: Seq<char>, lo: int, j: int, c: char)
    requires
        0 <= lo <= j <= t.len(),
    ensures
        lo <= skip_char_back(t, lo, j, c) <= j,
    decreases j - lo,
{
    if j > lo && t[j - 1] == c {
        lemma_skip_char_back(t, lo, j - 1, c);
    }
}

proof fn lemma_first_comma(t: Seq<char>, k: int)
    requires
        0 <= k,
    ensures
        first_comma(t, k) matches Some(c) ==> k <= c < t.len(),
    decreases t.len() - k,
{
    if k < t.len() && t[k] != ',' {
        lemma_first_comma(t, k + 1);
    }
}

fn find_comma(t: &[char], k: usize) -> (r: Option<usize>)
    requires
        k <= t@.len(),
    ensures
        r == (match first_comma(t@, k as int) {
            Some(c) => Some(c as usize),
            None => None::<usize>,
        }),
        r matches Some(c) ==> c < t@.len(),
{
    let mut i = k;
    while i < t.len()
        invariant
            k <= i <= t@.len(),
            first_comma(t@, k as int) == first_comma(t@, i as int),
        decreases t@.len() - i,
    {
        if t[i] == ',' {
            return Some(i);
        }
        i += 1;
    }
    None
}

/// The two parts of a `[a, b]` pair (see `spec_pair_parts`), left as text.
pub fn pair_parts(raw: &str) -> (r: Option<(String, String)>)
    ensures
        match spec_pair_parts(raw@) {
            Some((x, y)) => r matches Some((p, q)) && p@ == x && q@ == y,
            None => r is None,
        },
{
    let v = chars_of(raw);
    let t = trim_range(&v, 0, v.len());
    proof {
        assert(v@.subrange(0, v@.len() as int) =~= v@);
    }
    let n = t.len();
    let mut a: usize = 0;
    while a < n && t[a] == '['
        invariant
            a <= n == t@.len(),
            skip_char(t@, 0, '[') == skip_char(t@, a as int, '['),
        decreases n - a,
    {
        a += 1;
    }
    assert(skip_char(t@, a as int, '[') == a);
    let mut b: usize = n;
    while b > a && t[b - 1] == ']'
        invariant
            a <= b <= n == t@.len(),
            skip_char(t@, 0, '[') == a,
            skip_char_back(t@, a as int, n as int, ']') == skip_char_back(t@, a as int, b as int, ']'),
        decreases b - a,
    {
        b -= 1;
    }
    assert(skip_char_back(t@, a as int, b as int, ']') == b);
    let mut s: Vec<char> = Vec::new();
    let mut k = a;
    while k < b
        invariant
            a <= k <= b <= n == t@.len(),
            skip_char(t@, 0, '[') == a,
            skip_char_back(t@, a as int, n as int, ']') == b,
            s@ == t@.subrange(a as int, k as int),
        decreases b - k,
    {
        s.push(t[k]);
        k += 1;
    }
    assert(t@ == trimmed(raw@));
    assert(s@ == trimmed(raw@).subrange(skip_char(t@, 0, '['), skip_char_back(t@, skip_char(t@, 0, '['), t@.len() as int, ']')));
    let c = match find_comma(&s, 0) {
        Some(c) => c,
        None => {
            return None;
        },
    };
    let _ = s.len();
    proof {
        lemma_first_comma(s@, 0);
        lemma_first_comma(s@, c + 1);
    }
    assert(first_comma(s@, 0) == Some(c as int));
    let second = find_comma(&s, c + 1);
    if second.is_some() {
        assert(first_comma(s@, c + 1) is Some);
        return None;
    }
    assert(first_comma(s@, c + 1) is None);
    let x = trim_range(&s, 0, c);
    let y = trim_range(&s, c + 1, s.len());
    proof {
        assert(x@.subrange(0, x@.len() as int) =~= x@);
        assert(y@.subrange(0, y@.len() as int) =~= y@);
    }
    Some((string_of_chars(&x, 0, x.len()), string_of_chars(&y, 0, y.len())))
}

} // verus!
