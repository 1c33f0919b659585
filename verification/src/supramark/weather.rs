//! The key-value configuration of a weather block: one `key: value` pair per
//! line, blank lines and `#` comments skipped.
use vstd::prelude::*;
use crate::plugins::extra::math::trimmed;
use crate::text::{chars_of, lemma_skip_ws_bounds, lemma_trim_end_ws_bounds, skip_white_space, string_of_chars,
    trim_white_space_end};

verus! {

broadcast use vstd::seq::group_seq_axioms;

/// The first line feed of `v` at or after `i` (`v.len()` if none).
pub open spec fn line_end(v: Seq<char>, i: int) -> int
    decreases v.len() - i,
{
    if i < 0 || i >= v.len() {
        v.len() as int
    } else if v[i] == '\n' {
        i
    } else {
        line_end(v, i + 1)
    }
}

proof fn lemma_line_end(v: Seq<char>, i: int)
    requires
        0 <= i <= v.len(),
    ensures
        i <= line_end(v, i) <= v.len(),
        line_end(v, i) < v.len() ==> v[line_end(v, i)] == '\n',
    decreases v.len() - i,
{
    if i < v.len() && v[i] != '\n' {
        lemma_line_end(v, i + 1);
    }
}

/// The lines of `v[i..]`, split at line feeds.
pub open spec fn lines_from(v: Seq<char>, i: int) -> Seq<Seq<char>>
    decreases v.len() - i,
{
    if i < 0 || i > v.len() {
        Seq::empty()
    } else {
        let e = line_end(v, i);
        if i <= e < v.len() {
            seq![v.subrange(i, e)] + lines_from(v, e + 1)
        } else {
            seq![v.subrange(i, v.len() as int)]
        }
    }
}

/// The first `:` of `t` at or after `k`.
pub open spec fn first_colon(t: Seq<char>, k: int) -> Option<int>
    decreases t.len() - k,
{
    if k < 0 || k >= t.len() {
        None
    } else if t[k] == ':' {
        Some(k)
    } else {
        first_colon(t, k + 1)
    }
}

/// The entry of one line: its trimmed key and value around the first `:`;
/// none for a blank line, a comment, a line without `:` or with an empty key.
pub open spec fn config_entry(line: Seq<char>) -> Option<(Seq<char>, Seq<char>)> {
    let t = trimmed(line);
    if t.len() == 0 || t[0] == '#' {
        None
    } else {
        match first_colon(t, 0) {
            None => None,
            Some(p) => {
                let k = trimmed(t.subrange(0, p));
                if k.len() == 0 {
                    None
                } else {
                    Some((k, trimmed(t.subrange(p + 1, t.len() as int))))
                }
            },
        }
    }
}

/// The entries of the lines `ls`, in order.
pub open spec fn config_entries(ls: Seq<Seq<char>>) -> Seq<(Seq<char>, Seq<char>)>
    decreases ls.len(),
{
    if ls.len() == 0 {
        Seq::empty()
    } else {
        (match config_entry(ls[0]) {
            Some(e) => seq![e],
            None => Seq::empty(),
        }) + config_entries(ls.drop_first())
    }
}

/// `v[lo..hi]` with white space trimmed from both ends.
pub(crate) fn trim_range(v: &[char], lo: usize, hi: usize) -> (r: Vec<char>)
    requires
        lo <= hi <= v@.len(),
    ensures
        r@ == trimmed(v@.subrange(lo as int, hi as int)),
{
    let mut w: Vec<char> = Vec::new();
    let mut k = lo;
    while k < hi
        invariant
            lo <= k <= hi <= v@.len(),
            w@ == v@.subrange(lo as int, k as int),
        decreases hi - k,
    {
        w.push(v[k]);
        k += 1;
    }
    let n = w.len();
    let a = skip_white_space(&w, 0);
    let b = trim_white_space_end(&w, n);
    proof {
        lemma_skip_ws_bounds(w@, 0);
        lemma_trim_end_ws_bounds(w@, n as int);
    }
    let mut t: Vec<char> = Vec::new();
    if a < b {
        let mut k = a;
        while k < b
            invariant
                a <= k <= b <= w@.len(),
                t@ == w@.subrange(a as int, k as int),
            decreases b - k,
        {
            t.push(w[k]);
            k += 1;
        }
    }
    t
}

/// The `key: value` entries of a weather block's key-value configuration,
/// in line order (see `config_entry`); the values are left as text.
pub fn weather_config_entries(value: &str) -> (r: Vec<(String, String)>)
    ensures
        r@.len() == config_entries(lines_from(value@, 0)).len(),
        forall|k: int|
            0 <= k < r@.len() ==> (#[trigger] r@[k]).0@ == config_entries(lines_from(value@, 0))[k].0 && r@[k].1@
                == config_entries(lines_from(value@, 0))[k].1,
{
    let v = chars_of(value);
    let n = v.len();
    let ghost all = config_entries(lines_from(v@, 0));
    let ghost mut done: Seq<(Seq<char>, Seq<char>)> = Seq::empty();
    let mut out: Vec<(String, String)> = Vec::new();
    let mut i: usize = 0;
    let mut more = true;
    while more
        invariant
            v@ == value@,
            n == v@.len(),
            i <= n,
            all == config_entries(lines_from(v@, 0)),
            more ==> done + config_entries(lines_from(v@, i as int)) == all,
            !more ==> done == all,
            out@.len() == done.len(),
            forall|k: int| 0 <= k < done.len() ==> (#[trigger] out@[k]).0@ == done[k].0 && out@[k].1@ == done[k].1,
        decreases n - i + (if more { 1int } else { 0int }),
    {
        let mut e = i;
        while e < n && v[e] != '\n'
            invariant
                i <= e <= n,
                n == v@.len(),
                line_end(v@, i as int) == line_end(v@, e as int),
            decreases n - e,
        {
            e += 1;
        }
        proof {
            lemma_line_end(v@, i as int);
        }
        let ghost line = v@.subrange(i as int, e as int);
        let t = trim_range(&v, i, e);
        let ghost entry = config_entry(line);
        let ghost done0 = done;
        let ghost opt = match entry {
            Some(x) => seq![x],
            None => Seq::<(Seq<char>, Seq<char>)>::empty(),
        };
        if t.len() > 0 && t[0] != '#' {
            let mut p: usize = 0;
            while p < t.len() && t[p] != ':'
                invariant
                    p <= t@.len(),
                    first_colon(t@, 0) == first_colon(t@, p as int),
                decreases t@.len() - p,
            {
                p += 1;
            }
            if p < t.len() {
                let key = trim_range(&t, 0, p);
                if key.len() > 0 {
                    let val = trim_range(&t, p + 1, t.len());
                    let ks = string_of_chars(&key, 0, key.len());
                    let vs = string_of_chars(&val, 0, val.len());
                    proof {
                        assert(key@.subrange(0, key@.len() as int) =~= key@);
                        assert(val@.subrange(0, val@.len() as int) =~= val@);
                    }
                    out.push((ks, vs));
                    proof {
                        done = done.push(entry->0);
                    }
                }
            }
        }
        proof {
            assert(done == done0 + opt);
            let rest = if e < n { lines_from(v@, e + 1) } else { Seq::empty() };
            assert(lines_from(v@, i as int) == seq![line] + rest);
            assert((seq![line] + rest).drop_first() =~= rest);
        }
        if e < n {
            i = e + 1;
        } else {
            proof {
                assert(config_entries(Seq::<Seq<char>>::empty()) =~= Seq::<(Seq<char>, Seq<char>)>::empty());
                assert(done0 + config_entries(seq![line]) == all);
                assert(config_entries(seq![line]) =~= opt);
                assert(done =~= all);
            }
            i = n;
            more = false;
        }
    }
    out
}

} // verus!
