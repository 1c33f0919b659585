//! The metadata of a diagram fence: what follows the language word in the
//! info string, as whitespace-separated `key=value` pairs and bare flags.
use vstd::prelude::*;
use crate::supramark::extension::{first_ws_in, lemma_first_ws_in_bounds};
use crate::text::{chars_of, is_white_space_char, lemma_skip_ws_bounds, skip_white_space, skip_ws, string_of_chars};

verus! {

broadcast use vstd::seq::group_seq_axioms;

/// The white-space separated words of `v[i..]`.
pub open spec fn words_from(v: Seq<char>, i: int) -> Seq<Seq<char>>
    decreases v.len() - i,
{
    if i < 0 || i >= v.len() {
        Seq::empty()
    } else {
        let s = skip_ws(v, i);
        let e = first_ws_in(v, s, v.len() as int);
        if s < v.len() && i < e <= v.len() {
            seq![v.subrange(s, e)] + words_from(v, e)
        } else {
            Seq::empty()
        }
    }
}

/// The first `=` of `w` at or after `k`.
pub open spec fn first_eq(w: Seq<char>, k: int) -> Option<int>
    decreases w.len() - k,
{
    if k < 0 || k >= w.len() {
        None
    } else if w[k] == '=' {
        Some(k)
    } else {
        first_eq(w, k + 1)
    }
}

/// `v` without one pair of surrounding double quotes.
pub open spec fn unquote(v: Seq<char>) -> Seq<char> {
    if v.len() >= 2 && v[0] == '"' && v[v.len() - 1] == '"' {
        v.subrange(1, v.len() - 1)
    } else {
        v
    }
}

/// What one word of the metadata is: a `key=value` pair (split at the first
/// `=`, the value unquoted), a bare flag, or nothing (an empty key).
pub enum MetaItem {
    Pair(Seq<char>, Seq<char>),
    Flag(Seq<char>),
    Skip,
}

pub open spec fn meta_item(w: Seq<char>) -> MetaItem {
    match first_eq(w, 0) {
        Some(p) => if p == 0 {
            MetaItem::Skip
        } else {
            MetaItem::Pair(w.subrange(0, p), unquote(w.subrange(p + 1, w.len() as int)))
        },
        None => MetaItem::Flag(w),
    }
}

/// The items of the words `ws`, empty keys left out.
pub open spec fn meta_items(ws: Seq<Seq<char>>) -> Seq<MetaItem>
    decreases ws.len(),
{
    if ws.len() == 0 {
        Seq::empty()
    } else {
        (if meta_item(ws[0]) is Skip {
            Seq::empty()
        } else {
            seq![meta_item(ws[0])]
        }) + meta_items(ws.drop_first())
    }
}

/// The value of a metadata entry: a text, or `true` for a bare flag.
#[derive(Clone, Debug, PartialEq, Eq)]
pub enum DiagramMetaValue {
    Text(String),
    Flag,
}

/// An entry holds the item.
pub open spec fn entry_is(e: (String, DiagramMetaValue), m: MetaItem) -> bool {
    match m {
        MetaItem::Pair(k, v) => e.0@ == k && (e.1 matches DiagramMetaValue::Text(s) && s@ == v),
        MetaItem::Flag(k) => e.0@ == k && e.1 is Flag,
        MetaItem::Skip => false,
    }
}

/// The entries of a diagram fence's metadata, in order (see `meta_items`);
/// `None` when there is none. A later entry with the same key overrides an
/// earlier one where the entries become an object.
pub fn parse_diagram_meta(meta: &str) -> (r: Option<Vec<(String, DiagramMetaValue)>>)
    ensures
        ({
            let items = meta_items(words_from(meta@, 0));
            if items.len() == 0 {
                r is None
            } else {
                r matches Some(es) && es@.len() == items.len() && forall|k: int|
                    0 <= k < items.len() ==> entry_is(#[trigger] es@[k], items[k])
            }
        }),
{
    let v = chars_of(meta);
    let n = v.len();
    let ghost all = meta_items(words_from(v@, 0));
    let mut entries: Vec<(String, DiagramMetaValue)> = Vec::new();
    let ghost mut done: Seq<MetaItem> = Seq::empty();
    let mut i: usize = 0;
    while i < n
        invariant_except_break
            i <= n,
        invariant
            v@ == meta@,
            n == v@.len(),
            all == meta_items(words_from(v@, 0)),
            done + meta_items(words_from(v@, i as int)) == all,
            entries@.len() == done.len(),
            forall|k: int| 0 <= k < done.len() ==> entry_is(#[trigger] entries@[k], done[k]),
        ensures
            done == all,
        decreases n - i,
    {
        let s = skip_white_space(&v, i);
        proof {
            lemma_skip_ws_bounds(v@, i as int);
        }
        if s >= n {
            proof {
                assert(words_from(v@, i as int) =~= Seq::<Seq<char>>::empty());
                assert(done =~= all);
            }
            break;
        }
        let mut e = s;
        while e < n && !is_white_space_char(v[e])
            invariant
                s <= e <= n,
                n == v@.len(),
                first_ws_in(v@, s as int, n as int) == first_ws_in(v@, e as int, n as int),
            decreases n - e,
        {
            e += 1;
        }
        proof {
            lemma_first_ws_in_bounds(v@, s as int, n as int);
        }
        let ghost w = v@.subrange(s as int, e as int);
        let mut p = s;
        while p < e && v[p] != '='
            invariant
                s <= p <= e <= n,
                n == v@.len(),
                w == v@.subrange(s as int, e as int),
                first_eq(w, 0) == first_eq(w, p - s),
            decreases e - p,
        {
            p += 1;
        }
        let ghost item = meta_item(w);
        proof {
            assert(words_from(v@, i as int) == seq![w] + words_from(v@, e as int));
            assert((seq![w] + words_from(v@, e as int)).drop_first() =~= words_from(v@, e as int));
        }
        if p < e {
            if p > s {
                let key = string_of_chars(&v, s, p);
                let raw = p + 1;
                let (lo, hi) = if e - raw >= 2 && v[raw] == '"' && v[e - 1] == '"' {
                    (raw + 1, e - 1)
                } else {
                    (raw, e)
                };
                let value = string_of_chars(&v, lo, hi);
                entries.push((key, DiagramMetaValue::Text(value)));
                proof {
                    let wv = w.subrange(p - s + 1, w.len() as int);
                    assert(wv =~= v@.subrange(raw as int, e as int));
                    assert(unquote(wv) =~= v@.subrange(lo as int, hi as int));
                    assert(w.subrange(0, p - s) =~= v@.subrange(s as int, p as int));
                    done = done.push(item);
                }
            }
        } else {
            let key = string_of_chars(&v, s, e);
            entries.push((key, DiagramMetaValue::Flag));
            proof {
                done = done.push(item);
            }
        }
        proof {
            assert(done + meta_items(words_from(v@, e as int)) =~= all);
        }
        i = e;
    }
    if entries.len() == 0 {
        None
    } else {
        Some(entries)
    }
}

} // verus!
