//! Footnote identifiers and the numbering of footnotes in order of first
//! appearance.
use vstd::prelude::*;
use crate::text::{chars_of, is_white_space, is_white_space_char, push_char};

verus! {

broadcast use vstd::seq::group_seq_axioms;

/// Unicode lower case of a string, as `str::to_lowercase` computes it.
pub uninterp spec fn unicode_lowercase(s: Seq<char>) -> Seq<char>;

/// `str::to_lowercase`.
///
/// Claims only that the result is a function of the characters of the
/// argument (the Unicode lower-case mapping, which depends on nothing else);
/// the mapping itself is left unstated.
#[verifier::external_body]
fn to_lowercase(s: &str) -> (r: String)
    ensures
        r@ == unicode_lowercase(s@),
{
    s.to_lowercase()
}

/// `v[i..]` with white-space runs collapsed to single spaces and dropped at
/// both ends. `pending`: a space is owed before the next word; `started`: a
/// word has been emitted.
pub open spec fn collapse_from(v: Seq<char>, i: int, pending: bool, started: bool) -> Seq<char>
    decreases v.len() - i,
{
    if i < 0 || i >= v.len() {
        Seq::empty()
    } else if is_white_space(v[i]) {
        collapse_from(v, i + 1, started, started)
    } else {
        (if pending { seq![' '] } else { Seq::empty() }) + seq![v[i]] + collapse_from(v, i + 1, false, true)
    }
}

/// The white-space separated words of `v`, joined by single spaces.
pub open spec fn collapse_white_space(v: Seq<char>) -> Seq<char> {
    collapse_from(v, 0, false, false)
}

/// The words of `label`, joined by single spaces.
pub fn join_words(label: &str) -> (r: String)
    ensures
        r@ == collapse_white_space(label@),
{
    let v = chars_of(label);
    let n = v.len();
    let mut out = String::new();
    let mut pending = false;
    let mut started = false;
    let mut i: usize = 0;
    while i < n
        invariant
            v@ == label@,
            n == v@.len(),
            i <= n,
            out@ + collapse_from(v@, i as int, pending, started) == collapse_white_space(v@),
        decreases n - i,
    {
        let c = v[i];
        if is_white_space_char(c) {
            pending = started;
        } else {
            let ghost before = out@;
            let ghost p = pending;
            if pending {
                push_char(&mut out, ' ');
            }
            push_char(&mut out, c);
            proof {
                assert(out@ =~= before + (if p { seq![' '] } else { Seq::<char>::empty() }) + seq![c]);
                assert(out@ + collapse_from(v@, i + 1, false, true) =~= before + ((if p {
                    seq![' ']
                } else {
                    Seq::<char>::empty()
                }) + seq![c] + collapse_from(v@, i + 1, false, true)));
            }
            pending = false;
            started = true;
        }
        i += 1;
    }
    assert(out@ + collapse_from(v@, n as int, pending, started) =~= out@);
    out
}

/// The identifier that matches footnote references with definitions: the
/// label's words joined by single spaces, in lower case.
pub fn normalize_footnote_identifier(label: &str) -> (r: String)
    ensures
        r@ == unicode_lowercase(collapse_white_space(label@)),
{
    let joined = join_words(label);
    to_lowercase(joined.as_str())
}

/// The numbers given to footnote identifiers so far: each identifier at most
/// once.
pub struct FootnoteLabels {
    entries: Vec<(String, u32)>,
}

/// The map that a list of distinct (identifier, number) pairs stands for.
pub open spec fn labels_map(e: Seq<(String, u32)>) -> Map<Seq<char>, u32>
    decreases e.len(),
{
    if e.len() == 0 {
        Map::empty()
    } else {
        labels_map(e.drop_last()).insert(e.last().0@, e.last().1)
    }
}

proof fn lemma_labels_map_contains(e: Seq<(String, u32)>, k: Seq<char>)
    ensures
        labels_map(e).contains_key(k) <==> exists|i: int| 0 <= i < e.len() && (#[trigger] e[i]).0@ == k,
    decreases e.len(),
{
    if e.len() > 0 {
        lemma_labels_map_contains(e.drop_last(), k);
        let d = e.drop_last();
        if labels_map(d).contains_key(k) {
            let i = choose|i: int| 0 <= i < d.len() && (#[trigger] d[i]).0@ == k;
            assert(e[i] == d[i]);
        }
        if exists|i: int| 0 <= i < e.len() && (#[trigger] e[i]).0@ == k {
            let i = choose|i: int| 0 <= i < e.len() && (#[trigger] e[i]).0@ == k;
            if i < e.len() - 1 {
                assert(d[i] == e[i]);
            }
        }
    }
}

proof fn lemma_labels_map_get(e: Seq<(String, u32)>, i: int)
    requires
        0 <= i < e.len(),
        forall|a: int, b: int| 0 <= a < b < e.len() ==> (#[trigger] e[a]).0@ != (#[trigger] e[b]).0@,
    ensures
        labels_map(e).contains_key(e[i].0@),
        labels_map(e)[e[i].0@] == e[i].1,
    decreases e.len(),
{
    let d = e.drop_last();
    if i < e.len() - 1 {
        assert(d[i] == e[i]);
        assert forall|a: int, b: int| 0 <= a < b < d.len() implies (#[trigger] d[a]).0@ != (#[trigger] d[b]).0@ by {
            assert(d[a] == e[a]);
            assert(d[b] == e[b]);
        }
        lemma_labels_map_get(d, i);
    }
}

impl View for FootnoteLabels {
    type V = Map<Seq<char>, u32>;

    closed spec fn view(&self) -> Map<Seq<char>, u32> {
        labels_map(self.entries@)
    }
}

impl FootnoteLabels {
    /// No identifier appears twice.
    pub closed spec fn wf(&self) -> bool {
        forall|a: int, b: int|
            0 <= a < b < self.entries@.len() ==> (#[trigger] self.entries@[a]).0@ != (
            #[trigger] self.entries@[b]).0@
    }

    /// No identifier numbered yet.
    pub fn new() -> (r: Self)
        ensures
            r.wf(),
            r@ == Map::<Seq<char>, u32>::empty(),
    {
        FootnoteLabels { entries: Vec::new() }
    }

    fn find(&self, label: &String) -> (r: Option<usize>)
        requires
            self.wf(),
        ensures
            match r {
                Some(i) => i < self.entries@.len() && self.entries@[i as int].0@ == label@,
                None => forall|i: int| 0 <= i < self.entries@.len() ==> (#[trigger] self.entries@[i]).0@ != label@,
            },
    {
        let mut i: usize = 0;
        while i < self.entries.len()
            invariant
                i <= self.entries@.len(),
                forall|k: int| 0 <= k < i ==> (#[trigger] self.entries@[k]).0@ != label@,
            decreases self.entries@.len() - i,
        {
            if self.entries[i].0 == *label {
                return Some(i);
            }
            i += 1;
        }
        None
    }

    /// The number of an identifier, if it has one.
    pub fn get(&self, label: &str) -> (r: Option<u32>)
        requires
            self.wf(),
        ensures
            self@.contains_key(label@) ==> r == Some(self@[label@]),
            !self@.contains_key(label@) ==> r is None,
    {
        let key = label.to_owned();
        let found = self.find(&key);
        proof {
            lemma_labels_map_contains(self.entries@, label@);
        }
        match found {
            Some(i) => {
                proof {
                    lemma_labels_map_get(self.entries@, i as int);
                }
                Some(self.entries[i].1)
            },
            None => None,
        }
    }
}

/// Give `label` the number `next_index` and advance it, unless the label is
/// already numbered: footnotes are numbered in order of first appearance.
pub fn assign_footnote_label(label: &str, labels: &mut FootnoteLabels, next_index: &mut u32)
    requires
        old(labels).wf(),
        !old(labels)@.contains_key(label@) ==> *old(next_index) < u32::MAX,
    ensures
        final(labels).wf(),
        old(labels)@.contains_key(label@) ==> final(labels)@ == old(labels)@ && *final(next_index) == *old(
            next_index,
        ),
        !old(labels)@.contains_key(label@) ==> final(labels)@ == old(labels)@.insert(label@, *old(next_index))
            && *final(next_index) == *old(next_index) + 1,
{
    let key = label.to_owned();
    let found = labels.find(&key);
    proof {
        lemma_labels_map_contains(labels.entries@, label@);
    }
    if found.is_some() {
        return;
    }
    let index = *next_index;
    let ghost old_entries = labels.entries@;
    labels.entries.push((key, index));
    proof {
        assert(labels.entries@.drop_last() =~= old_entries);
        assert forall|a: int, b: int|
            0 <= a < b < labels.entries@.len() implies (#[trigger] labels.entries@[a]).0@ != (
            #[trigger] labels.entries@[b]).0@ by {
            if b < old_entries.len() {
                assert(labels.entries@[a] == old_entries[a]);
                assert(labels.entries@[b] == old_entries[b]);
            } else {
                assert(labels.entries@[a] == old_entries[a]);
            }
        }
    }
    *next_index = *next_index + 1;
}

} // verus!
