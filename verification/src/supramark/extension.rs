//! Openers of extension blocks: `:::name params` opens a container and
//! `%%%name params` an input, each closed by a line that repeats its marker.
use vstd::prelude::*;
use crate::text::{
    ascii_lower_range, ascii_lower_seq, chars_of, is_white_space, is_white_space_char, lemma_skip_ws_bounds,
    lemma_trim_end_ws_bounds, skip_white_space, skip_ws, string_of_chars, trim_end_ws, trim_white_space_end,
};

verus! {

broadcast use vstd::seq::group_seq_axioms;

/// Which of the two extension blocks an opener starts.
#[derive(Clone, Copy, Debug, PartialEq, Eq, Structural)]
pub enum ExtensionSyntax {
    Container,
    Input,
}

/// An extension block opener: its kind, its (lower-cased) name, its
/// parameters, and the marker that closes it.
#[derive(Clone, Debug)]
pub struct ExtensionOpen {
    pub syntax: ExtensionSyntax,
    pub name: String,
    pub params: Option<String>,
    pub close_marker: &'static str,
}

/// An opener as plain values.
pub struct ExtensionOpenSpec {
    pub syntax: ExtensionSyntax,
    pub name: Seq<char>,
    pub params: Option<Seq<char>>,
    pub close_marker: Seq<char>,
}

pub open spec fn opt_string_view(o: Option<String>) -> Option<Seq<char>> {
    match o {
        Some(s) => Some(s@),
        None => None,
    }
}

impl View for ExtensionOpen {
    type V = ExtensionOpenSpec;

    open spec fn view(&self) -> ExtensionOpenSpec {
        ExtensionOpenSpec {
            syntax: self.syntax,
            name: self.name@,
            params: opt_string_view(self.params),
            close_marker: self.close_marker@,
        }
    }
}

pub open spec fn container_marker() -> Seq<char> {
    seq![':', ':', ':']
}

pub open spec fn input_marker() -> Seq<char> {
    seq!['%', '%', '%']
}

pub open spec fn spec_syntax_name(s: ExtensionSyntax) -> Seq<char> {
    match s {
        ExtensionSyntax::Container => seq!['c', 'o', 'n', 't', 'a', 'i', 'n', 'e', 'r'],
        ExtensionSyntax::Input => seq!['i', 'n', 'p', 'u', 't'],
    }
}

impl ExtensionOpen {
    /// The name of the block kind: `container` or `input`.
    pub fn syntax_name(&self) -> (r: &'static str)
        ensures
            r@ == spec_syntax_name(self.syntax),
    {
        match self.syntax {
            ExtensionSyntax::Container => {
                proof {
                    reveal_strlit("container");
                }
                "container"
            },
            ExtensionSyntax::Input => {
                proof {
                    reveal_strlit("input");
                }
                "input"
            },
        }
    }
}

/// A character of an extension name after the first: `a-z`, `0-9` or `-`.
pub open spec fn is_name_char(c: char) -> bool {
    ('a' <= c && c <= 'z') || ('0' <= c && c <= '9') || c == '-'
}

/// An extension name: a lower-case ASCII letter, then lower-case letters,
/// digits and hyphens.
pub open spec fn spec_is_valid_extension_name(name: Seq<char>) -> bool {
    &&& name.len() > 0
    &&& 'a' <= name[0] && name[0] <= 'z'
    &&& forall|i: int| 1 <= i < name.len() ==> is_name_char(#[trigger] name[i])
}

/// Whether `name` is a valid extension name.
pub fn is_valid_extension_name(name: &str) -> (r: bool)
    ensures
        r == spec_is_valid_extension_name(name@),
{
    let v = chars_of(name);
    if v.len() == 0 {
        return false;
    }
    if !('a' <= v[0] && v[0] <= 'z') {
        return false;
    }
    let mut i: usize = 1;
    while i < v.len()
        invariant
            v@ == name@,
            1 <= i <= v@.len(),
            forall|k: int| 1 <= k < i ==> is_name_char(#[trigger] v@[k]),
        decreases v@.len() - i,
    {
        let c = v[i];
        if !(('a' <= c && c <= 'z') || ('0' <= c && c <= '9') || c == '-') {
            assert(!is_name_char(v@[i as int]));
            return false;
        }
        i += 1;
    }
    true
}

/// The first white-space index in `v[i..b]`, or `b`.
pub open spec fn first_ws_in(v: Seq<char>, i: int, b: int) -> int
    decreases b - i,
{
    if i >= b {
        b
    } else if is_white_space(v[i]) {
        i
    } else {
        first_ws_in(v, i + 1, b)
    }
}

/// The first white space in `v[i..b]` lies in that range, after non-white-space
/// characters only.
pub proof fn lemma_first_ws_in_bounds(v: Seq<char>, i: int, b: int)
    requires
        0 <= i <= b <= v.len(),
    ensures
        i <= first_ws_in(v, i, b) <= b,
        forall|k: int| i <= k < first_ws_in(v, i, b) ==> !is_white_space(#[trigger] v[k]),
    decreases b - i,
{
    if i < b && !is_white_space(v[i]) {
        lemma_first_ws_in_bounds(v, i + 1, b);
    }
}

/// What `parse_named_extension` makes of the text `r` after a marker: trimmed,
/// a name up to the first white space (lower-cased, and valid), then the
/// trimmed rest as parameters when it is not empty.
pub open spec fn spec_parse_named(r: Seq<char>, syntax: ExtensionSyntax, close_marker: Seq<char>) -> Option<
    ExtensionOpenSpec,
> {
    let a = skip_ws(r, 0);
    let b = trim_end_ws(r, r.len() as int);
    if a >= b {
        None
    } else {
        let w = first_ws_in(r, a, b);
        let name = ascii_lower_seq(r.subrange(a, w));
        if !spec_is_valid_extension_name(name) {
            None
        } else {
            let params = if w < b && skip_ws(r, w + 1) < b {
                Some(r.subrange(skip_ws(r, w + 1), b))
            } else {
                None
            };
            Some(ExtensionOpenSpec { syntax, name, params, close_marker })
        }
    }
}

/// Parse the name and parameters that follow an extension marker.
pub fn parse_named_extension(rest: &str, syntax: ExtensionSyntax, close_marker: &'static str) -> (r: Option<
    ExtensionOpen,
>)
    ensures
        match spec_parse_named(rest@, syntax, close_marker@) {
            Some(o) => r matches Some(e) && e@ == o,
            None => r is None,
        },
{
    let v = chars_of(rest);
    let n = v.len();
    let a = skip_white_space(&v, 0);
    let b = trim_white_space_end(&v, n);
    proof {
        lemma_skip_ws_bounds(v@, 0);
        lemma_trim_end_ws_bounds(v@, n as int);
    }
    if a >= b {
        return None;
    }
    let mut w = a;
    while w < b && !is_white_space_char(v[w])
        invariant
            v@ == rest@,
            a <= w <= b <= v@.len(),
            first_ws_in(v@, a as int, b as int) == first_ws_in(v@, w as int, b as int),
        decreases b - w,
    {
        w += 1;
    }
    let name = ascii_lower_range(&v, a, w);
    if !is_valid_extension_name(name.as_str()) {
        return None;
    }
    let mut params: Option<String> = None;
    if w < b {
        let s = skip_white_space(&v, w + 1);
        if s < b {
            params = Some(string_of_chars(&v, s, b));
        }
    }
    Some(ExtensionOpen { syntax, name, params, close_marker })
}

/// What `parse_extension_open` makes of a line: after leading white space,
/// `:::` opens a container and `%%%` an input.
pub open spec fn spec_parse_extension_open(l: Seq<char>) -> Option<ExtensionOpenSpec> {
    let t = skip_ws(l, 0);
    if t + 3 <= l.len() && l.subrange(t, t + 3) == container_marker() {
        spec_parse_named(l.subrange(t + 3, l.len() as int), ExtensionSyntax::Container, container_marker())
    } else if t + 3 <= l.len() && l.subrange(t, t + 3) == input_marker() {
        spec_parse_named(l.subrange(t + 3, l.len() as int), ExtensionSyntax::Input, input_marker())
    } else {
        None
    }
}

/// Recognise an extension block opener on a line.
pub fn parse_extension_open(line: &str) -> (r: Option<ExtensionOpen>)
    ensures
        match spec_parse_extension_open(line@) {
            Some(o) => r matches Some(e) && e@ == o,
            None => r is None,
        },
{
    let v = chars_of(line);
    let n = v.len();
    let t = skip_white_space(&v, 0);
    proof {
        lemma_skip_ws_bounds(v@, 0);
    }
    if t < n && n - t >= 3 && v[t] == ':' && v[t + 1] == ':' && v[t + 2] == ':' {
        assert(v@.subrange(t as int, t + 3) =~= container_marker());
        let rest = string_of_chars(&v, t + 3, n);
        proof {
            reveal_strlit(":::");
            assert(":::"@ =~= container_marker());
        }
        return parse_named_extension(rest.as_str(), ExtensionSyntax::Container, ":::");
    }
    proof {
        if t + 3 <= n && v@.subrange(t as int, t + 3) == container_marker() {
            assert(v@[t as int] == v@.subrange(t as int, t + 3)[0]);
            assert(v@[t + 1] == v@.subrange(t as int, t + 3)[1]);
            assert(v@[t + 2] == v@.subrange(t as int, t + 3)[2]);
        }
    }
    if t < n && n - t >= 3 && v[t] == '%' && v[t + 1] == '%' && v[t + 2] == '%' {
        assert(v@.subrange(t as int, t + 3) =~= input_marker());
        let rest = string_of_chars(&v, t + 3, n);
        proof {
            reveal_strlit("%%%");
            assert("%%%"@ =~= input_marker());
        }
        return parse_named_extension(rest.as_str(), ExtensionSyntax::Input, "%%%");
    }
    proof {
        if t + 3 <= n && v@.subrange(t as int, t + 3) == input_marker() {
            assert(v@[t as int] == v@.subrange(t as int, t + 3)[0]);
            assert(v@[t + 1] == v@.subrange(t as int, t + 3)[1]);
            assert(v@[t + 2] == v@.subrange(t as int, t + 3)[2]);
        }
    }
    None
}

} // verus!
