//! Images: `![alt](src "title")`, whose source is kept only when it is a
//! relative URL or uses `http`/`https`.
use vstd::prelude::*;
use crate::parser::{MarkdownParser, Placement, RuleId};
use crate::pattern::{compile, is_match, regex_compiles, regex_is_match};
use crate::text::{chars_of, string_of_chars};

verus! {

broadcast use vstd::seq::group_seq_axioms;

/// An image with its (sanitized) source URL and optional title.
#[derive(Clone, Debug)]
pub struct Image {
    pub url: String,
    pub title: Option<String>,
}

impl Image {
    /// The image a link introduced by `!` makes of its destination and title:
    /// the destination sanitized (see `sanitize_image_src`), an empty source
    /// when there is none, and the title as given.
    pub fn new(href: Option<String>, title: Option<String>) -> (r: Image)
        ensures
            r.url@ == match href {
                Some(h) => spec_sanitize_image_src(h@),
                None => Seq::<char>::empty(),
            },
            r.title == title,
    {
        let url = match href {
            Some(h) => sanitize_image_src(h.as_str()),
            None => String::new(),
        };
        Image { url, title }
    }
}

/// Register images, the link syntax introduced by `!`.
pub fn add(md: &mut MarkdownParser)
    ensures
        final(md)@ == old(md)@.push_inline(RuleId::LinkPrefix('!'), Placement::Default),
{
    md.inline.add_rule(RuleId::LinkPrefix('!'), Placement::Default);
}

/// The first index at or after `i` of `c` in `v`.
pub open spec fn first_index_from(v: Seq<char>, c: char, i: int) -> Option<int>
    decreases v.len() - i,
{
    if i < 0 || i >= v.len() {
        None
    } else if v[i] == c {
        Some(i)
    } else {
        first_index_from(v, c, i + 1)
    }
}

/// The first index of `c` in `v`.
pub open spec fn first_index(v: Seq<char>, c: char) -> Option<int> {
    first_index_from(v, c, 0)
}

/// The colon at `colon` comes after a `c` of `v`.
pub open spec fn colon_after(v: Seq<char>, c: char, colon: int) -> bool {
    match first_index(v, c) {
        Some(s) => colon > s,
        None => false,
    }
}

/// The scheme pattern: `http` or `https`, in any case.
pub open spec fn image_scheme_pattern() -> Seq<char> {
    "(?i)^https?$"@
}

/// The source an image keeps: the URL when it has no colon, when its first
/// colon comes after a `/`, `?` or `#` (so it is no scheme), or when the text
/// before the colon matches the scheme pattern; nothing otherwise.
pub open spec fn spec_sanitize_image_src(url: Seq<char>) -> Seq<char> {
    match first_index(url, ':') {
        None => url,
        Some(colon) => if colon_after(url, '/', colon) || colon_after(url, '?', colon) || colon_after(url, '#', colon)
            || (regex_compiles(image_scheme_pattern()) && regex_is_match(
            image_scheme_pattern(),
            url.subrange(0, colon),
        )) {
            url
        } else {
            Seq::empty()
        },
    }
}

fn find_char(v: &[char], c: char) -> (r: Option<usize>)
    ensures
        match r {
            Some(i) => first_index(v@, c) == Some(i as int) && i < v@.len(),
            None => first_index(v@, c) is None,
        },
{
    let mut i: usize = 0;
    while i < v.len()
        invariant
            i <= v@.len(),
            first_index_from(v@, c, 0) == first_index_from(v@, c, i as int),
        decreases v@.len() - i,
    {
        if v[i] == c {
            return Some(i);
        }
        i += 1;
    }
    None
}

/// Keep an image source only when it is relative or its scheme is `http` or
/// `https` (the safe sources of `img[src]`); any other scheme
/// gives an empty source.
pub fn sanitize_image_src(url: &str) -> (r: String)
    ensures
        r@ == spec_sanitize_image_src(url@),
{
    let v = chars_of(url);
    let colon = match find_char(&v, ':') {
        Some(c) => c,
        None => {
            return url.to_owned();
        },
    };
    let after_slash = match find_char(&v, '/') {
        Some(s) => colon > s,
        None => false,
    };
    let after_question = match find_char(&v, '?') {
        Some(q) => colon > q,
        None => false,
    };
    let after_hash = match find_char(&v, '#') {
        Some(h) => colon > h,
        None => false,
    };
    if after_slash || after_question || after_hash {
        return url.to_owned();
    }
    let scheme = string_of_chars(&v, 0, colon);
    let matched = match compile("(?i)^https?$") {
        Some(re) => is_match(&re, scheme.as_str()),
        None => false,
    };
    src_for_scheme(url, matched)
}

/// The source an image with a scheme keeps: the whole URL when its scheme is
/// allowed, nothing otherwise.
pub fn src_for_scheme(url: &str, scheme_allowed: bool) -> (r: String)
    ensures
        r@ == (if scheme_allowed {
            url@
        } else {
            Seq::<char>::empty()
        }),
{
    if scheme_allowed {
        url.to_owned()
    } else {
        String::new()
    }
}

/// An image source is either kept whole or emptied, and sanitizing twice is
/// sanitizing once.
pub proof fn lemma_sanitize_image_src_idempotent(url: Seq<char>)
    ensures
        spec_sanitize_image_src(url) == url || spec_sanitize_image_src(url) == Seq::<char>::empty(),
        spec_sanitize_image_src(spec_sanitize_image_src(url)) == spec_sanitize_image_src(url),
{
    assert(first_index(Seq::<char>::empty(), ':') is None);
}

} // verus!
