use supramark_markdown::plugins::extra::gfm_autolink::{email_match, url_match, www_match, EmailScan};

#[test]
fn www_basic() {
    let m = www_match(b"www.commonmark.org", 0).unwrap();
    assert_eq!(m.url, "http://www.commonmark.org");
    assert_eq!(m.display, "www.commonmark.org");
    assert_eq!(m.end, 18);
}

#[test]
fn www_trailing_dot_stripped() {
    // "www.commonmark.org." -> link "www.commonmark.org", "." stays
    let m = www_match(b"www.commonmark.org.", 0).unwrap();
    assert_eq!(m.display, "www.commonmark.org");
    assert_eq!(m.end, 18);
}

#[test]
fn www_paren_balanced() {
    let m = www_match(b"www.google.com/search?q=Markup+(business)", 0).unwrap();
    assert_eq!(m.display, "www.google.com/search?q=Markup+(business)");
}

#[test]
fn www_lt_truncates() {
    let m = www_match(b"www.commonmark.org/he<lp", 0).unwrap();
    assert_eq!(m.display, "www.commonmark.org/he");
    assert_eq!(m.end, 21); // stops before '<'
}

#[test]
fn www_entity_truncates() {
    let m = www_match(b"www.google.com/search?q=commonmark&hl;", 0).unwrap();
    assert_eq!(m.display, "www.google.com/search?q=commonmark");
}

#[test]
fn www_backslash_in_domain_is_skipped_not_break() {
    // GFM linkifies `www.foo\.bar`: the domain scan skips
    // the backslash and classifies the next byte, so the domain extends
    // past it (the href serializer percent-encodes the backslash to %5C at
    // render time; the matcher itself keeps the raw byte). The previous
    // port captured the byte before the backslash-skip and broke the
    // domain on the backslash itself, truncating the link to `www.foo`.
    let m = www_match(b"www.foo\\.bar", 0).unwrap();
    assert_eq!(m.display, "www.foo\\.bar");
    assert_eq!(m.url, "http://www.foo\\.bar");
}

#[test]
fn www_preceding_paren_ok() {
    // "(www.google.com)" -> preceding '(' is allowed
    let m = www_match(b"(www.google.com/search?q=Markup+(business))", 1).unwrap();
    assert_eq!(m.display, "www.google.com/search?q=Markup+(business)");
}

#[test]
fn www_preceding_word_rejected() {
    assert!(www_match(b"foo.www.commonmark.org", 4).is_none());
}

#[test]
fn url_http() {
    let m = url_match(b"http://commonmark.org", 4).unwrap();
    assert_eq!(m.url, "http://commonmark.org");
    assert_eq!(m.start, 0);
}

#[test]
fn url_paren_in_path() {
    let m = url_match(b"https://encrypted.google.com/search?q=Markup+(business)", 5).unwrap();
    assert_eq!(m.url, "https://encrypted.google.com/search?q=Markup+(business)");
}

#[test]
fn email_basic() {
    let EmailScan::Found(m) = email_match(b"foo@bar.baz", 3) else {
        panic!("expected match");
    };
    assert_eq!(m.url, "mailto:foo@bar.baz");
    assert_eq!(m.display, "foo@bar.baz");
}

#[test]
fn email_trailing_dot_stripped() {
    let EmailScan::Found(m) = email_match(b"a.b-c_d@a.b.", 7) else {
        panic!("expected match");
    };
    assert_eq!(m.display, "a.b-c_d@a.b");
}

#[test]
fn email_trailing_dash_rejected() {
    // "a.b-c_d@a.b-" -> last char '-' not alpha/'.' -> no match
    assert!(matches!(
        email_match(b"a.b-c_d@a.b-", 7),
        EmailScan::Skip(_)
    ));
}

#[test]
fn email_mailto_prefix() {
    // "mailto:scyther@pokemon.com" -> '@' at index 14
    let EmailScan::Found(m) = email_match(b"mailto:scyther@pokemon.com", 14) else {
        panic!("expected match");
    };
    assert_eq!(m.url, "mailto:scyther@pokemon.com");
    assert_eq!(m.display, "mailto:scyther@pokemon.com");
}

#[test]
fn email_xmpp_prefix() {
    // "xmpp:scyther@pokemon.com" -> '@' at index 12
    let EmailScan::Found(m) = email_match(b"xmpp:scyther@pokemon.com", 12) else {
        panic!("expected match");
    };
    assert!(m.url.starts_with("xmpp:"));
    assert_eq!(m.display, "xmpp:scyther@pokemon.com");
}

#[test]
fn email_mmmmail_no_protocol() {
    // "mmmmailto:scyther@pokemon.com" -> char before "mailto:" is 'm' (alnum)
    // -> validate_protocol fails -> auto_mailto stays true -> only the bare
    // email is matched, "mmmmailto:" stays as text. '@' at index 17.
    let EmailScan::Found(m) = email_match(b"mmmmailto:scyther@pokemon.com", 17) else {
        panic!("expected match");
    };
    assert_eq!(m.url, "mailto:scyther@pokemon.com");
    assert_eq!(m.display, "scyther@pokemon.com");
}

#[test]
fn email_rebase_to_last_at() {
    // `a@b@c.d`: the first '@' rebases to the second; the local part is
    // just `b` (no rewinding past the char after the first '@'), so the
    // match is `b@c.d`.
    let EmailScan::Found(m) = email_match(b"a@b@c.d", 1) else {
        panic!("expected match");
    };
    assert_eq!(m.start, 2);
    assert_eq!(m.end, 7);
    assert_eq!(m.url, "mailto:b@c.d");
    assert_eq!(m.display, "b@c.d");
}

#[test]
fn email_no_dot_skips_chain() {
    // `a@a@a@a` has no '.', so every '@' chain bottoms out at np==0.
    // email_match must return Skip covering the whole chain (not a
    // per-`@` None), which is what keeps the outer cursor O(n).
    assert!(matches!(
        email_match(b"a@a@a@a", 1),
        EmailScan::Skip(6)
    ));
}

#[test]
fn email_chain_is_linear() {
    // Regression for the quadratic recursion: an `a@`-repeated input
    // must finish quickly. There is no email (no dot), so the whole
    // chain skips. We assert the skip distance equals the full span,
    // i.e. a single scan handled every '@'.
    let n = 4000;
    let mut input = String::with_capacity(2 * n);
    for _ in 0..n {
        input.push_str("a@");
    }
    input.push('a');
    let bytes = input.as_bytes();
    // First '@' at index 1; a single email_match should skip the lot.
    assert!(matches!(
        email_match(bytes, 1),
        EmailScan::Skip(s) if s == 2 * n
    ));
}


#[test]
fn www_match_shows_its_bytes_and_links_http() {
    let data = b"x (www.abc.de/p<q";
    let m = www_match(data, 3).unwrap();
    assert_eq!(m.start, 3);
    assert_eq!(m.display.as_bytes(), &data[m.start..m.end]);
    assert_eq!(m.url, format!("http://{}", m.display));
    assert!(!m.display.contains('<') && !m.display.contains(' '));
    assert!(www_match(b"xwww.abc.de", 1).is_none());
}

#[test]
fn email_match_found_and_skip_bounds() {
    let data = b"mail foo@bar.com now";
    match email_match(data, 8) {
        EmailScan::Found(m) => {
            assert_eq!(m.display.as_bytes(), &data[m.start..m.end]);
            assert!(m.display.contains('@'));
            assert!(m.url == m.display || m.url == format!("mailto:{}", m.display));
        },
        EmailScan::Skip(_) => panic!("expected an address"),
    }
    match email_match(b"a @b", 2) {
        EmailScan::Skip(s) => assert!(1 <= s && s <= 2),
        EmailScan::Found(_) => panic!("no local part"),
    }
}
