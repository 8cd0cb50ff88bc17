use iref::replace;
use iref::buffer::{IriRef, IriRefBuf};
use iref::parsing::HostKind;
use iref::path::remove_dot_segments;
use iref::Error;

fn parse(s: &[u8]) -> IriRefBuf {
    IriRefBuf::new(s).unwrap()
}

#[test]
fn parse_round_trip_keeps_bytes() {
    let cases: &[&[u8]] = &[
        b"https://www.rust-lang.org/foo/bar?query#frag",
        b"http://a/b/c/d;p?q",
        b"g;x=1/../y",
        b"",
        b"//host/path",
        b"mailto:someone",
        b"a/b/c",
        b"?q",
        b"#f",
        b"http://user:pw@example.org:8080/p?q=1#top",
        b"http://exa%6dple.org",
    ];
    for c in cases {
        let iri = parse(c);
        assert_eq!(iri.as_bytes(), *c);
        assert_eq!(iri.len(), c.len());
    }
}

#[test]
fn parse_rejects_bad_input() {
    assert!(IriRefBuf::new(b"http://example.org/pa th").is_err());
    assert!(IriRefBuf::new(b"http://[::1").is_err());
    assert!(IriRefBuf::new(b"a b").is_err());
    assert!(IriRefBuf::new(b"%zz").is_err());
    assert!(IriRefBuf::new(b"foo\x00bar").is_err());
}

#[test]
fn components_of_full_iri() {
    let iri = parse(b"https://user@www.rust-lang.org:40/foo/bar?query#frag");
    assert_eq!(iri.scheme().unwrap(), b"https");
    let auth = iri.authority().unwrap();
    assert_eq!(auth.as_bytes(), b"user@www.rust-lang.org:40");
    assert_eq!(auth.userinfo().unwrap(), b"user");
    assert_eq!(auth.host(), b"www.rust-lang.org");
    assert_eq!(auth.host_kind(), HostKind::RegName);
    assert_eq!(auth.port().unwrap(), b"40");
    assert_eq!(iri.path(), b"/foo/bar");
    assert_eq!(iri.query().unwrap(), b"query");
    assert_eq!(iri.fragment().unwrap(), b"frag");
}

#[test]
fn absent_components_are_none() {
    let iri = parse(b"x:p");
    assert!(iri.authority().is_none());
    assert!(iri.query().is_none());
    assert!(iri.fragment().is_none());
    // Present but empty stays distinct from absent.
    let iri = parse(b"x:p?#");
    assert_eq!(iri.query().unwrap(), b"");
    assert_eq!(iri.fragment().unwrap(), b"");
}

#[test]
fn host_kind_priority() {
    assert_eq!(parse(b"//127.0.0.1/").authority().unwrap().host_kind(), HostKind::IPv4);
    assert_eq!(parse(b"//999.0.0.1/").authority().unwrap().host_kind(), HostKind::RegName);
    assert_eq!(parse(b"//127.0.0/").authority().unwrap().host_kind(), HostKind::RegName);
    assert_eq!(parse(b"//[::1]/").authority().unwrap().host_kind(), HostKind::IPv6);
    assert_eq!(parse(b"//[v7.abc]/").authority().unwrap().host_kind(), HostKind::IPvFuture);
    assert_eq!(parse(b"//[v7.abc]/").authority().unwrap().host(), b"[v7.abc]");
}

#[test]
fn splice_grow_shrink_equal() {
    let mut buf = b"hello world".to_vec();
    replace(&mut buf, 0, 5, b"goodbye");
    assert_eq!(buf, b"goodbye world");
    replace(&mut buf, 8, 13, b"moon");
    assert_eq!(buf, b"goodbye moon");
    replace(&mut buf, 0, 7, b"eve");
    assert_eq!(buf, b"eve moon");
    replace(&mut buf, 3, 3, b",");
    assert_eq!(buf, b"eve, moon");
    replace(&mut buf, 0, 9, b"");
    assert_eq!(buf, b"");
}

fn naive_replace(buf: &[u8], start: usize, end: usize, content: &[u8]) -> Vec<u8> {
    let mut out = Vec::new();
    out.extend_from_slice(&buf[..start]);
    out.extend_from_slice(content);
    out.extend_from_slice(&buf[end..]);
    out
}

#[test]
fn splice_matches_naive_reference() {
    // A small linear congruential generator drives pseudo-random cases.
    let mut state: u64 = 0x2545F4914F6CDD1D;
    let mut next = move || {
        state = state.wrapping_mul(6364136223846793005).wrapping_add(1442695040888963407);
        (state >> 33) as usize
    };
    for _ in 0..500 {
        let len = next() % 40;
        let buf: Vec<u8> = (0..len).map(|_| (next() % 256) as u8).collect();
        let a = if len == 0 { 0 } else { next() % (len + 1) };
        let b = if a == len { a } else { a + next() % (len - a + 1) };
        let clen = next() % 30;
        let content: Vec<u8> = (0..clen).map(|_| (next() % 256) as u8).collect();
        let mut spliced = buf.clone();
        replace(&mut spliced, a, b, &content);
        assert_eq!(spliced, naive_replace(&buf, a, b, &content));
    }
}

#[test]
fn dot_segment_errata_case() {
    assert_eq!(remove_dot_segments(b"a/b/../../../"), b"../");
}

#[test]
fn dot_segment_removal_cases() {
    assert_eq!(remove_dot_segments(b"/a/b/c/./../../g"), b"/a/g");
    assert_eq!(remove_dot_segments(b"mid/content=5/../6"), b"mid/6");
    assert_eq!(remove_dot_segments(b"/a/../.."), b"/");
    assert_eq!(remove_dot_segments(b"a/.."), b"");
    assert_eq!(remove_dot_segments(b".."), b"..");
    assert_eq!(remove_dot_segments(b"."), b"");
    assert_eq!(remove_dot_segments(b"/"), b"/");
    assert_eq!(remove_dot_segments(b""), b"");
}

#[test]
fn dot_segment_removal_idempotent_on_samples() {
    let cases: &[&[u8]] = &[
        b"a/b/../../../",
        b"/a/b/c/./../../g",
        b"..",
        b"a/./b/./c/",
        b"//x/..",
        b"/a/../..",
        b"a/..//b",
    ];
    for c in cases {
        let once = remove_dot_segments(c);
        let twice = remove_dot_segments(&once);
        assert_eq!(twice, once);
    }
}

#[test]
fn resolution_dot_segments() {
    let base = parse(b"http://a/b/c/d;p?q");
    let iri_ref = parse(b"g;x=1/../y");
    let resolved = iri_ref.resolved(&base).unwrap();
    assert_eq!(resolved.as_bytes(), b"http://a/b/c/y");
}

#[test]
fn resolution_rfc_normal_examples() {
    let base = parse(b"http://a/b/c/d;p?q");
    let cases: &[(&[u8], &[u8])] = &[
        (b"g", b"http://a/b/c/g"),
        (b"./g", b"http://a/b/c/g"),
        (b"g/", b"http://a/b/c/g/"),
        (b"/g", b"http://a/g"),
        (b"//g", b"http://g"),
        (b"?y", b"http://a/b/c/d;p?y"),
        (b"g?y", b"http://a/b/c/g?y"),
        (b"#s", b"http://a/b/c/d;p?q#s"),
        (b"g#s", b"http://a/b/c/g#s"),
        (b"", b"http://a/b/c/d;p?q"),
        (b".", b"http://a/b/c"),
        (b"..", b"http://a/b"),
        (b"../g", b"http://a/b/g"),
        (b"../..", b"http://a/"),
        (b"../../g", b"http://a/g"),
        (b"h:x", b"h:x"),
    ];
    for (r, expect) in cases {
        let iri_ref = parse(r);
        let resolved = iri_ref.resolved(&base).unwrap();
        assert_eq!(resolved.as_bytes(), *expect, "resolving {:?}", String::from_utf8_lossy(r));
    }
}

#[test]
fn resolve_in_place() {
    let base = parse(b"http://a/b/c/d;p?q");
    let mut iri_ref = parse(b"g;x=1/../y");
    iri_ref.resolve(&base).unwrap();
    assert_eq!(iri_ref.as_bytes(), b"http://a/b/c/y");
}

#[test]
fn set_query_rejects_unescaped_hash_atomically() {
    let mut iri = parse(b"https://example.org/p?old#f");
    let before = iri.as_bytes().to_vec();
    let r = iri.set_query(Some(b"with#hash"));
    assert_eq!(r, Err(Error::Invalid));
    assert_eq!(iri.as_bytes(), &before[..]);
}

#[test]
fn set_components() {
    let mut iri = parse(b"https://www.rust-lang.org");
    iri.set_path(b"/foo").unwrap();
    assert_eq!(iri.as_bytes(), b"https://www.rust-lang.org/foo");
    iri.push(b"bar").unwrap();
    assert_eq!(iri.as_bytes(), b"https://www.rust-lang.org/foo/bar");
    iri.set_query(Some(b"query")).unwrap();
    assert_eq!(iri.as_bytes(), b"https://www.rust-lang.org/foo/bar?query");
    iri.set_fragment(Some(b"fragment")).unwrap();
    assert_eq!(iri.as_bytes(), b"https://www.rust-lang.org/foo/bar?query#fragment");
    iri.set_query(None).unwrap();
    assert_eq!(iri.as_bytes(), b"https://www.rust-lang.org/foo/bar#fragment");
    iri.set_fragment(None).unwrap();
    assert_eq!(iri.as_bytes(), b"https://www.rust-lang.org/foo/bar");
    iri.set_scheme(Some(b"http")).unwrap();
    assert_eq!(iri.as_bytes(), b"http://www.rust-lang.org/foo/bar");
    iri.set_authority(Some(b"example.org:80")).unwrap();
    assert_eq!(iri.as_bytes(), b"http://example.org:80/foo/bar");
    iri.set_authority(None).unwrap();
    assert_eq!(iri.as_bytes(), b"http:/foo/bar");
}

#[test]
fn set_scheme_rejects_bad_content() {
    let mut iri = parse(b"https://example.org/");
    let before = iri.as_bytes().to_vec();
    assert_eq!(iri.set_scheme(Some(b"1http")), Err(Error::Invalid));
    assert_eq!(iri.set_scheme(Some(b"")), Err(Error::Invalid));
    assert_eq!(iri.set_scheme(Some(b"ht tp")), Err(Error::Invalid));
    assert_eq!(iri.as_bytes(), &before[..]);
}

#[test]
fn set_authority_rejects_bad_content() {
    let mut iri = parse(b"https://example.org/");
    let before = iri.as_bytes().to_vec();
    assert_eq!(iri.set_authority(Some(b"ho st")), Err(Error::Invalid));
    assert_eq!(iri.set_path(b"a b"), Err(Error::Invalid));
    assert_eq!(iri.set_fragment(Some(b"fr#ag")), Err(Error::Invalid));
    assert_eq!(iri.as_bytes(), &before[..]);
}

#[test]
fn segment_editing() {
    let mut iri = parse(b"https://rust-lang.org/a/c");
    iri.pop();
    iri.push(b"b").unwrap();
    iri.push(b"c/").unwrap();
    assert_eq!(iri.path(), b"/a/b/c/");
}

#[test]
fn pop_on_empty_path_is_noop() {
    let mut iri = parse(b"http://example.org");
    iri.pop();
    assert_eq!(iri.as_bytes(), b"http://example.org");
}

#[test]
fn push_rejects_bad_segment() {
    let mut iri = parse(b"http://example.org/a");
    let before = iri.as_bytes().to_vec();
    assert_eq!(iri.push(b"b/c"), Err(Error::Invalid));
    assert_eq!(iri.push(b"b c"), Err(Error::Invalid));
    assert_eq!(iri.as_bytes(), &before[..]);
}

#[test]
fn equivalence_percent_encoding() {
    let a = parse(b"http://example.org");
    let b = parse(b"http://exa%6dple.org");
    assert!(a.equivalent_to(&b));
    assert!(b.equivalent_to(&a));
}

#[test]
fn equivalence_no_default_port() {
    let a = parse(b"http://example.org");
    let b = parse(b"http://example.org:80");
    assert!(!a.equivalent_to(&b));
}

#[test]
fn equivalence_trailing_slash_counts() {
    let a = parse(b"/foo/bar");
    let b = parse(b"/foo/bar/");
    assert!(!a.equivalent_to(&b));
}

#[test]
fn equivalence_normalizes_dot_segments() {
    let a = parse(b"http:a/b/c");
    let b = parse(b"http:a/../a/./b/../b/c");
    assert!(a.equivalent_to(&b));
}

#[test]
fn borrowed_view_shares_bytes() {
    let text = b"https://example.org/p?q#f".to_vec();
    let iri_ref = IriRef::new(&text).unwrap();
    assert_eq!(iri_ref.as_bytes(), &text[..]);
    assert_eq!(iri_ref.len(), text.len());
    let owned = iri_ref.to_owned();
    assert_eq!(owned.as_bytes(), &text[..]);
    let iri = parse(b"x:y");
    let view = iri.as_iri_ref();
    assert_eq!(view.as_bytes(), b"x:y");
}

#[test]
fn sub_authority_mutation() {
    let mut iri = parse(b"https://www.rust-lang.org");
    iri.set_port(Some(b"40")).unwrap();
    assert_eq!(iri.as_bytes(), b"https://www.rust-lang.org:40");
    iri.set_userinfo(Some(b"user")).unwrap();
    assert_eq!(iri.as_bytes(), b"https://user@www.rust-lang.org:40");
    iri.set_host(b"example.org").unwrap();
    assert_eq!(iri.as_bytes(), b"https://user@example.org:40");
    iri.set_port(None).unwrap();
    assert_eq!(iri.as_bytes(), b"https://user@example.org");
    iri.set_userinfo(None).unwrap();
    assert_eq!(iri.as_bytes(), b"https://example.org");
}

#[test]
fn sub_authority_mutation_rejects_bad_content() {
    let mut iri = parse(b"https://example.org:80/p");
    let before = iri.as_bytes().to_vec();
    assert_eq!(iri.set_port(Some(b"80a")), Err(Error::Invalid));
    assert_eq!(iri.set_host(b"ho st"), Err(Error::Invalid));
    assert_eq!(iri.set_userinfo(Some(b"u@u")), Err(Error::Invalid));
    assert_eq!(iri.as_bytes(), &before[..]);
}

#[test]
fn borrowed_view_components() {
    let text = b"https://user@example.org:8080/a/b?q#f".to_vec();
    let iri_ref = IriRef::new(&text).unwrap();
    assert_eq!(iri_ref.scheme().unwrap(), b"https");
    let auth = iri_ref.authority().unwrap();
    assert_eq!(auth.userinfo().unwrap(), b"user");
    assert_eq!(auth.host(), b"example.org");
    assert_eq!(auth.port().unwrap(), b"8080");
    assert_eq!(iri_ref.path(), b"/a/b");
    assert_eq!(iri_ref.query().unwrap(), b"q");
    assert_eq!(iri_ref.fragment().unwrap(), b"f");
    let rel = IriRef::new(b"a/b").unwrap();
    assert!(rel.scheme().is_none());
    assert!(rel.authority().is_none());
    assert!(rel.query().is_none());
    assert!(rel.fragment().is_none());
}
