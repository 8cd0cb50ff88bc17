//! Span parser: drives the grammar validator over the whole
//! `[scheme ":"] hier-part ["?" query] ["#" fragment]` grammar and produces
//! a component descriptor of lengths.  Offsets are running sums of the
//! lengths of the preceding components and their separators.

use vstd::prelude::*;
use crate::grammar::{CharClass, scan, full_match, is_alpha, is_digit, lemma_scan_bound, lemma_scan_shift, lemma_scan_prefix, scan_class, byte_in_class};
use vstd::slice::slice_subrange;
use crate::Error;

verus! {

/// How the host component of an authority is shaped.
#[derive(Clone, Copy, Debug, PartialEq, Eq, Structural)]
pub enum HostKind {
    RegName,
    IPv4,
    IPv6,
    IPvFuture,
}

/// Descriptor of an authority: lengths of its sub-components.
/// `userinfo_len` and `port_len` of `None` mean the sub-component and its
/// separator (`@`, `:`) are absent; `Some(0)` means present but empty.
#[derive(Clone, Copy, Debug)]
pub struct ParsedAuthority {
    pub userinfo_len: Option<usize>,
    pub host_len: usize,
    pub host_kind: HostKind,
    pub port_len: Option<usize>,
}

/// Descriptor of an IRI reference: lengths of its components.
/// `None` means the component and its separator are absent, which is
/// distinct from present but empty (`Some(0)`).  The path is always
/// present, possibly empty.
#[derive(Clone, Copy, Debug)]
pub struct ParsedIriRef {
    pub scheme_len: Option<usize>,
    pub authority: Option<ParsedAuthority>,
    pub path_len: usize,
    pub query_len: Option<usize>,
    pub fragment_len: Option<usize>,
}

// Running-sum offsets.

/// Length of the scheme part including its `:` separator, 0 when absent.
pub open spec fn scheme_part_len(p: ParsedIriRef) -> int {
    match p.scheme_len {
        Some(n) => n + 1,
        None => 0,
    }
}

/// Length of the authority span itself (between `//` and the path).
pub open spec fn authority_span_len(a: ParsedAuthority) -> int {
    (match a.userinfo_len {
        Some(n) => n + 1,
        None => 0,
    }) + a.host_len + (match a.port_len {
        Some(n) => n + 1,
        None => 0,
    })
}

/// Length of the authority part including its `//` separator, 0 when absent.
pub open spec fn authority_part_len(p: ParsedIriRef) -> int {
    match p.authority {
        Some(a) => 2 + authority_span_len(a),
        None => 0,
    }
}

pub open spec fn authority_offset(p: ParsedIriRef) -> int {
    scheme_part_len(p) + 2
}

pub open spec fn path_offset(p: ParsedIriRef) -> int {
    scheme_part_len(p) + authority_part_len(p)
}

/// Offset of the query bytes (after the `?`), meaningful when present.
pub open spec fn query_offset(p: ParsedIriRef) -> int {
    path_offset(p) + p.path_len + 1
}

pub open spec fn query_part_len(p: ParsedIriRef) -> int {
    match p.query_len {
        Some(n) => n + 1,
        None => 0,
    }
}

/// Offset of the fragment bytes (after the `#`), meaningful when present.
pub open spec fn fragment_offset(p: ParsedIriRef) -> int {
    path_offset(p) + p.path_len + query_part_len(p) + 1
}

pub open spec fn fragment_part_len(p: ParsedIriRef) -> int {
    match p.fragment_len {
        Some(n) => n + 1,
        None => 0,
    }
}

/// Total byte length of the text the descriptor describes.
pub open spec fn total_len(p: ParsedIriRef) -> int {
    path_offset(p) + p.path_len + query_part_len(p) + fragment_part_len(p)
}

// IPv4 recognition.

pub open spec fn octet_val(s: Seq<u8>) -> int {
    if s.len() == 1 {
        s[0] - 48
    } else if s.len() == 2 {
        (s[0] - 48) * 10 + (s[1] - 48)
    } else if s.len() == 3 {
        (s[0] - 48) * 100 + (s[1] - 48) * 10 + (s[2] - 48)
    } else {
        256
    }
}

/// `dec-octet`: one to three digits, no leading zero, value at most 255.
pub open spec fn is_dec_octet(s: Seq<u8>) -> bool {
    &&& 1 <= s.len() <= 3
    &&& (forall|i: int| 0 <= i < s.len() ==> is_digit(#[trigger] s[i]))
    &&& (s.len() > 1 ==> s[0] != 48)
    &&& octet_val(s) <= 255
}

/// First position at or after `i` holding byte `b`, or the length.
pub open spec fn find_byte(s: Seq<u8>, b: u8, i: int) -> int
    decreases s.len() - i,
{
    if i < 0 || i >= s.len() {
        s.len() as int
    } else if s[i] == b {
        i
    } else {
        find_byte(s, b, i + 1)
    }
}

pub proof fn lemma_find_byte(s: Seq<u8>, b: u8, i: int)
    requires
        0 <= i <= s.len(),
    ensures
        i <= find_byte(s, b, i) <= s.len(),
        find_byte(s, b, i) < s.len() ==> s[find_byte(s, b, i)] == b,
        forall|j: int| i <= j < find_byte(s, b, i) ==> s[j] != b,
    decreases s.len() - i,
{
    if i < s.len() && s[i] != b {
        lemma_find_byte(s, b, i + 1);
    }
}

/// `IPv4address`: `parts` dot-separated decimal octets covering all of `s`.
pub open spec fn ipv4_parts(s: Seq<u8>, parts: int) -> bool
    decreases parts,
{
    if parts <= 1 {
        is_dec_octet(s)
    } else {
        let d = find_byte(s, 46, 0);
        &&& d < s.len()
        &&& is_dec_octet(s.subrange(0, d))
        &&& ipv4_parts(s.subrange(d + 1, s.len() as int), parts - 1)
    }
}

pub open spec fn is_ipv4(s: Seq<u8>) -> bool {
    ipv4_parts(s, 4)
}

// Host recognition.

/// Scan a host from `i`: an IP-literal first, otherwise an IPv4 address or
/// a registered name, in that priority order.  `None` means a malformed
/// IP-literal; a registered name may be empty.
pub open spec fn host_scan(s: Seq<u8>, i: int) -> Option<(int, HostKind)> {
    if 0 <= i < s.len() && s[i] == 91 {
        if i + 1 < s.len() && (s[i + 1] == 118 || s[i + 1] == 86) {
            let hn = scan(s, i + 2, CharClass::HexDigit);
            let dot = i + 2 + hn;
            if hn >= 1 && dot < s.len() && s[dot] == 46 {
                let tn = scan(s, dot + 1, CharClass::IpvFutureTail);
                let close = dot + 1 + tn;
                if tn >= 1 && close < s.len() && s[close] == 93 {
                    Some(((close + 1 - i), HostKind::IPvFuture))
                } else {
                    None
                }
            } else {
                None
            }
        } else {
            let n = scan(s, i + 1, CharClass::Ipv6);
            let close = i + 1 + n;
            if n >= 1 && close < s.len() && s[close] == 93 {
                Some(((close + 1 - i), HostKind::IPv6))
            } else {
                None
            }
        }
    } else {
        let n = scan(s, i, CharClass::RegName);
        if is_ipv4(s.subrange(i, i + n)) {
            Some((n, HostKind::IPv4))
        } else {
            Some((n, HostKind::RegName))
        }
    }
}

/// A standalone host span of the given kind.
pub open spec fn is_host(s: Seq<u8>, kind: HostKind) -> bool {
    host_scan(s, 0) == Some((s.len() as int, kind))
}

/// Parse a standalone authority span: `[userinfo "@"] host [":" port]`,
/// consuming the whole span.
pub open spec fn spec_parse_authority(s: Seq<u8>) -> Option<ParsedAuthority> {
    let u = scan(s, 0, CharClass::Userinfo);
    let (userinfo_len, host_start) = if u < s.len() && s[u] == 64 {
        (Some(u as usize), u + 1)
    } else {
        (None::<usize>, 0)
    };
    match host_scan(s, host_start) {
        None => None,
        Some((h, kind)) => {
            let after = host_start + h;
            let (port_len, end) = if after < s.len() && s[after] == 58 {
                let pn = scan(s, after + 1, CharClass::Port);
                (Some(pn as usize), after + 1 + pn)
            } else {
                (None::<usize>, after)
            };
            if end == s.len() {
                Some(
                    ParsedAuthority {
                        userinfo_len,
                        host_len: h as usize,
                        host_kind: kind,
                        port_len,
                    },
                )
            } else {
                None
            }
        },
    }
}

/// First position at or after `i` that ends an authority: `/`, `?`, `#`
/// or the end of the text.
pub open spec fn find_authority_end(s: Seq<u8>, i: int) -> int
    decreases s.len() - i,
{
    if i < 0 || i >= s.len() {
        s.len() as int
    } else if s[i] == 47 || s[i] == 63 || s[i] == 35 {
        i
    } else {
        find_authority_end(s, i + 1)
    }
}

pub proof fn lemma_find_authority_end(s: Seq<u8>, i: int)
    requires
        0 <= i <= s.len(),
    ensures
        i <= find_authority_end(s, i) <= s.len(),
    decreases s.len() - i,
{
    if i < s.len() && !(s[i] == 47 || s[i] == 63 || s[i] == 35) {
        lemma_find_authority_end(s, i + 1);
    }
}

/// Parse a full IRI reference.  The scheme is recognized only when its run
/// is non-empty, starts with a letter and is followed by `:`; the authority
/// only when the hier-part starts with `//`.  Any unconsumed trailing byte
/// rejects the whole input.
pub open spec fn spec_parse(s: Seq<u8>) -> Option<ParsedIriRef> {
    let sl = scan(s, 0, CharClass::Scheme);
    let (scheme_len, hier0) = if sl > 0 && 0 < s.len() && is_alpha(s[0]) && sl < s.len() && s[sl]
        == 58 {
        (Some(sl as usize), sl + 1)
    } else {
        (None::<usize>, 0)
    };
    let (authority, path0) = if hier0 + 1 < s.len() && s[hier0] == 47 && s[hier0 + 1] == 47 {
        let ae = find_authority_end(s, hier0 + 2);
        (spec_parse_authority(s.subrange(hier0 + 2, ae)), ae)
    } else {
        (None::<ParsedAuthority>, hier0)
    };
    let has_authority = hier0 + 1 < s.len() && s[hier0] == 47 && s[hier0 + 1] == 47;
    if has_authority && authority is None {
        None
    } else {
        let pl = scan(s, path0, CharClass::Path);
        let qpos = path0 + pl;
        let (query_len, fpos) = if qpos < s.len() && s[qpos] == 63 {
            let ql = scan(s, qpos + 1, CharClass::Query);
            (Some(ql as usize), qpos + 1 + ql)
        } else {
            (None::<usize>, qpos)
        };
        let (fragment_len, end) = if fpos < s.len() && s[fpos] == 35 {
            let fl = scan(s, fpos + 1, CharClass::Fragment);
            (Some(fl as usize), fpos + 1 + fl)
        } else {
            (None::<usize>, fpos)
        };
        if end == s.len() {
            Some(
                ParsedIriRef {
                    scheme_len,
                    authority,
                    path_len: pl as usize,
                    query_len,
                    fragment_len,
                },
            )
        } else {
            None
        }
    }
}

/// The descriptor/buffer invariant: every stored span contains exactly the
/// bytes that satisfy its component's grammar, each present optional
/// component is preceded by its separator byte, and the lengths (with the
/// separators) sum to the buffer's length.
pub open spec fn wf(p: ParsedIriRef, s: Seq<u8>) -> bool {
    &&& total_len(p) == s.len()
    &&& (match p.scheme_len {
        Some(n) => n >= 1 && is_alpha(s[0]) && full_match(s.subrange(0, n as int), CharClass::Scheme)
            && s[n as int] == 58,
        None => true,
    })
    &&& (match p.authority {
        Some(a) => {
            let off = scheme_part_len(p);
            &&& s[off] == 47
            &&& s[off + 1] == 47
            &&& spec_parse_authority(s.subrange(off + 2, off + 2 + authority_span_len(a))) == Some(a)
        },
        None => true,
    })
    &&& full_match(
        s.subrange(path_offset(p), path_offset(p) + p.path_len),
        CharClass::Path,
    )
    &&& (match p.query_len {
        Some(n) => {
            let off = path_offset(p) + p.path_len;
            &&& s[off] == 63
            &&& full_match(s.subrange(off + 1, off + 1 + n), CharClass::Query)
        },
        None => true,
    })
    &&& (match p.fragment_len {
        Some(n) => {
            let off = fragment_offset(p);
            &&& s[off - 1] == 35
            &&& full_match(s.subrange(off, off + n), CharClass::Fragment)
        },
        None => true,
    })
}

/// A run found inside a longer text is a full match on its own.
pub proof fn lemma_scan_localizes(s: Seq<u8>, i: int, k: CharClass)
    requires
        0 <= i <= s.len(),
    ensures
        full_match(s.subrange(i, i + scan(s, i, k)), k),
{
    let n = scan(s, i, k);
    lemma_scan_bound(s, i, k);
    let a = s.subrange(0, i);
    let b = s.subrange(i, s.len() as int);
    assert(s =~= a + b);
    lemma_scan_shift(a, b, 0, k);
    assert(scan(b, 0, k) == n);
    let span = b.subrange(0, n);
    let rest = b.subrange(n, b.len() as int);
    assert(b =~= span + rest);
    lemma_scan_prefix(span, rest, 0, k);
    assert(span =~= s.subrange(i, i + n));
}


pub proof fn lemma_host_scan_bound(s: Seq<u8>, i: int)
    requires
        0 <= i <= s.len(),
    ensures
        host_scan(s, i) matches Some((n, k)) ==> 0 <= n <= s.len() - i,
{
    if 0 <= i < s.len() && s[i] == 91 {
        if i + 1 < s.len() && (s[i + 1] == 118 || s[i + 1] == 86) {
            lemma_scan_bound(s, i + 2, CharClass::HexDigit);
            let hn = scan(s, i + 2, CharClass::HexDigit);
            if i + 2 + hn < s.len() {
                lemma_scan_bound(s, i + 2 + hn + 1, CharClass::IpvFutureTail);
            }
        } else {
            lemma_scan_bound(s, i + 1, CharClass::Ipv6);
        }
    } else {
        lemma_scan_bound(s, i, CharClass::RegName);
    }
}

/// When an authority span parses, the descriptor's lengths sum to the
/// span's length.
pub proof fn lemma_authority_span_len(s: Seq<u8>)
    requires
        s.len() <= usize::MAX,
        spec_parse_authority(s) is Some,
    ensures
        authority_span_len(spec_parse_authority(s)->Some_0) == s.len(),
{
    lemma_scan_bound(s, 0, CharClass::Userinfo);
    let u = scan(s, 0, CharClass::Userinfo);
    let host_start: int = if u < s.len() && s[u] == 64 {
        u + 1
    } else {
        0
    };
    lemma_host_scan_bound(s, host_start);
    let hs = host_scan(s, host_start);
    assert(hs is Some);
    let h = hs->Some_0.0;
    let after = host_start + h;
    let a = spec_parse_authority(s)->Some_0;
    if after < s.len() && s[after] == 58 {
        let pn = scan(s, after + 1, CharClass::Port);
        lemma_scan_bound(s, after + 1, CharClass::Port);
        assert(after + 1 + pn == s.len());
        assert(authority_span_len(a) == (if u < s.len() && s[u] == 64 { u + 1 } else { 0 }) + h + pn + 1);
    } else {
        assert(after == s.len());
    }
}

pub fn find_byte_exec(s: &[u8], b: u8, start: usize) -> (r: usize)
    requires
        start <= s@.len(),
    ensures
        r == find_byte(s@, b, start as int),
        start <= r <= s@.len(),
{
    proof {
        lemma_find_byte(s@, b, start as int);
    }
    let mut i = start;
    loop
        invariant
            start <= i <= s@.len(),
            find_byte(s@, b, start as int) == find_byte(s@, b, i as int),
        ensures
            start <= i <= s@.len(),
            find_byte(s@, b, start as int) == i,
        decreases s@.len() - i,
    {
        if i >= s.len() {
            break ;
        }
        if s[i] == b {
            break ;
        }
        i += 1;
    }
    i
}

fn find_authority_end_exec(s: &[u8], start: usize) -> (r: usize)
    requires
        start <= s@.len(),
    ensures
        r == find_authority_end(s@, start as int),
        start <= r <= s@.len(),
{
    let mut i = start;
    loop
        invariant
            start <= i <= s@.len(),
            find_authority_end(s@, start as int) == find_authority_end(s@, i as int),
        ensures
            start <= i <= s@.len(),
            find_authority_end(s@, start as int) == i,
        decreases s@.len() - i,
    {
        if i >= s.len() {
            break ;
        }
        let c = s[i];
        if c == 47 || c == 63 || c == 35 {
            break ;
        }
        i += 1;
    }
    i
}

fn is_dec_octet_exec(s: &[u8]) -> (r: bool)
    ensures
        r == is_dec_octet(s@),
{
    let n = s.len();
    if n < 1 || n > 3 {
        return false;
    }
    let mut i: usize = 0;
    loop
        invariant
            0 <= i <= n,
            n == s@.len(),
            forall|j: int| 0 <= j < i ==> is_digit(#[trigger] s@[j]),
        ensures
            (i == n) == (forall|j: int| 0 <= j < s@.len() ==> is_digit(#[trigger] s@[j])),
            i <= n,
        decreases n - i,
    {
        if i >= n {
            break ;
        }
        let c = s[i];
        if !(48 <= c && c <= 57) {
            assert(!is_digit(s@[i as int]));
            break ;
        }
        i += 1;
    }
    if i < n {
        return false;
    }
    if n > 1 && s[0] == 48 {
        return false;
    }
    let v: u32 = if n == 1 {
        (s[0] - 48) as u32
    } else if n == 2 {
        (s[0] - 48) as u32 * 10 + (s[1] - 48) as u32
    } else {
        (s[0] - 48) as u32 * 100 + (s[1] - 48) as u32 * 10 + (s[2] - 48) as u32
    };
    assert(v == octet_val(s@));
    v <= 255
}

fn ipv4_parts_exec(s: &[u8], parts: usize) -> (r: bool)
    requires
        1 <= parts,
    ensures
        r == ipv4_parts(s@, parts as int),
    decreases parts,
{
    if parts == 1 {
        is_dec_octet_exec(s)
    } else {
        let d = find_byte_exec(s, 46, 0);
        proof {
            lemma_find_byte(s@, 46, 0);
        }
        if d >= s.len() {
            false
        } else {
            let head = slice_subrange(s, 0, d);
            if !is_dec_octet_exec(head) {
                false
            } else {
                let tail = slice_subrange(s, d + 1, s.len());
                ipv4_parts_exec(tail, parts - 1)
            }
        }
    }
}

pub fn is_ipv4_exec(s: &[u8]) -> (r: bool)
    ensures
        r == is_ipv4(s@),
{
    ipv4_parts_exec(s, 4)
}

/// Scan a host from `start`, with the IP-literal / IPv4 / reg-name
/// priority of RFC 3986.
pub fn scan_host(s: &[u8], start: usize) -> (r: Option<(usize, HostKind)>)
    requires
        start <= s@.len(),
    ensures
        r is Some <==> host_scan(s@, start as int) is Some,
        r matches Some(v) ==> host_scan(s@, start as int) == Some((v.0 as int, v.1)) && start + v.0
            <= s@.len(),
{
    proof {
        lemma_host_scan_bound(s@, start as int);
    }
    if start < s.len() && s[start] == 91 {
        if start + 1 < s.len() && (s[start + 1] == 118 || s[start + 1] == 86) {
            let hn = scan_class(s, start + 2, CharClass::HexDigit);
            let dot = start + 2 + hn;
            if hn >= 1 && dot < s.len() && s[dot] == 46 {
                let tn = scan_class(s, dot + 1, CharClass::IpvFutureTail);
                let close = dot + 1 + tn;
                if tn >= 1 && close < s.len() && s[close] == 93 {
                    Some((close + 1 - start, HostKind::IPvFuture))
                } else {
                    None
                }
            } else {
                None
            }
        } else {
            let n = scan_class(s, start + 1, CharClass::Ipv6);
            let close = start + 1 + n;
            if n >= 1 && close < s.len() && s[close] == 93 {
                Some((close + 1 - start, HostKind::IPv6))
            } else {
                None
            }
        }
    } else {
        let n = scan_class(s, start, CharClass::RegName);
        let span = slice_subrange(s, start, start + n);
        if is_ipv4_exec(span) {
            Some((n, HostKind::IPv4))
        } else {
            Some((n, HostKind::RegName))
        }
    }
}

/// Parse a standalone authority span, which must be consumed whole.
pub fn parse_authority(s: &[u8]) -> (r: Result<ParsedAuthority, Error>)
    ensures
        r is Ok <==> spec_parse_authority(s@) is Some,
        r matches Ok(a) ==> spec_parse_authority(s@) == Some(a),
{
    let u = scan_class(s, 0, CharClass::Userinfo);
    let (userinfo_len, host_start) = if u < s.len() && s[u] == 64 {
        (Some(u), u + 1)
    } else {
        (None, 0)
    };
    match scan_host(s, host_start) {
        None => Err(Error::Invalid),
        Some((h, kind)) => {
            let after = host_start + h;
            let (port_len, end) = if after < s.len() && s[after] == 58 {
                let pn = scan_class(s, after + 1, CharClass::Port);
                (Some(pn), after + 1 + pn)
            } else {
                (None, after)
            };
            if end == s.len() {
                Ok(ParsedAuthority { userinfo_len, host_len: h, host_kind: kind, port_len })
            } else {
                Err(Error::Invalid)
            }
        },
    }
}

/// Parse a full IRI reference into its descriptor.
#[verifier::rlimit(100)]
pub fn parse_iri_ref(s: &[u8]) -> (r: Result<ParsedIriRef, Error>)
    ensures
        r is Ok <==> spec_parse(s@) is Some,
        r matches Ok(p) ==> spec_parse(s@) == Some(p) && wf(p, s@),
{
    let sl = scan_class(s, 0, CharClass::Scheme);
    let (scheme_len, hier0) = if sl > 0 && byte_in_class(s[0], CharClass::Scheme) && is_alpha_exec(
        s[0],
    ) && sl < s.len() && s[sl] == 58 {
        (Some(sl), sl + 1)
    } else {
        (None, 0)
    };
    proof {
        if sl > 0 {
            assert(scan(s@, 0, CharClass::Scheme) >= 1);
            assert(0 < s@.len());
        }
    }
    let has_authority = hier0 < s.len() && s.len() - hier0 > 1 && s[hier0] == 47 && s[hier0 + 1]
        == 47;
    proof {
        assert(has_authority == (hier0 + 1 < s@.len() && s@[hier0 as int] == 47 && s@[hier0 + 1]
            == 47));
    }
    let (authority, path0) = if has_authority {
        let ae = find_authority_end_exec(s, hier0 + 2);
        let span = slice_subrange(s, hier0 + 2, ae);
        match parse_authority(span) {
            Ok(a) => (Some(a), ae),
            Err(e) => {
                return Err(e);
            },
        }
    } else {
        (None, hier0)
    };
    let pl = scan_class(s, path0, CharClass::Path);
    let qpos = path0 + pl;
    let (query_len, fpos) = if qpos < s.len() && s[qpos] == 63 {
        let ql = scan_class(s, qpos + 1, CharClass::Query);
        (Some(ql), qpos + 1 + ql)
    } else {
        (None, qpos)
    };
    let (fragment_len, end) = if fpos < s.len() && s[fpos] == 35 {
        let fl = scan_class(s, fpos + 1, CharClass::Fragment);
        (Some(fl), fpos + 1 + fl)
    } else {
        (None, fpos)
    };
    if end == s.len() {
        let p = ParsedIriRef { scheme_len, authority, path_len: pl, query_len, fragment_len };
        proof {
            lemma_parse_wf_parts(s@, p, path0 as int);
        }
        Ok(p)
    } else {
        Err(Error::Invalid)
    }
}

pub fn is_alpha_exec(b: u8) -> (r: bool)
    ensures
        r == is_alpha(b),
{
    (65 <= b && b <= 90) || (97 <= b && b <= 122)
}

/// The descriptor a successful parse builds satisfies the
/// descriptor/buffer invariant.
proof fn lemma_parse_wf_parts(s: Seq<u8>, p: ParsedIriRef, path0: int)
    requires
        s.len() <= usize::MAX,
        ({
            let sl = scan(s, 0, CharClass::Scheme);
            let has_scheme = sl > 0 && 0 < s.len() && is_alpha(s[0]) && sl < s.len() && s[sl] == 58;
            let hier0: int = if has_scheme {
                sl + 1
            } else {
                0
            };
            let has_authority = hier0 + 1 < s.len() && s[hier0] == 47 && s[hier0 + 1] == 47;
            &&& (p.scheme_len == if has_scheme {
                Some(sl as usize)
            } else {
                None::<usize>
            })
            &&& (if has_authority {
                let ae = find_authority_end(s, hier0 + 2);
                &&& path0 == ae
                &&& p.authority is Some
                &&& spec_parse_authority(s.subrange(hier0 + 2, ae)) == p.authority
            } else {
                &&& path0 == hier0
                &&& p.authority is None
            })
            &&& p.path_len == scan(s, path0, CharClass::Path)
            &&& ({
                let qpos = path0 + p.path_len;
                &&& (if qpos < s.len() && s[qpos] == 63 {
                    p.query_len == Some(scan(s, qpos + 1, CharClass::Query) as usize)
                } else {
                    p.query_len is None
                })
                &&& ({
                    let fpos = qpos + query_part_len(p);
                    &&& (if fpos < s.len() && s[fpos] == 35 {
                        p.fragment_len == Some(scan(s, fpos + 1, CharClass::Fragment) as usize)
                    } else {
                        p.fragment_len is None
                    })
                    &&& fpos + fragment_part_len(p) == s.len()
                })
            })
        }),
    ensures
        wf(p, s),
        spec_parse(s) == Some(p),
{
    let sl = scan(s, 0, CharClass::Scheme);
    let has_scheme = sl > 0 && 0 < s.len() && is_alpha(s[0]) && sl < s.len() && s[sl] == 58;
    let hier0: int = if has_scheme {
        sl + 1
    } else {
        0
    };
    lemma_scan_bound(s, 0, CharClass::Scheme);
    let has_authority = hier0 + 1 < s.len() && s[hier0] == 47 && s[hier0 + 1] == 47;
    assert(scheme_part_len(p) == hier0);
    if has_scheme {
        lemma_scan_localizes(s, 0, CharClass::Scheme);
    }
    if has_authority {
        let ae = find_authority_end(s, hier0 + 2);
        lemma_find_authority_end(s, hier0 + 2);
        let span = s.subrange(hier0 + 2, ae);
        lemma_authority_span_len(span);
        let a = p.authority->Some_0;
        assert(authority_span_len(a) == ae - (hier0 + 2));
        assert(authority_part_len(p) == ae - hier0);
        assert(path_offset(p) == ae);
        assert(s.subrange(scheme_part_len(p) + 2, scheme_part_len(p) + 2 + authority_span_len(a))
            == span);
    } else {
        assert(path_offset(p) == hier0);
    }
    assert(path_offset(p) == path0);
    lemma_scan_bound(s, path0, CharClass::Path);
    lemma_scan_localizes(s, path0, CharClass::Path);
    let qpos = path0 + p.path_len;
    if qpos < s.len() && s[qpos] == 63 {
        lemma_scan_bound(s, qpos + 1, CharClass::Query);
        lemma_scan_localizes(s, qpos + 1, CharClass::Query);
    }
    let fpos = qpos + query_part_len(p);
    if fpos < s.len() && s[fpos] == 35 {
        lemma_scan_bound(s, fpos + 1, CharClass::Fragment);
        lemma_scan_localizes(s, fpos + 1, CharClass::Fragment);
    }
    assert(total_len(p) == s.len());
    assert(wf(p, s));
}

} // verus!
