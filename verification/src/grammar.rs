//! Grammar validator: byte classes of the IRI-reference productions and a
//! maximal-run scanner, percent-encoding aware where the production allows
//! percent-encoded triplets.
//!
//! A component candidate is valid for a production exactly when the scanner,
//! started at its first byte, consumes the whole candidate.

use vstd::prelude::*;

verus! {

/// The productions the scanner recognizes, as byte classes.
#[derive(Clone, Copy, Debug, PartialEq, Eq, Structural)]
pub enum CharClass {
    /// `scheme`: ALPHA / DIGIT / "+" / "-" / "." (first byte checked by callers).
    Scheme,
    /// `iuserinfo`: iunreserved / sub-delims / ":".
    Userinfo,
    /// `ireg-name`: iunreserved / sub-delims.
    RegName,
    /// `port`: DIGIT.
    Port,
    /// `ipath`: ipchar / "/".
    Path,
    /// `isegment` content: ipchar.
    Pchar,
    /// `iquery`: ipchar / iprivate / "/" / "?".
    Query,
    /// `ifragment`: ipchar / "/" / "?".
    Fragment,
    /// Inside an IP-literal: HEXDIG / ":" / ".".
    Ipv6,
    /// Tail of an IPvFuture literal: unreserved / sub-delims / ":".
    IpvFutureTail,
    /// HEXDIG.
    HexDigit,
}

pub open spec fn is_alpha(b: u8) -> bool {
    (65 <= b <= 90) || (97 <= b <= 122)
}

pub open spec fn is_digit(b: u8) -> bool {
    48 <= b <= 57
}

pub open spec fn is_hex_digit(b: u8) -> bool {
    is_digit(b) || (65 <= b <= 70) || (97 <= b <= 102)
}

/// `unreserved` (ASCII): ALPHA / DIGIT / "-" / "." / "_" / "~".
pub open spec fn is_unreserved_ascii(b: u8) -> bool {
    is_alpha(b) || is_digit(b) || b == 45 || b == 46 || b == 95 || b == 126
}

/// `iunreserved` at the byte level: `unreserved` or any non-ASCII byte
/// (the bytes of the `ucschar` UTF-8 encodings).
pub open spec fn is_iunreserved(b: u8) -> bool {
    is_unreserved_ascii(b) || b >= 128
}

/// `sub-delims`: "!" / "$" / "&" / "'" / "(" / ")" / "*" / "+" / "," / ";" / "=".
pub open spec fn is_sub_delim(b: u8) -> bool {
    b == 33 || b == 36 || b == 38 || b == 39 || b == 40 || b == 41 || b == 42 || b == 43 || b == 44
        || b == 59 || b == 61
}

/// `ipchar` without the percent-encoded form: iunreserved / sub-delims / ":" / "@".
pub open spec fn is_pchar(b: u8) -> bool {
    is_iunreserved(b) || is_sub_delim(b) || b == 58 || b == 64
}

/// Does a single (non-percent-encoded) byte belong to the class?
pub open spec fn class_allows(k: CharClass, b: u8) -> bool {
    match k {
        CharClass::Scheme => is_alpha(b) || is_digit(b) || b == 43 || b == 45 || b == 46,
        CharClass::Userinfo => is_iunreserved(b) || is_sub_delim(b) || b == 58,
        CharClass::RegName => is_iunreserved(b) || is_sub_delim(b),
        CharClass::Port => is_digit(b),
        CharClass::Path => is_pchar(b) || b == 47,
        CharClass::Pchar => is_pchar(b),
        CharClass::Query => is_pchar(b) || b == 47 || b == 63,
        CharClass::Fragment => is_pchar(b) || b == 47 || b == 63,
        CharClass::Ipv6 => is_hex_digit(b) || b == 58 || b == 46,
        CharClass::IpvFutureTail => is_unreserved_ascii(b) || is_sub_delim(b) || b == 58,
        CharClass::HexDigit => is_hex_digit(b),
    }
}

/// Does the production admit percent-encoded triplets?
pub open spec fn class_pct(k: CharClass) -> bool {
    match k {
        CharClass::Scheme => false,
        CharClass::Port => false,
        CharClass::Ipv6 => false,
        CharClass::IpvFutureTail => false,
        CharClass::HexDigit => false,
        _ => true,
    }
}

/// Length of the maximal run of bytes from `i` that matches the production:
/// class bytes, and percent-encoded triplets where the production allows
/// them.  A `%` not followed by two hexadecimal digits stops the run.
pub open spec fn scan(s: Seq<u8>, i: int, k: CharClass) -> int
    decreases s.len() - i,
{
    if i < 0 || i >= s.len() {
        0
    } else if s[i] == 37 && class_pct(k) && i + 2 < s.len() && is_hex_digit(s[i + 1])
        && is_hex_digit(s[i + 2]) {
        3 + scan(s, i + 3, k)
    } else if s[i] != 37 && class_allows(k, s[i]) {
        1 + scan(s, i + 1, k)
    } else {
        0
    }
}

/// A candidate is valid for a production when the scan consumes it whole.
pub open spec fn full_match(s: Seq<u8>, k: CharClass) -> bool {
    scan(s, 0, k) == s.len()
}

pub proof fn lemma_scan_bound(s: Seq<u8>, i: int, k: CharClass)
    requires
        0 <= i <= s.len(),
    ensures
        0 <= scan(s, i, k) <= s.len() - i,
    decreases s.len() - i,
{
    if i < s.len() {
        if s[i] == 37 && class_pct(k) && i + 2 < s.len() && is_hex_digit(s[i + 1]) && is_hex_digit(
            s[i + 2],
        ) {
            lemma_scan_bound(s, i + 3, k);
        } else if s[i] != 37 && class_allows(k, s[i]) {
            lemma_scan_bound(s, i + 1, k);
        }
    }
}

/// Scanning a suffix does not depend on the bytes before it.
pub proof fn lemma_scan_shift(a: Seq<u8>, b: Seq<u8>, j: int, k: CharClass)
    requires
        0 <= j <= b.len(),
    ensures
        scan(a + b, a.len() + j, k) == scan(b, j, k),
    decreases b.len() - j,
{
    let s = a + b;
    if j < b.len() {
        assert(s[a.len() + j] == b[j]);
        if b[j] == 37 && class_pct(k) && j + 2 < b.len() && is_hex_digit(b[j + 1]) && is_hex_digit(
            b[j + 2],
        ) {
            lemma_scan_shift(a, b, j + 3, k);
        } else if b[j] != 37 && class_allows(k, b[j]) {
            lemma_scan_shift(a, b, j + 1, k);
        }
    }
}

/// A run that consumes a whole prefix continues with the scan of the rest.
pub proof fn lemma_scan_concat(a: Seq<u8>, b: Seq<u8>, i: int, k: CharClass)
    requires
        0 <= i <= a.len(),
        scan(a, i, k) == a.len() - i,
    ensures
        scan(a + b, i, k) == (a.len() - i) + scan(b, 0, k),
    decreases a.len() - i,
{
    let s = a + b;
    if i == a.len() {
        lemma_scan_shift(a, b, 0, k);
    } else {
        assert(s[i] == a[i]);
        if a[i] == 37 && class_pct(k) && i + 2 < a.len() && is_hex_digit(a[i + 1]) && is_hex_digit(
            a[i + 2],
        ) {
            assert(scan(a, i, k) == 3 + scan(a, i + 3, k));
            lemma_scan_bound(a, i + 3, k);
            assert(s[i + 1] == a[i + 1] && s[i + 2] == a[i + 2]);
            lemma_scan_concat(a, b, i + 3, k);
        } else if a[i] != 37 && class_allows(k, a[i]) {
            lemma_scan_bound(a, i + 1, k);
            lemma_scan_concat(a, b, i + 1, k);
        } else {
            assert(scan(a, i, k) == 0);
            assert(false);
        }
    }
}

/// A run that stops at or before the end of a prefix is unchanged when the
/// bytes after that prefix are dropped.
pub proof fn lemma_scan_prefix(a: Seq<u8>, b: Seq<u8>, j: int, k: CharClass)
    requires
        0 <= j <= a.len(),
        scan(a + b, j, k) <= a.len() - j,
    ensures
        scan(a, j, k) == scan(a + b, j, k),
    decreases a.len() - j,
{
    let s = a + b;
    if j < a.len() {
        assert(s[j] == a[j]);
        if s[j] == 37 && class_pct(k) && j + 2 < s.len() && is_hex_digit(s[j + 1]) && is_hex_digit(
            s[j + 2],
        ) {
            lemma_scan_bound(s, j + 3, k);
            // The step consumed 3 bytes, all of them inside `a`.
            assert(scan(s, j, k) == 3 + scan(s, j + 3, k));
            assert(j + 3 <= a.len());
            assert(a[j + 1] == s[j + 1] && a[j + 2] == s[j + 2]);
            lemma_scan_prefix(a, b, j + 3, k);
            assert(scan(a, j, k) == 3 + scan(a, j + 3, k));
        } else if s[j] != 37 && class_allows(k, s[j]) {
            assert(scan(s, j, k) == 1 + scan(s, j + 1, k));
            lemma_scan_prefix(a, b, j + 1, k);
            assert(scan(a, j, k) == 1 + scan(a, j + 1, k));
        } else {
            // The run stops immediately in both sequences: a `%` step valid in
            // `a` alone would also be valid in the longer sequence.
            assert(scan(s, j, k) == 0);
            if a[j] == 37 && class_pct(k) && j + 2 < a.len() && is_hex_digit(a[j + 1])
                && is_hex_digit(a[j + 2]) {
                assert(s[j + 1] == a[j + 1] && s[j + 2] == a[j + 2]);
                assert(false);
            }
            assert(scan(a, j, k) == 0);
        }
    } else {
        lemma_scan_bound(s, j, k);
    }
}

/// A full match against a class stays a full match against any wider class.
pub proof fn lemma_scan_widen(s: Seq<u8>, i: int, k1: CharClass, k2: CharClass)
    requires
        0 <= i <= s.len(),
        scan(s, i, k1) == s.len() - i,
        forall|b: u8| class_allows(k1, b) ==> class_allows(k2, b),
        class_pct(k1) ==> class_pct(k2),
    ensures
        scan(s, i, k2) == s.len() - i,
    decreases s.len() - i,
{
    if i < s.len() {
        if s[i] == 37 && class_pct(k1) && i + 2 < s.len() && is_hex_digit(s[i + 1]) && is_hex_digit(
            s[i + 2],
        ) {
            lemma_scan_bound(s, i + 3, k1);
            lemma_scan_widen(s, i + 3, k1, k2);
            lemma_scan_bound(s, i + 3, k2);
        } else if s[i] != 37 && class_allows(k1, s[i]) {
            lemma_scan_bound(s, i + 1, k1);
            lemma_scan_widen(s, i + 1, k1, k2);
            lemma_scan_bound(s, i + 1, k2);
        } else {
            assert(false);
        }
    }
}

/// Splitting a fully matching run at a one-byte class member that can
/// neither open nor continue a percent-encoded triplet (such as `/`)
/// leaves two fully matching runs.
pub proof fn lemma_scan_split_at(s: Seq<u8>, j: int, k: CharClass)
    requires
        full_match(s, k),
        0 <= j < s.len(),
        class_allows(k, s[j]),
        s[j] != 37,
        !is_hex_digit(s[j]),
    ensures
        scan(s.subrange(0, j), 0, k) == j,
        scan(s.subrange(j + 1, s.len() as int), 0, k) == s.len() - j - 1,
    decreases s.len(),
{
    let sep = s[j];
    if j == 0 {
        let rest = s.subrange(1, s.len() as int);
        assert(scan(s, 0, k) == 1 + scan(s, 1, k));
        assert(s =~= seq![s[0]] + rest);
        lemma_scan_shift(seq![s[0]], rest, 0, k);
        assert(s.subrange(0, 0) =~= Seq::<u8>::empty());
    } else {
        // Peel the first step of the run off `s` and recurse.
        if s[0] == 37 && class_pct(k) && 2 < s.len() && is_hex_digit(s[1]) && is_hex_digit(s[2]) {
            let rest = s.subrange(3, s.len() as int);
            lemma_scan_bound(s, 3, k);
            assert(s =~= s.subrange(0, 3) + rest);
            lemma_scan_shift(s.subrange(0, 3), rest, 0, k);
            assert(scan(rest, 0, k) == rest.len());
            // The separator is not a hex digit, so it lies strictly after the triplet.
            assert(j >= 3);
            lemma_scan_split_at(rest, j - 3, k);
            let head = s.subrange(0, 3);
            let left_rest = rest.subrange(0, j - 3);
            assert(s.subrange(0, j) =~= head + left_rest);
            assert(scan(head, 0, k) == 3) by {
                assert(head[0] == s[0] && head[1] == s[1] && head[2] == s[2]);
                assert(scan(head, 3, k) == 0);
                assert(scan(head, 0, k) == 3 + scan(head, 3, k));
            }
            lemma_scan_concat(head, left_rest, 0, k);
            assert(s.subrange(j + 1, s.len() as int) =~= rest.subrange(j - 3 + 1, rest.len() as int));
        } else if s[0] != 37 && class_allows(k, s[0]) {
            let rest = s.subrange(1, s.len() as int);
            lemma_scan_bound(s, 1, k);
            assert(s =~= seq![s[0]] + rest);
            lemma_scan_shift(seq![s[0]], rest, 0, k);
            assert(scan(rest, 0, k) == rest.len());
            lemma_scan_split_at(rest, j - 1, k);
            let head = seq![s[0]];
            let left_rest = rest.subrange(0, j - 1);
            assert(s.subrange(0, j) =~= head + left_rest);
            assert(scan(head, 0, k) == 1) by {
                assert(head[0] == s[0]);
                assert(scan(head, 1, k) == 0);
                assert(scan(head, 0, k) == 1 + scan(head, 1, k));
            }
            lemma_scan_concat(head, left_rest, 0, k);
            assert(s.subrange(j + 1, s.len() as int) =~= rest.subrange(j, rest.len() as int));
        } else {
            assert(scan(s, 0, k) == 0);
            assert(false);
        }
    }
}

/// Two fully matching runs concatenate to a fully matching run.
pub proof fn lemma_full_concat(a: Seq<u8>, b: Seq<u8>, k: CharClass)
    requires
        full_match(a, k),
        full_match(b, k),
    ensures
        full_match(a + b, k),
{
    lemma_scan_concat(a, b, 0, k);
}

/// Does `b` (not part of a percent-encoded triplet) belong to the class?
pub fn byte_in_class(b: u8, k: CharClass) -> (r: bool)
    ensures
        r == class_allows(k, b),
{
    match k {
        CharClass::Scheme => byte_alnum(b) || b == 43 || b == 45 || b == 46,
        CharClass::Userinfo => byte_iunreserved(b) || byte_sub_delim(b) || b == 58,
        CharClass::RegName => byte_iunreserved(b) || byte_sub_delim(b),
        CharClass::Port => 48 <= b && b <= 57,
        CharClass::Path => byte_pchar(b) || b == 47,
        CharClass::Pchar => byte_pchar(b),
        CharClass::Query => byte_pchar(b) || b == 47 || b == 63,
        CharClass::Fragment => byte_pchar(b) || b == 47 || b == 63,
        CharClass::Ipv6 => byte_hex(b) || b == 58 || b == 46,
        CharClass::IpvFutureTail => byte_unreserved_ascii(b) || byte_sub_delim(b) || b == 58,
        CharClass::HexDigit => byte_hex(b),
    }
}

fn byte_alnum(b: u8) -> (r: bool)
    ensures
        r == (is_alpha(b) || is_digit(b)),
{
    (48 <= b && b <= 57) || (65 <= b && b <= 90) || (97 <= b && b <= 122)
}

fn byte_hex(b: u8) -> (r: bool)
    ensures
        r == is_hex_digit(b),
{
    (48 <= b && b <= 57) || (65 <= b && b <= 70) || (97 <= b && b <= 102)
}

fn byte_unreserved_ascii(b: u8) -> (r: bool)
    ensures
        r == is_unreserved_ascii(b),
{
    byte_alnum(b) || b == 45 || b == 46 || b == 95 || b == 126
}

fn byte_iunreserved(b: u8) -> (r: bool)
    ensures
        r == is_iunreserved(b),
{
    byte_unreserved_ascii(b) || b >= 128
}

fn byte_sub_delim(b: u8) -> (r: bool)
    ensures
        r == is_sub_delim(b),
{
    b == 33 || b == 36 || b == 38 || b == 39 || b == 40 || b == 41 || b == 42 || b == 43 || b == 44
        || b == 59 || b == 61
}

fn byte_pchar(b: u8) -> (r: bool)
    ensures
        r == is_pchar(b),
{
    byte_iunreserved(b) || byte_sub_delim(b) || b == 58 || b == 64
}

/// Maximal-run scanner over a production's byte class, from `start`.
pub fn scan_class(s: &[u8], start: usize, k: CharClass) -> (r: usize)
    requires
        start <= s@.len(),
    ensures
        r == scan(s@, start as int, k),
        start + r <= s@.len(),
{
    proof {
        lemma_scan_bound(s@, start as int, k);
    }
    let len = s.len();
    let allow_pct = match k {
        CharClass::Scheme => false,
        CharClass::Port => false,
        CharClass::Ipv6 => false,
        CharClass::IpvFutureTail => false,
        CharClass::HexDigit => false,
        _ => true,
    };
    let mut i = start;
    loop
        invariant
            start <= i <= s@.len(),
            len == s@.len(),
            allow_pct == class_pct(k),
            scan(s@, start as int, k) == (i - start) + scan(s@, i as int, k),
        ensures
            start <= i <= s@.len(),
            scan(s@, start as int, k) == i - start,
        decreases s@.len() - i,
    {
        if i >= len {
            assert(scan(s@, i as int, k) == 0);
            break ;
        }
        let b = s[i];
        if b == 37 {
            if allow_pct && len - i > 2 && byte_hex(s[i + 1]) && byte_hex(s[i + 2]) {
                proof {
                    lemma_scan_bound(s@, i + 3, k);
                }
                i += 3;
            } else {
                assert(scan(s@, i as int, k) == 0);
                break ;
            }
        } else if byte_in_class(b, k) {
            proof {
                lemma_scan_bound(s@, i + 1, k);
            }
            i += 1;
        } else {
            assert(scan(s@, i as int, k) == 0);
            break ;
        }
    }
    i - start
}

} // verus!
