//! Equivalence comparator: percent-decoding-aware, normalization-aware
//! structural equality.  Scheme bytes are compared exactly, as stored;
//! the path is compared as dot-segment-removed segment sequences; host,
//! userinfo, path segments, query and fragment are compared with the
//! percent-decoding-aware equality of the `pct-str` crate, so that
//! `%6d` and `m` compare equal.  No scheme-specific knowledge (such as
//! default ports) is applied, and a trailing `/` makes paths distinct.

use vstd::prelude::*;
use crate::buffer::{
    authority_of, fragment_of, path_of, query_of, scheme_of, Authority, IriRefBuf,
};
use crate::parsing::ParsedAuthority;
use crate::path::{is_absolute_path, norm_run, path_segments, normalized_segments};

verus! {

/// What the percent-decoding-aware comparison of two byte strings
/// returns; a function of the two strings alone.
pub uninterp spec fn pct_bytes_equal(a: Seq<u8>, b: Seq<u8>) -> bool;

/// Relies on `pct_str::PctStr`: `new` validates the percent-encoding and
/// the decoded characters, and `==` compares the decoded characters.
/// Two texts that are not both valid percent-encoded strings compare
/// unequal.
#[verifier::external_body]
fn pct_eq(a: &[u8], b: &[u8]) -> (r: bool)
    ensures
        r == pct_bytes_equal(a@, b@),
{
    match (pct_str::PctStr::new(a), pct_str::PctStr::new(b)) {
        (Ok(x), Ok(y)) => x == y,
        _ => false,
    }
}

/// The userinfo bytes of an authority span, when present.
pub open spec fn auth_userinfo(a: ParsedAuthority, sa: Seq<u8>) -> Option<Seq<u8>> {
    match a.userinfo_len {
        Some(n) => Some(sa.subrange(0, n as int)),
        None => None,
    }
}

pub open spec fn auth_host_offset(a: ParsedAuthority) -> int {
    match a.userinfo_len {
        Some(n) => n + 1,
        None => 0,
    }
}

/// The host bytes of an authority span.
pub open spec fn auth_host(a: ParsedAuthority, sa: Seq<u8>) -> Seq<u8> {
    sa.subrange(auth_host_offset(a), auth_host_offset(a) + a.host_len)
}

/// The port bytes of an authority span, when present.
pub open spec fn auth_port(a: ParsedAuthority, sa: Seq<u8>) -> Option<Seq<u8>> {
    match a.port_len {
        Some(n) => Some(sa.subrange(sa.len() - n, sa.len() as int)),
        None => None,
    }
}

/// Authority equivalence: userinfo and host compare percent-decoding
/// aware, the port byte-exact (no default-port substitution).
pub open spec fn spec_auth_equivalent(
    a: ParsedAuthority,
    sa: Seq<u8>,
    b: ParsedAuthority,
    sb: Seq<u8>,
) -> bool {
    &&& (a.userinfo_len is Some <==> b.userinfo_len is Some)
    &&& (a.userinfo_len is Some ==> pct_bytes_equal(
        auth_userinfo(a, sa)->Some_0,
        auth_userinfo(b, sb)->Some_0,
    ))
    &&& pct_bytes_equal(auth_host(a, sa), auth_host(b, sb))
    &&& auth_port(a, sa) == auth_port(b, sb)
}

/// Path equivalence: equal absoluteness and pairwise percent-decoding
/// aware equality of the dot-segment-removed segment sequences.
pub open spec fn spec_path_equivalent(pa: Seq<u8>, pb: Seq<u8>) -> bool {
    let na = norm_run(Seq::empty(), path_segments(pa), is_absolute_path(pa));
    let nb = norm_run(Seq::empty(), path_segments(pb), is_absolute_path(pb));
    &&& is_absolute_path(pa) == is_absolute_path(pb)
    &&& na.len() == nb.len()
    &&& (forall|i: int| 0 <= i < na.len() ==> pct_bytes_equal(#[trigger] na[i], nb[i]))
}

/// Full equivalence of two references: byte-exact scheme, equivalent
/// authority, equivalent normalized path, percent-decoding-aware query
/// and fragment; an absent component never equals a present one, even an
/// empty one.
pub open spec fn spec_equivalent(
    ap: crate::parsing::ParsedIriRef,
    asq: Seq<u8>,
    bp: crate::parsing::ParsedIriRef,
    bsq: Seq<u8>,
) -> bool {
    &&& scheme_of(ap, asq) == scheme_of(bp, bsq)
    &&& (ap.authority is Some <==> bp.authority is Some)
    &&& (ap.authority is Some ==> spec_auth_equivalent(
        ap.authority->Some_0,
        authority_of(ap, asq)->Some_0,
        bp.authority->Some_0,
        authority_of(bp, bsq)->Some_0,
    ))
    &&& spec_path_equivalent(path_of(ap, asq), path_of(bp, bsq))
    &&& (ap.query_len is Some <==> bp.query_len is Some)
    &&& (ap.query_len is Some ==> pct_bytes_equal(
        query_of(ap, asq)->Some_0,
        query_of(bp, bsq)->Some_0,
    ))
    &&& (ap.fragment_len is Some <==> bp.fragment_len is Some)
    &&& (ap.fragment_len is Some ==> pct_bytes_equal(
        fragment_of(ap, asq)->Some_0,
        fragment_of(bp, bsq)->Some_0,
    ))
}

fn eq_bytes(a: &[u8], b: &[u8]) -> (r: bool)
    ensures
        r == (a@ == b@),
{
    if a.len() != b.len() {
        return false;
    }
    let mut i: usize = 0;
    while i < a.len()
        invariant
            0 <= i <= a@.len(),
            a@.len() == b@.len(),
            forall|j: int| 0 <= j < i ==> a@[j] == b@[j],
        decreases a@.len() - i,
    {
        if a[i] != b[i] {
            return false;
        }
        i += 1;
    }
    proof {
        assert(a@ =~= b@);
    }
    true
}

fn auth_equivalent_exec(a: &Authority<'_>, b: &Authority<'_>) -> (r: bool)
    requires
        a.wf(),
        b.wf(),
    ensures
        r == spec_auth_equivalent(a.parts(), a@, b.parts(), b@),
{
    proof {
        assert(auth_userinfo(a.parts(), a@) == a.spec_userinfo());
        assert(auth_userinfo(b.parts(), b@) == b.spec_userinfo());
        assert(auth_host(a.parts(), a@) == a.spec_host());
        assert(auth_host(b.parts(), b@) == b.spec_host());
        assert(auth_port(a.parts(), a@) == a.spec_port());
        assert(auth_port(b.parts(), b@) == b.spec_port());
    }
    let ue = match (a.userinfo(), b.userinfo()) {
        (Some(ua), Some(ub)) => pct_eq(ua, ub),
        (None, None) => true,
        _ => false,
    };
    if !ue {
        return false;
    }
    if !pct_eq(a.host(), b.host()) {
        return false;
    }
    match (a.port(), b.port()) {
        (Some(pa), Some(pb)) => eq_bytes(pa, pb),
        (None, None) => true,
        _ => false,
    }
}

fn path_equivalent_exec(pa: &[u8], pb: &[u8]) -> (r: bool)
    ensures
        r == spec_path_equivalent(pa@, pb@),
{
    let abs_a = pa.len() > 0 && pa[0] == 47;
    let abs_b = pb.len() > 0 && pb[0] == 47;
    proof {
        assert(abs_a == is_absolute_path(pa@));
        assert(abs_b == is_absolute_path(pb@));
    }
    if abs_a != abs_b {
        return false;
    }
    let na = normalized_segments(pa);
    let nb = normalized_segments(pb);
    if na.len() != nb.len() {
        return false;
    }
    let ghost ga = na.deep_view();
    let ghost gb = nb.deep_view();
    let mut i: usize = 0;
    while i < na.len()
        invariant
            0 <= i <= ga.len(),
            ga.len() == gb.len(),
            ga.len() == na@.len(),
            gb.len() == nb@.len(),
            ga == na.deep_view(),
            gb == nb.deep_view(),
            ga == norm_run(Seq::empty(), path_segments(pa@), is_absolute_path(pa@)),
            gb == norm_run(Seq::empty(), path_segments(pb@), is_absolute_path(pb@)),
            is_absolute_path(pa@) == is_absolute_path(pb@),
            forall|j: int| 0 <= j < i ==> pct_bytes_equal(#[trigger] ga[j], gb[j]),
        decreases ga.len() - i,
    {
        let sa = &na[i];
        let sb = &nb[i];
        if !pct_eq(sa.as_slice(), sb.as_slice()) {
            proof {
                assert(ga[i as int] == sa@ && gb[i as int] == sb@);
                assert(!spec_path_equivalent(pa@, pb@)) by {
                    let sna = norm_run(Seq::empty(), path_segments(pa@), is_absolute_path(pa@));
                    let snb = norm_run(Seq::empty(), path_segments(pb@), is_absolute_path(pb@));
                    assert(na.deep_view() == sna);
                    assert(nb.deep_view() == snb);
                    assert(ga == sna);
                    assert(gb == snb);
                    assert(0 <= i < sna.len() && !pct_bytes_equal(sna[i as int], snb[i as int]));
                }
            }
            return false;
        }
        proof {
            assert(ga[i as int] == sa@ && gb[i as int] == sb@);
        }
        i += 1;
    }
    true
}

impl IriRefBuf {
    /// Semantic equivalence, distinct from byte-exact equality: paths
    /// are compared as normalized segment sequences and
    /// percent-encoded characters compare equal to their decoded form,
    /// while schemes and ports compare byte-exact.
    pub fn equivalent_to(&self, other: &IriRefBuf) -> (r: bool)
        requires
            self.wf(),
            other.wf(),
        ensures
            r == spec_equivalent(self.parts(), self@, other.parts(), other@),
    {
        let se = match (self.scheme(), other.scheme()) {
            (Some(sa), Some(sb)) => eq_bytes(sa, sb),
            (None, None) => true,
            _ => false,
        };
        if !se {
            return false;
        }
        let ae = match (self.authority(), other.authority()) {
            (Some(aa), Some(ab)) => auth_equivalent_exec(&aa, &ab),
            (None, None) => true,
            _ => false,
        };
        if !ae {
            return false;
        }
        if !path_equivalent_exec(self.path(), other.path()) {
            return false;
        }
        let qe = match (self.query(), other.query()) {
            (Some(qa), Some(qb)) => pct_eq(qa, qb),
            (None, None) => true,
            _ => false,
        };
        if !qe {
            return false;
        }
        match (self.fragment(), other.fragment()) {
            (Some(fa), Some(fb)) => pct_eq(fa, fb),
            (None, None) => true,
            _ => false,
        }
    }
}

} // verus!
