//! Owned and borrowed IRI references: a byte buffer holding the literal
//! text together with its component descriptor.  Every mutating call
//! validates the replacement content first, then splices the buffer and
//! updates the descriptor together, so buffer and descriptor are never
//! observable out of step.

use vstd::prelude::*;
use vstd::slice::{slice_subrange, slice_to_vec};
use crate::Error;
use crate::grammar::{CharClass, full_match, is_alpha, scan_class};
use crate::parsing::{
    HostKind, ParsedAuthority, ParsedIriRef, authority_offset, authority_span_len,
    fragment_offset, parse_authority, parse_iri_ref, path_offset, query_offset, query_part_len,
    is_alpha_exec, scheme_part_len, spec_parse, spec_parse_authority, total_len, wf,
};

verus! {

/// A syntactically correct scheme: a letter followed by scheme characters.
pub open spec fn is_valid_scheme(s: Seq<u8>) -> bool {
    s.len() >= 1 && is_alpha(s[0]) && full_match(s, CharClass::Scheme)
}

/// A syntactically correct authority span.
pub open spec fn is_valid_authority(s: Seq<u8>) -> bool {
    spec_parse_authority(s) is Some
}

/// A syntactically correct path.
pub open spec fn is_valid_path(s: Seq<u8>) -> bool {
    full_match(s, CharClass::Path)
}

/// A syntactically correct query.
pub open spec fn is_valid_query(s: Seq<u8>) -> bool {
    full_match(s, CharClass::Query)
}

/// A syntactically correct fragment.
pub open spec fn is_valid_fragment(s: Seq<u8>) -> bool {
    full_match(s, CharClass::Fragment)
}

/// The scheme bytes of a descriptor/buffer pair, when present.
pub open spec fn scheme_of(p: ParsedIriRef, s: Seq<u8>) -> Option<Seq<u8>> {
    match p.scheme_len {
        Some(n) => Some(s.subrange(0, n as int)),
        None => None,
    }
}

/// The authority span bytes, when present.
pub open spec fn authority_of(p: ParsedIriRef, s: Seq<u8>) -> Option<Seq<u8>> {
    match p.authority {
        Some(a) => Some(s.subrange(authority_offset(p), authority_offset(p) + authority_span_len(a))),
        None => None,
    }
}

/// The path bytes.
pub open spec fn path_of(p: ParsedIriRef, s: Seq<u8>) -> Seq<u8> {
    s.subrange(path_offset(p), path_offset(p) + p.path_len)
}

/// The query bytes, when present.
pub open spec fn query_of(p: ParsedIriRef, s: Seq<u8>) -> Option<Seq<u8>> {
    match p.query_len {
        Some(n) => Some(s.subrange(query_offset(p), query_offset(p) + n)),
        None => None,
    }
}

/// The fragment bytes, when present.
pub open spec fn fragment_of(p: ParsedIriRef, s: Seq<u8>) -> Option<Seq<u8>> {
    match p.fragment_len {
        Some(n) => Some(s.subrange(fragment_offset(p), fragment_offset(p) + n)),
        None => None,
    }
}

// The buffer of a well-formed reference decomposes into five consecutive
// parts (scheme, authority, path, query, fragment), each carrying its own
// separator bytes.  The splice-based mutators replace one part and keep
// the others, so the invariant is re-established by recomposition.

/// The scheme part: `scheme ":"`, or empty when absent.
pub open spec fn scheme_part_ok(p: ParsedIriRef, ss: Seq<u8>) -> bool {
    match p.scheme_len {
        Some(n) => ss.len() == n + 1 && is_valid_scheme(ss.subrange(0, n as int)) && ss[n as int]
            == 58,
        None => ss.len() == 0,
    }
}

/// The authority part: `"//" authority`, or empty when absent.
pub open spec fn authority_part_ok(p: ParsedIriRef, sa: Seq<u8>) -> bool {
    match p.authority {
        Some(a) => sa.len() == 2 + authority_span_len(a) && sa[0] == 47 && sa[1] == 47
            && spec_parse_authority(sa.subrange(2, sa.len() as int)) == Some(a),
        None => sa.len() == 0,
    }
}

/// The path part: the path bytes themselves.
pub open spec fn path_part_ok(p: ParsedIriRef, sp_: Seq<u8>) -> bool {
    sp_.len() == p.path_len && is_valid_path(sp_)
}

/// The query part: `"?" query`, or empty when absent.
pub open spec fn query_part_ok(p: ParsedIriRef, sq: Seq<u8>) -> bool {
    match p.query_len {
        Some(n) => sq.len() == n + 1 && sq[0] == 63 && is_valid_query(
            sq.subrange(1, sq.len() as int),
        ),
        None => sq.len() == 0,
    }
}

/// The fragment part: `"#" fragment`, or empty when absent.
pub open spec fn fragment_part_ok(p: ParsedIriRef, sf: Seq<u8>) -> bool {
    match p.fragment_len {
        Some(n) => sf.len() == n + 1 && sf[0] == 35 && is_valid_fragment(
            sf.subrange(1, sf.len() as int),
        ),
        None => sf.len() == 0,
    }
}

/// A well-formed buffer is the concatenation of its five parts, each of
/// them well-formed on its own.
#[verifier::rlimit(100)]
#[verifier::spinoff_prover]
pub proof fn lemma_wf_parts(p: ParsedIriRef, s: Seq<u8>)
    requires
        wf(p, s),
    ensures
        ({
            let ss = s.subrange(0, scheme_part_len(p));
            let sa = s.subrange(scheme_part_len(p), path_offset(p));
            let sp_ = s.subrange(path_offset(p), path_offset(p) + p.path_len);
            let sq = s.subrange(
                path_offset(p) + p.path_len,
                path_offset(p) + p.path_len + query_part_len(p),
            );
            let sf = s.subrange(path_offset(p) + p.path_len + query_part_len(p), s.len() as int);
            &&& s == ss + sa + sp_ + sq + sf
            &&& scheme_part_ok(p, ss)
            &&& authority_part_ok(p, sa)
            &&& path_part_ok(p, sp_)
            &&& query_part_ok(p, sq)
            &&& fragment_part_ok(p, sf)
        }),
{
    let ss = s.subrange(0, scheme_part_len(p));
    let sa = s.subrange(scheme_part_len(p), path_offset(p));
    let sp_ = s.subrange(path_offset(p), path_offset(p) + p.path_len);
    let sq = s.subrange(
        path_offset(p) + p.path_len,
        path_offset(p) + p.path_len + query_part_len(p),
    );
    let sf = s.subrange(path_offset(p) + p.path_len + query_part_len(p), s.len() as int);
    assert(s =~= ss + sa + sp_ + sq + sf);
    match p.scheme_len {
        Some(n) => {
            assert(ss.subrange(0, n as int) =~= s.subrange(0, n as int));
        },
        None => {},
    }
    match p.authority {
        Some(a) => {
            assert(sa.subrange(2, sa.len() as int) =~= s.subrange(
                scheme_part_len(p) + 2,
                scheme_part_len(p) + 2 + authority_span_len(a),
            ));
        },
        None => {},
    }
    assert(sp_ =~= s.subrange(path_offset(p), path_offset(p) + p.path_len));
    match p.query_len {
        Some(n) => {
            assert(sq.subrange(1, sq.len() as int) =~= s.subrange(
                query_offset(p),
                query_offset(p) + n,
            ));
        },
        None => {},
    }
    match p.fragment_len {
        Some(n) => {
            assert(sf.subrange(1, sf.len() as int) =~= s.subrange(
                fragment_offset(p),
                fragment_offset(p) + n,
            ));
        },
        None => {},
    }
}

/// Recomposition: five well-formed parts concatenate to a well-formed
/// buffer, whose components are exactly the parts' contents.
#[verifier::rlimit(100)]
#[verifier::spinoff_prover]
pub proof fn lemma_concat_parts(
    p: ParsedIriRef,
    ss: Seq<u8>,
    sa: Seq<u8>,
    sp_: Seq<u8>,
    sq: Seq<u8>,
    sf: Seq<u8>,
)
    requires
        scheme_part_ok(p, ss),
        authority_part_ok(p, sa),
        path_part_ok(p, sp_),
        query_part_ok(p, sq),
        fragment_part_ok(p, sf),
    ensures
        wf(p, ss + sa + sp_ + sq + sf),
        scheme_of(p, ss + sa + sp_ + sq + sf) == (match p.scheme_len {
            Some(n) => Some(ss.subrange(0, n as int)),
            None => None::<Seq<u8>>,
        }),
        authority_of(p, ss + sa + sp_ + sq + sf) == (match p.authority {
            Some(a) => Some(sa.subrange(2, sa.len() as int)),
            None => None::<Seq<u8>>,
        }),
        path_of(p, ss + sa + sp_ + sq + sf) == sp_,
        query_of(p, ss + sa + sp_ + sq + sf) == (match p.query_len {
            Some(n) => Some(sq.subrange(1, sq.len() as int)),
            None => None::<Seq<u8>>,
        }),
        fragment_of(p, ss + sa + sp_ + sq + sf) == (match p.fragment_len {
            Some(n) => Some(sf.subrange(1, sf.len() as int)),
            None => None::<Seq<u8>>,
        }),
{
    let s = ss + sa + sp_ + sq + sf;
    assert(scheme_part_len(p) == ss.len());
    assert(path_offset(p) == ss.len() + sa.len());
    assert(query_part_len(p) == sq.len());
    assert(total_len(p) == s.len());
    match p.scheme_len {
        Some(n) => {
            assert(s.subrange(0, n as int) =~= ss.subrange(0, n as int));
            assert(s[n as int] == ss[n as int]);
        },
        None => {},
    }
    match p.authority {
        Some(a) => {
            assert(s[scheme_part_len(p)] == sa[0]);
            assert(s[scheme_part_len(p) + 1] == sa[1]);
            assert(s.subrange(
                scheme_part_len(p) + 2,
                scheme_part_len(p) + 2 + authority_span_len(a),
            ) =~= sa.subrange(2, sa.len() as int));
            assert(s.subrange(authority_offset(p), authority_offset(p) + authority_span_len(a))
                =~= sa.subrange(2, sa.len() as int));
        },
        None => {},
    }
    assert(s.subrange(path_offset(p), path_offset(p) + p.path_len) =~= sp_);
    match p.query_len {
        Some(n) => {
            assert(s[path_offset(p) + p.path_len] == sq[0]);
            assert(s.subrange(query_offset(p), query_offset(p) + n) =~= sq.subrange(
                1,
                sq.len() as int,
            ));
        },
        None => {},
    }
    match p.fragment_len {
        Some(n) => {
            assert(s[fragment_offset(p) - 1] == sf[0]);
            assert(s.subrange(fragment_offset(p), fragment_offset(p) + n) =~= sf.subrange(
                1,
                sf.len() as int,
            ));
        },
        None => {},
    }
}


/// Mirror of a descriptor with only the query length changed.
pub open spec fn same_but_query(op: ParsedIriRef, np: ParsedIriRef) -> bool {
    np.scheme_len == op.scheme_len && np.authority == op.authority && np.path_len == op.path_len
        && np.fragment_len == op.fragment_len
}

/// Mirror of a descriptor with only the scheme length changed.
pub open spec fn same_but_scheme(op: ParsedIriRef, np: ParsedIriRef) -> bool {
    np.authority == op.authority && np.path_len == op.path_len && np.query_len == op.query_len
        && np.fragment_len == op.fragment_len
}

/// Mirror of a descriptor with only the authority changed.
pub open spec fn same_but_authority(op: ParsedIriRef, np: ParsedIriRef) -> bool {
    np.scheme_len == op.scheme_len && np.path_len == op.path_len && np.query_len == op.query_len
        && np.fragment_len == op.fragment_len
}

#[verifier::rlimit(100)]
#[verifier::spinoff_prover]
proof fn lemma_query_swapped(op: ParsedIriRef, np: ParsedIriRef, os: Seq<u8>, ns: Seq<u8>, nq: Seq<u8>)
    requires
        wf(op, os),
        same_but_query(op, np),
        query_part_ok(np, nq),
        ns == os.subrange(0, path_offset(op) + op.path_len) + nq + os.subrange(
            path_offset(op) + op.path_len + query_part_len(op),
            os.len() as int,
        ),
    ensures
        wf(np, ns),
        scheme_of(np, ns) == scheme_of(op, os),
        authority_of(np, ns) == authority_of(op, os),
        path_of(np, ns) == path_of(op, os),
        fragment_of(np, ns) == fragment_of(op, os),
        query_of(np, ns) == (match np.query_len {
            Some(n) => Some(nq.subrange(1, nq.len() as int)),
            None => None::<Seq<u8>>,
        }),
{
    lemma_wf_parts(op, os);
    let ss = os.subrange(0, scheme_part_len(op));
    let sa = os.subrange(scheme_part_len(op), path_offset(op));
    let sp_ = os.subrange(path_offset(op), path_offset(op) + op.path_len);
    let sf = os.subrange(path_offset(op) + op.path_len + query_part_len(op), os.len() as int);
    assert(ns =~= ss + sa + sp_ + nq + sf);
    lemma_concat_parts(np, ss, sa, sp_, nq, sf);
    assert(scheme_of(op, os) == (match op.scheme_len {
        Some(n) => Some(ss.subrange(0, n as int)),
        None => None::<Seq<u8>>,
    })) by {
        if op.scheme_len is Some {
            assert(os.subrange(0, op.scheme_len->Some_0 as int) =~= ss.subrange(
                0,
                op.scheme_len->Some_0 as int,
            ));
        }
    }
    assert(authority_of(op, os) == (match op.authority {
        Some(a) => Some(sa.subrange(2, sa.len() as int)),
        None => None::<Seq<u8>>,
    })) by {
        if op.authority is Some {
            let a = op.authority->Some_0;
            assert(os.subrange(authority_offset(op), authority_offset(op) + authority_span_len(a))
                =~= sa.subrange(2, sa.len() as int));
        }
    }
    assert(path_of(op, os) == sp_);
    assert(fragment_of(op, os) == (match op.fragment_len {
        Some(n) => Some(sf.subrange(1, sf.len() as int)),
        None => None::<Seq<u8>>,
    })) by {
        if op.fragment_len is Some {
            let n = op.fragment_len->Some_0;
            assert(os.subrange(fragment_offset(op), fragment_offset(op) + n) =~= sf.subrange(
                1,
                sf.len() as int,
            ));
        }
    }
}

#[verifier::rlimit(100)]
#[verifier::spinoff_prover]
proof fn lemma_scheme_swapped(op: ParsedIriRef, np: ParsedIriRef, os: Seq<u8>, ns: Seq<u8>, nss: Seq<u8>)
    requires
        wf(op, os),
        same_but_scheme(op, np),
        scheme_part_ok(np, nss),
        ns == nss + os.subrange(scheme_part_len(op), os.len() as int),
    ensures
        wf(np, ns),
        scheme_of(np, ns) == (match np.scheme_len {
            Some(n) => Some(nss.subrange(0, n as int)),
            None => None::<Seq<u8>>,
        }),
{
    lemma_wf_parts(op, os);
    let sa = os.subrange(scheme_part_len(op), path_offset(op));
    let sp_ = os.subrange(path_offset(op), path_offset(op) + op.path_len);
    let sq = os.subrange(
        path_offset(op) + op.path_len,
        path_offset(op) + op.path_len + query_part_len(op),
    );
    let sf = os.subrange(path_offset(op) + op.path_len + query_part_len(op), os.len() as int);
    assert(ns =~= nss + sa + sp_ + sq + sf);
    lemma_concat_parts(np, nss, sa, sp_, sq, sf);
}

#[verifier::rlimit(100)]
#[verifier::spinoff_prover]
proof fn lemma_scheme_swapped_rest(
    op: ParsedIriRef,
    np: ParsedIriRef,
    os: Seq<u8>,
    ns: Seq<u8>,
    nss: Seq<u8>,
)
    requires
        wf(op, os),
        same_but_scheme(op, np),
        scheme_part_ok(np, nss),
        ns == nss + os.subrange(scheme_part_len(op), os.len() as int),
    ensures
        authority_of(np, ns) == authority_of(op, os),
        path_of(np, ns) == path_of(op, os),
        query_of(np, ns) == query_of(op, os),
        fragment_of(np, ns) == fragment_of(op, os),
{
    let d = nss.len() - scheme_part_len(op);
    assert(scheme_part_len(np) == nss.len() - 1 + 1);
    if op.authority is Some {
        let a = op.authority->Some_0;
        assert(ns.subrange(authority_offset(np), authority_offset(np) + authority_span_len(a))
            =~= os.subrange(authority_offset(op), authority_offset(op) + authority_span_len(a)));
    }
    assert(ns.subrange(path_offset(np), path_offset(np) + np.path_len) =~= os.subrange(
        path_offset(op),
        path_offset(op) + op.path_len,
    ));
    if op.query_len is Some {
        let n = op.query_len->Some_0;
        assert(ns.subrange(query_offset(np), query_offset(np) + n) =~= os.subrange(
            query_offset(op),
            query_offset(op) + n,
        ));
    }
    if op.fragment_len is Some {
        let n = op.fragment_len->Some_0;
        assert(ns.subrange(fragment_offset(np), fragment_offset(np) + n) =~= os.subrange(
            fragment_offset(op),
            fragment_offset(op) + n,
        ));
    }
}

#[verifier::rlimit(100)]
#[verifier::spinoff_prover]
proof fn lemma_authority_swapped(op: ParsedIriRef, np: ParsedIriRef, os: Seq<u8>, ns: Seq<u8>, na: Seq<u8>)
    requires
        wf(op, os),
        same_but_authority(op, np),
        authority_part_ok(np, na),
        ns == os.subrange(0, scheme_part_len(op)) + na + os.subrange(path_offset(op), os.len() as int),
    ensures
        wf(np, ns),
        scheme_of(np, ns) == scheme_of(op, os),
        authority_of(np, ns) == (match np.authority {
            Some(a) => Some(na.subrange(2, na.len() as int)),
            None => None::<Seq<u8>>,
        }),
        path_of(np, ns) == path_of(op, os),
        query_of(np, ns) == query_of(op, os),
        fragment_of(np, ns) == fragment_of(op, os),
{
    lemma_wf_parts(op, os);
    let ss = os.subrange(0, scheme_part_len(op));
    let sp_ = os.subrange(path_offset(op), path_offset(op) + op.path_len);
    let sq = os.subrange(
        path_offset(op) + op.path_len,
        path_offset(op) + op.path_len + query_part_len(op),
    );
    let sf = os.subrange(path_offset(op) + op.path_len + query_part_len(op), os.len() as int);
    assert(ns =~= ss + na + sp_ + sq + sf);
    lemma_concat_parts(np, ss, na, sp_, sq, sf);
    assert(scheme_of(op, os) == (match op.scheme_len {
        Some(n) => Some(ss.subrange(0, n as int)),
        None => None::<Seq<u8>>,
    })) by {
        if op.scheme_len is Some {
            assert(os.subrange(0, op.scheme_len->Some_0 as int) =~= ss.subrange(
                0,
                op.scheme_len->Some_0 as int,
            ));
        }
    }
    assert(path_of(op, os) == sp_);
    assert(query_of(op, os) == (match op.query_len {
        Some(n) => Some(sq.subrange(1, sq.len() as int)),
        None => None::<Seq<u8>>,
    })) by {
        if op.query_len is Some {
            let n = op.query_len->Some_0;
            assert(os.subrange(query_offset(op), query_offset(op) + n) =~= sq.subrange(
                1,
                sq.len() as int,
            ));
        }
    }
    assert(fragment_of(op, os) == (match op.fragment_len {
        Some(n) => Some(sf.subrange(1, sf.len() as int)),
        None => None::<Seq<u8>>,
    })) by {
        if op.fragment_len is Some {
            let n = op.fragment_len->Some_0;
            assert(os.subrange(fragment_offset(op), fragment_offset(op) + n) =~= sf.subrange(
                1,
                sf.len() as int,
            ));
        }
    }
}

/// Mirror of a descriptor with only the path length changed.
pub open spec fn same_but_path(op: ParsedIriRef, np: ParsedIriRef) -> bool {
    np.scheme_len == op.scheme_len && np.authority == op.authority && np.query_len == op.query_len
        && np.fragment_len == op.fragment_len
}

#[verifier::rlimit(100)]
#[verifier::spinoff_prover]
proof fn lemma_path_swapped(op: ParsedIriRef, np: ParsedIriRef, os: Seq<u8>, ns: Seq<u8>, nsp: Seq<u8>)
    requires
        wf(op, os),
        same_but_path(op, np),
        path_part_ok(np, nsp),
        ns == os.subrange(0, path_offset(op)) + nsp + os.subrange(
            path_offset(op) + op.path_len,
            os.len() as int,
        ),
    ensures
        wf(np, ns),
        scheme_of(np, ns) == scheme_of(op, os),
        authority_of(np, ns) == authority_of(op, os),
        path_of(np, ns) == nsp,
        query_of(np, ns) == query_of(op, os),
        fragment_of(np, ns) == fragment_of(op, os),
{
    lemma_wf_parts(op, os);
    let ss = os.subrange(0, scheme_part_len(op));
    let sa = os.subrange(scheme_part_len(op), path_offset(op));
    let sq = os.subrange(
        path_offset(op) + op.path_len,
        path_offset(op) + op.path_len + query_part_len(op),
    );
    let sf = os.subrange(path_offset(op) + op.path_len + query_part_len(op), os.len() as int);
    assert(ns =~= ss + sa + nsp + sq + sf);
    lemma_concat_parts(np, ss, sa, nsp, sq, sf);
    assert(scheme_of(op, os) == (match op.scheme_len {
        Some(n) => Some(ss.subrange(0, n as int)),
        None => None::<Seq<u8>>,
    })) by {
        if op.scheme_len is Some {
            assert(os.subrange(0, op.scheme_len->Some_0 as int) =~= ss.subrange(
                0,
                op.scheme_len->Some_0 as int,
            ));
        }
    }
    assert(authority_of(op, os) == (match op.authority {
        Some(a) => Some(sa.subrange(2, sa.len() as int)),
        None => None::<Seq<u8>>,
    })) by {
        if op.authority is Some {
            let a = op.authority->Some_0;
            assert(os.subrange(authority_offset(op), authority_offset(op) + authority_span_len(a))
                =~= sa.subrange(2, sa.len() as int));
        }
    }
    assert(query_of(op, os) == (match op.query_len {
        Some(n) => Some(sq.subrange(1, sq.len() as int)),
        None => None::<Seq<u8>>,
    })) by {
        if op.query_len is Some {
            let n = op.query_len->Some_0;
            assert(os.subrange(query_offset(op), query_offset(op) + n) =~= sq.subrange(
                1,
                sq.len() as int,
            ));
        }
    }
    assert(fragment_of(op, os) == (match op.fragment_len {
        Some(n) => Some(sf.subrange(1, sf.len() as int)),
        None => None::<Seq<u8>>,
    })) by {
        if op.fragment_len is Some {
            let n = op.fragment_len->Some_0;
            assert(os.subrange(fragment_offset(op), fragment_offset(op) + n) =~= sf.subrange(
                1,
                sf.len() as int,
            ));
        }
    }
}

/// Length of an authority's userinfo sub-part including its `@`, 0 when
/// absent; the host starts here within the span.
pub open spec fn auth_userinfo_part_len(a: ParsedAuthority) -> int {
    match a.userinfo_len {
        Some(n) => n + 1,
        None => 0,
    }
}

/// An authority span with its userinfo replaced (or removed).
pub open spec fn userinfo_replaced(a: ParsedAuthority, sa: Seq<u8>, u: Option<Seq<u8>>) -> Seq<
    u8,
> {
    (match u {
        Some(x) => x + seq![64u8],
        None => Seq::<u8>::empty(),
    }) + sa.subrange(auth_userinfo_part_len(a), sa.len() as int)
}

/// An authority span with its host replaced.
pub open spec fn host_replaced(a: ParsedAuthority, sa: Seq<u8>, h: Seq<u8>) -> Seq<u8> {
    sa.subrange(0, auth_userinfo_part_len(a)) + h + sa.subrange(
        auth_userinfo_part_len(a) + a.host_len,
        sa.len() as int,
    )
}

/// An authority span with its port replaced (or removed).
pub open spec fn port_replaced(a: ParsedAuthority, sa: Seq<u8>, p: Option<Seq<u8>>) -> Seq<u8> {
    sa.subrange(0, auth_userinfo_part_len(a) + a.host_len) + (match p {
        Some(x) => seq![58u8] + x,
        None => Seq::<u8>::empty(),
    })
}

fn extend_bytes(v: &mut Vec<u8>, s: &[u8])
    requires
        old(v)@.len() + s@.len() <= usize::MAX,
    ensures
        final(v)@ == old(v)@ + s@,
{
    let ghost pre = v@;
    let mut k: usize = 0;
    while k < s.len()
        invariant
            0 <= k <= s@.len(),
            v@ == pre + s@.subrange(0, k as int),
            pre.len() + s@.len() <= usize::MAX,
        decreases s@.len() - k,
    {
        let b = s[k];
        v.push(b);
        proof {
            assert(pre + s@.subrange(0, k + 1) =~= (pre + s@.subrange(0, k as int)).push(b));
        }
        k += 1;
    }
    proof {
        assert(s@.subrange(0, s@.len() as int) =~= s@);
    }
}

/// Owned IRI reference: an exclusively owned byte buffer and its
/// descriptor.
pub struct IriRefBuf {
    pub(crate) p: ParsedIriRef,
    pub(crate) data: Vec<u8>,
}

/// Borrowed IRI reference: a borrowed byte slice and its descriptor.
/// Constructing one never copies the input bytes.
pub struct IriRef<'a> {
    pub(crate) p: ParsedIriRef,
    pub(crate) data: &'a [u8],
}

impl View for IriRefBuf {
    type V = Seq<u8>;

    closed spec fn view(&self) -> Seq<u8> {
        self.data@
    }
}

impl<'a> View for IriRef<'a> {
    type V = Seq<u8>;

    closed spec fn view(&self) -> Seq<u8> {
        self.data@
    }
}

impl IriRefBuf {
    /// The component descriptor.
    pub closed spec fn parts(&self) -> ParsedIriRef {
        self.p
    }

    /// The descriptor matches the buffer's bytes.
    pub open spec fn wf(&self) -> bool {
        wf(self.parts(), self@)
    }

    /// The scheme bytes, when a scheme is present.
    pub open spec fn spec_scheme(&self) -> Option<Seq<u8>> {
        scheme_of(self.parts(), self@)
    }

    /// The authority span bytes, when an authority is present.
    pub open spec fn spec_authority(&self) -> Option<Seq<u8>> {
        authority_of(self.parts(), self@)
    }

    /// The path bytes (always present, possibly empty).
    pub open spec fn spec_path(&self) -> Seq<u8> {
        path_of(self.parts(), self@)
    }

    /// The query bytes, when a query is present.
    pub open spec fn spec_query(&self) -> Option<Seq<u8>> {
        query_of(self.parts(), self@)
    }

    /// The fragment bytes, when a fragment is present.
    pub open spec fn spec_fragment(&self) -> Option<Seq<u8>> {
        fragment_of(self.parts(), self@)
    }

    /// Parse an IRI reference, taking a copy of the input bytes.
    /// Succeeds exactly when the whole input matches the IRI-reference
    /// grammar; the stored text is the input, byte for byte.
    pub fn new(buffer: &[u8]) -> (r: Result<IriRefBuf, Error>)
        ensures
            r is Ok <==> spec_parse(buffer@) is Some,
            r matches Ok(b) ==> b@ == buffer@ && b.wf() && b.parts() == spec_parse(
                buffer@,
            )->Some_0,
    {
        match parse_iri_ref(buffer) {
            Ok(p) => Ok(IriRefBuf { p, data: slice_to_vec(buffer) }),
            Err(e) => Err(e),
        }
    }

    /// The borrowed view of this reference, sharing its bytes.
    pub fn as_iri_ref<'a>(&'a self) -> (r: IriRef<'a>)
        ensures
            r@ == self@,
            r.parts() == self.parts(),
            self.wf() ==> r.wf(),
    {
        IriRef { p: self.p, data: self.data.as_slice() }
    }

    /// Length in bytes.
    pub fn len(&self) -> (r: usize)
        ensures
            r == self@.len(),
    {
        self.data.len()
    }

    /// The exact stored bytes; no re-encoding of any kind.
    pub fn as_bytes(&self) -> (r: &[u8])
        ensures
            r@ == self@,
    {
        self.data.as_slice()
    }

    /// Splice `start..end` of the buffer, leaving the descriptor alone.
    pub(crate) fn replace(&mut self, start: usize, end: usize, content: &[u8])
        requires
            start <= end <= old(self)@.len(),
            old(self)@.len() - (end - start) + content@.len() <= usize::MAX,
        ensures
            final(self)@ == old(self)@.subrange(0, start as int) + content@ + old(
                self,
            )@.subrange(end as int, old(self)@.len() as int),
            final(self).parts() == old(self).parts(),
    {
        crate::replace(&mut self.data, start, end, content)
    }

    /// Offset of the first path byte.
    pub(crate) fn path_offset_exec(&self) -> (r: usize)
        requires
            self.wf(),
        ensures
            r == path_offset(self.parts()),
            r <= self@.len(),
    {
        let total = self.data.len();
        proof {
            assert(total_len(self.parts()) == self@.len());
        }
        let sp: usize = match self.p.scheme_len {
            Some(n) => n + 1,
            None => 0,
        };
        let ap: usize = match self.p.authority {
            Some(a) => {
                let u: usize = match a.userinfo_len {
                    Some(n) => n + 1,
                    None => 0,
                };
                let po: usize = match a.port_len {
                    Some(n) => n + 1,
                    None => 0,
                };
                2 + u + a.host_len + po
            },
            None => 0,
        };
        sp + ap
    }

    /// Set or remove the query.
    ///
    /// The new content must be a syntactically correct query; if it is
    /// not, an error is returned and the reference is unchanged, byte for
    /// byte.  An empty query is a present query, distinct from an absent
    /// one.
    #[verifier::rlimit(100)]
    #[verifier::spinoff_prover]
    pub fn set_raw_query(&mut self, query: Option<&[u8]>) -> (r: Result<(), Error>)
        requires
            old(self).wf(),
            old(self)@.len() + (match query {
                Some(q) => q@.len() + 1,
                None => 0,
            }) <= usize::MAX,
        ensures
            final(self).wf(),
            r is Err ==> final(self)@ == old(self)@ && final(self).parts() == old(self).parts(),
            (match query {
                None => r is Ok,
                Some(q) => r is Ok <==> is_valid_query(q@),
            }),
            r is Ok ==> {
                &&& final(self).spec_query() == (match query {
                    Some(q) => Some(q@),
                    None => None::<Seq<u8>>,
                })
                &&& final(self).spec_scheme() == old(self).spec_scheme()
                &&& final(self).spec_authority() == old(self).spec_authority()
                &&& final(self).spec_path() == old(self).spec_path()
                &&& final(self).spec_fragment() == old(self).spec_fragment()
            },
    {
        let ghost op = old(self).parts();
        let ghost os = old(self)@;
        let pe = self.path_end_exec();
        match query {
            None => {
                match self.p.query_len {
                    Some(qlen) => {
                        self.replace(pe, pe + 1 + qlen, &[]);
                        self.p.query_len = None;
                        proof {
                            let np = self.parts();
                            assert(self@ =~= os.subrange(0, pe as int) + Seq::<u8>::empty()
                                + os.subrange(pe + query_part_len(op), os.len() as int));
                            lemma_query_swapped(op, np, os, self@, Seq::<u8>::empty());
                        }
                    },
                    None => {},
                }
                Ok(())
            },
            Some(q) => {
                let n = scan_class(q, 0, CharClass::Query);
                if n != q.len() {
                    return Err(Error::Invalid);
                }
                match self.p.query_len {
                    Some(qlen) => {
                        self.replace(pe + 1, pe + 1 + qlen, q);
                    },
                    None => {
                        self.replace(pe, pe, &[63]);
                        let ghost mid = self@;
                        self.replace(pe + 1, pe + 1, q);
                        proof {
                            assert(mid.subrange(0, pe + 1) =~= os.subrange(0, pe as int) + seq![
                                63u8,
                            ]);
                            assert(mid.subrange(pe + 1, mid.len() as int) =~= os.subrange(
                                pe as int,
                                os.len() as int,
                            ));
                        }
                    },
                }
                self.p.query_len = Some(q.len());
                proof {
                    let np = self.parts();
                    let nq = seq![63u8] + q@;
                    assert(query_part_ok(np, nq)) by {
                        assert(nq.subrange(1, nq.len() as int) =~= q@);
                    }
                    assert(self@ =~= os.subrange(0, pe as int) + nq + os.subrange(
                        pe + query_part_len(op),
                        os.len() as int,
                    ));
                    lemma_query_swapped(op, np, os, self@, nq);
                    assert(nq.subrange(1, nq.len() as int) =~= q@);
                }
                Ok(())
            },
        }
    }

    /// Set or remove the query (text form).
    pub fn set_query(&mut self, query: Option<&[u8]>) -> (r: Result<(), Error>)
        requires
            old(self).wf(),
            old(self)@.len() + (match query {
                Some(q) => q@.len() + 1,
                None => 0,
            }) <= usize::MAX,
        ensures
            final(self).wf(),
            r is Err ==> final(self)@ == old(self)@ && final(self).parts() == old(self).parts(),
            (match query {
                None => r is Ok,
                Some(q) => r is Ok <==> is_valid_query(q@),
            }),
            r is Ok ==> {
                &&& final(self).spec_query() == (match query {
                    Some(q) => Some(q@),
                    None => None::<Seq<u8>>,
                })
                &&& final(self).spec_scheme() == old(self).spec_scheme()
                &&& final(self).spec_authority() == old(self).spec_authority()
                &&& final(self).spec_path() == old(self).spec_path()
                &&& final(self).spec_fragment() == old(self).spec_fragment()
            },
    {
        self.set_raw_query(query)
    }

    /// Set or remove the scheme.
    ///
    /// The new scheme must be syntactically correct (a letter followed by
    /// scheme characters); if it is not, an error is returned and the
    /// reference is unchanged, byte for byte.
    #[verifier::rlimit(100)]
    #[verifier::spinoff_prover]
    pub fn set_raw_scheme(&mut self, scheme: Option<&[u8]>) -> (r: Result<(), Error>)
        requires
            old(self).wf(),
            old(self)@.len() + (match scheme {
                Some(sc) => sc@.len() + 1,
                None => 0,
            }) <= usize::MAX,
        ensures
            final(self).wf(),
            r is Err ==> final(self)@ == old(self)@ && final(self).parts() == old(self).parts(),
            (match scheme {
                None => r is Ok,
                Some(sc) => r is Ok <==> is_valid_scheme(sc@),
            }),
            r is Ok ==> {
                &&& final(self).spec_scheme() == (match scheme {
                    Some(sc) => Some(sc@),
                    None => None::<Seq<u8>>,
                })
                &&& final(self).spec_authority() == old(self).spec_authority()
                &&& final(self).spec_path() == old(self).spec_path()
                &&& final(self).spec_query() == old(self).spec_query()
                &&& final(self).spec_fragment() == old(self).spec_fragment()
            },
    {
        let ghost op = old(self).parts();
        let ghost os = old(self)@;
        let total = self.data.len();
        proof {
            assert(total_len(op) == os.len());
        }
        match scheme {
            None => {
                match self.p.scheme_len {
                    Some(n) => {
                        self.replace(0, n + 1, &[]);
                        self.p.scheme_len = None;
                        proof {
                            let np = self.parts();
                            assert(self@ =~= Seq::<u8>::empty() + os.subrange(
                                scheme_part_len(op),
                                os.len() as int,
                            ));
                            lemma_scheme_swapped(op, np, os, self@, Seq::<u8>::empty());
                            lemma_scheme_swapped_rest(op, np, os, self@, Seq::<u8>::empty());
                        }
                    },
                    None => {},
                }
                Ok(())
            },
            Some(sc) => {
                let n = scan_class(sc, 0, CharClass::Scheme);
                if sc.len() == 0 || !is_alpha_exec(sc[0]) || n != sc.len() {
                    return Err(Error::Invalid);
                }
                match self.p.scheme_len {
                    Some(old_n) => {
                        self.replace(0, old_n, sc);
                        proof {
                            assert(os[op.scheme_len->Some_0 as int] == 58);
                        }
                    },
                    None => {
                        self.replace(0, 0, &[58]);
                        let ghost mid = self@;
                        self.replace(0, 0, sc);
                        proof {
                            assert(mid =~= seq![58u8] + os);
                            assert(mid.subrange(0, 0) =~= Seq::<u8>::empty());
                        }
                    },
                }
                self.p.scheme_len = Some(sc.len());
                proof {
                    let np = self.parts();
                    let nss = sc@ + seq![58u8];
                    assert(scheme_part_ok(np, nss)) by {
                        assert(nss.subrange(0, nss.len() - 1) =~= sc@);
                    }
                    assert(self@ =~= nss + os.subrange(scheme_part_len(op), os.len() as int));
                    lemma_scheme_swapped(op, np, os, self@, nss);
                    lemma_scheme_swapped_rest(op, np, os, self@, nss);
                    assert(nss.subrange(0, nss.len() - 1) =~= sc@);
                }
                Ok(())
            },
        }
    }

    /// Set or remove the scheme.
    pub fn set_scheme(&mut self, scheme: Option<&[u8]>) -> (r: Result<(), Error>)
        requires
            old(self).wf(),
            old(self)@.len() + (match scheme {
                Some(sc) => sc@.len() + 1,
                None => 0,
            }) <= usize::MAX,
        ensures
            final(self).wf(),
            r is Err ==> final(self)@ == old(self)@ && final(self).parts() == old(self).parts(),
            (match scheme {
                None => r is Ok,
                Some(sc) => r is Ok <==> is_valid_scheme(sc@),
            }),
            r is Ok ==> {
                &&& final(self).spec_scheme() == (match scheme {
                    Some(sc) => Some(sc@),
                    None => None::<Seq<u8>>,
                })
                &&& final(self).spec_authority() == old(self).spec_authority()
                &&& final(self).spec_path() == old(self).spec_path()
                &&& final(self).spec_query() == old(self).spec_query()
                &&& final(self).spec_fragment() == old(self).spec_fragment()
            },
    {
        self.set_raw_scheme(scheme)
    }

    /// Set or remove the authority.
    ///
    /// The new content must be a syntactically correct authority; if it
    /// is not, an error is returned and the reference is unchanged, byte
    /// for byte.
    #[verifier::rlimit(100)]
    #[verifier::spinoff_prover]
    pub fn set_authority(&mut self, authority: Option<&[u8]>) -> (r: Result<(), Error>)
        requires
            old(self).wf(),
            old(self)@.len() + (match authority {
                Some(au) => au@.len() + 2,
                None => 0,
            }) <= usize::MAX,
        ensures
            final(self).wf(),
            r is Err ==> final(self)@ == old(self)@ && final(self).parts() == old(self).parts(),
            (match authority {
                None => r is Ok,
                Some(au) => r is Ok <==> is_valid_authority(au@),
            }),
            r is Ok ==> {
                &&& final(self).spec_authority() == (match authority {
                    Some(au) => Some(au@),
                    None => None::<Seq<u8>>,
                })
                &&& (match authority {
                    Some(au) => final(self).parts().authority == spec_parse_authority(au@),
                    None => final(self).parts().authority is None,
                })
                &&& final(self).spec_scheme() == old(self).spec_scheme()
                &&& final(self).spec_path() == old(self).spec_path()
                &&& final(self).spec_query() == old(self).spec_query()
                &&& final(self).spec_fragment() == old(self).spec_fragment()
            },
    {
        let ghost op = old(self).parts();
        let ghost os = old(self)@;
        let total = self.data.len();
        proof {
            assert(total_len(op) == os.len());
        }
        let sp: usize = match self.p.scheme_len {
            Some(n) => n + 1,
            None => 0,
        };
        match authority {
            None => {
                match self.p.authority {
                    Some(a) => {
                        let u: usize = match a.userinfo_len {
                            Some(n) => n + 1,
                            None => 0,
                        };
                        let po: usize = match a.port_len {
                            Some(n) => n + 1,
                            None => 0,
                        };
                        let span: usize = u + a.host_len + po;
                        self.replace(sp, sp + 2 + span, &[]);
                        self.p.authority = None;
                        proof {
                            let np = self.parts();
                            assert(self@ =~= os.subrange(0, scheme_part_len(op))
                                + Seq::<u8>::empty() + os.subrange(path_offset(op), os.len() as int));
                            lemma_authority_swapped(op, np, os, self@, Seq::<u8>::empty());
                        }
                    },
                    None => {},
                }
                Ok(())
            },
            Some(au) => {
                let pa = match parse_authority(au) {
                    Ok(pa) => pa,
                    Err(e) => {
                        return Err(e);
                    },
                };
                proof {
                    crate::parsing::lemma_authority_span_len(au@);
                    assert(authority_span_len(pa) == au@.len());
                }
                match self.p.authority {
                    Some(a) => {
                        let u: usize = match a.userinfo_len {
                            Some(n) => n + 1,
                            None => 0,
                        };
                        let po: usize = match a.port_len {
                            Some(n) => n + 1,
                            None => 0,
                        };
                        let span: usize = u + a.host_len + po;
                        self.replace(sp + 2, sp + 2 + span, au);
                        proof {
                            assert(os[scheme_part_len(op)] == 47);
                            assert(os[scheme_part_len(op) + 1] == 47);
                        }
                    },
                    None => {
                        self.replace(sp, sp, &[47, 47]);
                        let ghost mid = self@;
                        self.replace(sp + 2, sp + 2, au);
                        proof {
                            assert(mid.subrange(0, sp + 2) =~= os.subrange(0, sp as int) + seq![
                                47u8,
                                47u8,
                            ]);
                            assert(mid.subrange(sp + 2, mid.len() as int) =~= os.subrange(
                                sp as int,
                                os.len() as int,
                            ));
                        }
                    },
                }
                self.p.authority = Some(pa);
                proof {
                    let np = self.parts();
                    let na = seq![47u8, 47u8] + au@;
                    assert(authority_part_ok(np, na)) by {
                        assert(na.subrange(2, na.len() as int) =~= au@);
                    }
                    assert(self@ =~= os.subrange(0, scheme_part_len(op)) + na + os.subrange(
                        path_offset(op),
                        os.len() as int,
                    ));
                    lemma_authority_swapped(op, np, os, self@, na);
                    assert(na.subrange(2, na.len() as int) =~= au@);
                }
                Ok(())
            },
        }
    }

    /// Replace or remove the userinfo of the present authority.
    ///
    /// The span rebuilt from the new userinfo and the unchanged host and
    /// port must be a syntactically correct authority; if it is not, an
    /// error is returned and the reference is unchanged, byte for byte.
    #[verifier::rlimit(100)]
    #[verifier::spinoff_prover]
    pub fn set_userinfo(&mut self, userinfo: Option<&[u8]>) -> (r: Result<(), Error>)
        requires
            old(self).wf(),
            old(self).parts().authority is Some,
            2 * old(self)@.len() + (match userinfo {
                Some(u) => u@.len(),
                None => 0,
            }) + 3 <= usize::MAX,
        ensures
            final(self).wf(),
            r is Err ==> final(self)@ == old(self)@ && final(self).parts() == old(self).parts(),
            ({
                let a = old(self).parts().authority->Some_0;
                let sa = old(self).spec_authority()->Some_0;
                let ns = userinfo_replaced(
                    a,
                    sa,
                    match userinfo {
                        Some(u) => Some(u@),
                        None => None::<Seq<u8>>,
                    },
                );
                &&& (r is Ok <==> is_valid_authority(ns))
                &&& (r is Ok ==> {
                    &&& final(self).spec_authority() == Some(ns)
                    &&& final(self).parts().authority == spec_parse_authority(ns)
                    &&& final(self).spec_scheme() == old(self).spec_scheme()
                    &&& final(self).spec_path() == old(self).spec_path()
                    &&& final(self).spec_query() == old(self).spec_query()
                    &&& final(self).spec_fragment() == old(self).spec_fragment()
                })
            }),
    {
        proof {
            assert(total_len(old(self).parts()) == old(self)@.len());
        }
        let built: Vec<u8> = {
            let a = match self.authority() {
                Some(a) => a,
                None => {
                    proof {
                        assert(false);
                    }
                    return Err(Error::Invalid);
                },
            };
            let sa = a.as_bytes();
            let ho: usize = match a.parts.userinfo_len {
                Some(n) => n + 1,
                None => 0,
            };
            proof {
                crate::parsing::lemma_authority_span_len(sa@);
            }
            let mut v: Vec<u8> = Vec::new();
            match userinfo {
                Some(u) => {
                    extend_bytes(&mut v, u);
                    v.push(64);
                },
                None => {},
            }
            let ghost head = v@;
            extend_bytes(&mut v, slice_subrange(sa, ho, sa.len()));
            proof {
                match userinfo {
                    Some(u) => {
                        assert(head =~= u@ + seq![64u8]);
                    },
                    None => {
                        assert(head =~= Seq::<u8>::empty());
                    },
                }
                assert(v@ =~= userinfo_replaced(
                    a.parts(),
                    sa@,
                    match userinfo {
                        Some(u) => Some(u@),
                        None => None::<Seq<u8>>,
                    },
                ));
            }
            v
        };
        self.set_authority(Some(built.as_slice()))
    }

    /// Replace the host of the present authority.
    ///
    /// The span rebuilt from the unchanged userinfo, the new host and the
    /// unchanged port must be a syntactically correct authority; if it is
    /// not, an error is returned and the reference is unchanged, byte for
    /// byte.
    #[verifier::rlimit(100)]
    #[verifier::spinoff_prover]
    pub fn set_host(&mut self, host: &[u8]) -> (r: Result<(), Error>)
        requires
            old(self).wf(),
            old(self).parts().authority is Some,
            2 * old(self)@.len() + host@.len() + 3 <= usize::MAX,
        ensures
            final(self).wf(),
            r is Err ==> final(self)@ == old(self)@ && final(self).parts() == old(self).parts(),
            ({
                let a = old(self).parts().authority->Some_0;
                let sa = old(self).spec_authority()->Some_0;
                let ns = host_replaced(a, sa, host@);
                &&& (r is Ok <==> is_valid_authority(ns))
                &&& (r is Ok ==> {
                    &&& final(self).spec_authority() == Some(ns)
                    &&& final(self).parts().authority == spec_parse_authority(ns)
                    &&& final(self).spec_scheme() == old(self).spec_scheme()
                    &&& final(self).spec_path() == old(self).spec_path()
                    &&& final(self).spec_query() == old(self).spec_query()
                    &&& final(self).spec_fragment() == old(self).spec_fragment()
                })
            }),
    {
        proof {
            assert(total_len(old(self).parts()) == old(self)@.len());
        }
        let built: Vec<u8> = {
            let a = match self.authority() {
                Some(a) => a,
                None => {
                    proof {
                        assert(false);
                    }
                    return Err(Error::Invalid);
                },
            };
            let sa = a.as_bytes();
            let ho: usize = match a.parts.userinfo_len {
                Some(n) => n + 1,
                None => 0,
            };
            proof {
                crate::parsing::lemma_authority_span_len(sa@);
            }
            let mut v: Vec<u8> = Vec::new();
            extend_bytes(&mut v, slice_subrange(sa, 0, ho));
            extend_bytes(&mut v, host);
            extend_bytes(&mut v, slice_subrange(sa, ho + a.parts.host_len, sa.len()));
            proof {
                assert(v@ =~= host_replaced(a.parts(), sa@, host@));
            }
            v
        };
        self.set_authority(Some(built.as_slice()))
    }

    /// Replace or remove the port of the present authority.
    ///
    /// The span rebuilt from the unchanged userinfo and host and the new
    /// port must be a syntactically correct authority; if it is not, an
    /// error is returned and the reference is unchanged, byte for byte.
    #[verifier::rlimit(100)]
    #[verifier::spinoff_prover]
    pub fn set_port(&mut self, port: Option<&[u8]>) -> (r: Result<(), Error>)
        requires
            old(self).wf(),
            old(self).parts().authority is Some,
            2 * old(self)@.len() + (match port {
                Some(p) => p@.len(),
                None => 0,
            }) + 3 <= usize::MAX,
        ensures
            final(self).wf(),
            r is Err ==> final(self)@ == old(self)@ && final(self).parts() == old(self).parts(),
            ({
                let a = old(self).parts().authority->Some_0;
                let sa = old(self).spec_authority()->Some_0;
                let ns = port_replaced(
                    a,
                    sa,
                    match port {
                        Some(p) => Some(p@),
                        None => None::<Seq<u8>>,
                    },
                );
                &&& (r is Ok <==> is_valid_authority(ns))
                &&& (r is Ok ==> {
                    &&& final(self).spec_authority() == Some(ns)
                    &&& final(self).parts().authority == spec_parse_authority(ns)
                    &&& final(self).spec_scheme() == old(self).spec_scheme()
                    &&& final(self).spec_path() == old(self).spec_path()
                    &&& final(self).spec_query() == old(self).spec_query()
                    &&& final(self).spec_fragment() == old(self).spec_fragment()
                })
            }),
    {
        proof {
            assert(total_len(old(self).parts()) == old(self)@.len());
        }
        let built: Vec<u8> = {
            let a = match self.authority() {
                Some(a) => a,
                None => {
                    proof {
                        assert(false);
                    }
                    return Err(Error::Invalid);
                },
            };
            let sa = a.as_bytes();
            let ho: usize = match a.parts.userinfo_len {
                Some(n) => n + 1,
                None => 0,
            };
            proof {
                crate::parsing::lemma_authority_span_len(sa@);
            }
            let mut v: Vec<u8> = Vec::new();
            extend_bytes(&mut v, slice_subrange(sa, 0, ho + a.parts.host_len));
            match port {
                Some(p) => {
                    v.push(58);
                    extend_bytes(&mut v, p);
                },
                None => {},
            }
            proof {
                assert(v@ =~= port_replaced(
                    a.parts(),
                    sa@,
                    match port {
                        Some(p) => Some(p@),
                        None => None::<Seq<u8>>,
                    },
                ));
            }
            v
        };
        self.set_authority(Some(built.as_slice()))
    }

    /// Set the path.
    ///
    /// The new content must be a syntactically correct path; if it is
    /// not, an error is returned and the reference is unchanged, byte for
    /// byte.
    #[verifier::rlimit(100)]
    #[verifier::spinoff_prover]
    pub fn set_path(&mut self, path: &[u8]) -> (r: Result<(), Error>)
        requires
            old(self).wf(),
            old(self)@.len() + path@.len() <= usize::MAX,
        ensures
            final(self).wf(),
            r is Err ==> final(self)@ == old(self)@ && final(self).parts() == old(self).parts(),
            r is Ok <==> is_valid_path(path@),
            r is Ok ==> {
                &&& final(self).spec_path() == path@
                &&& final(self).spec_scheme() == old(self).spec_scheme()
                &&& final(self).spec_authority() == old(self).spec_authority()
                &&& final(self).spec_query() == old(self).spec_query()
                &&& final(self).spec_fragment() == old(self).spec_fragment()
            },
    {
        let ghost op = old(self).parts();
        let ghost os = old(self)@;
        proof {
            lemma_wf_parts(op, os);
        }
        let ghost ss = os.subrange(0, scheme_part_len(op));
        let ghost sa = os.subrange(scheme_part_len(op), path_offset(op));
        let ghost sp_ = os.subrange(path_offset(op), path_offset(op) + op.path_len);
        let ghost sq = os.subrange(
            path_offset(op) + op.path_len,
            path_offset(op) + op.path_len + query_part_len(op),
        );
        let ghost sf = os.subrange(path_offset(op) + op.path_len + query_part_len(op), os.len() as int);
        let n = scan_class(path, 0, CharClass::Path);
        if n != path.len() {
            return Err(Error::Invalid);
        }
        let po = self.path_offset_exec();
        let pl = self.p.path_len;
        self.replace(po, po + pl, path);
        self.p.path_len = path.len();
        proof {
            let np = self.parts();
            assert(self@ =~= ss + sa + path@ + sq + sf);
            lemma_concat_parts(np, ss, sa, path@, sq, sf);
        }
        Ok(())
    }

    /// Set or remove the fragment.
    ///
    /// The new content must be a syntactically correct fragment; if it is
    /// not, an error is returned and the reference is unchanged, byte for
    /// byte.  An empty fragment is a present fragment, distinct from an
    /// absent one.
    #[verifier::rlimit(100)]
    #[verifier::spinoff_prover]
    pub fn set_raw_fragment(&mut self, fragment: Option<&[u8]>) -> (r: Result<(), Error>)
        requires
            old(self).wf(),
            old(self)@.len() + (match fragment {
                Some(f) => f@.len() + 1,
                None => 0,
            }) <= usize::MAX,
        ensures
            final(self).wf(),
            r is Err ==> final(self)@ == old(self)@ && final(self).parts() == old(self).parts(),
            (match fragment {
                None => r is Ok,
                Some(f) => r is Ok <==> is_valid_fragment(f@),
            }),
            r is Ok ==> {
                &&& final(self).spec_fragment() == (match fragment {
                    Some(f) => Some(f@),
                    None => None::<Seq<u8>>,
                })
                &&& final(self).spec_scheme() == old(self).spec_scheme()
                &&& final(self).spec_authority() == old(self).spec_authority()
                &&& final(self).spec_path() == old(self).spec_path()
                &&& final(self).spec_query() == old(self).spec_query()
            },
    {
        let ghost op = old(self).parts();
        let ghost os = old(self)@;
        proof {
            lemma_wf_parts(op, os);
        }
        let ghost ss = os.subrange(0, scheme_part_len(op));
        let ghost sa = os.subrange(scheme_part_len(op), path_offset(op));
        let ghost sp_ = os.subrange(path_offset(op), path_offset(op) + op.path_len);
        let ghost sq = os.subrange(
            path_offset(op) + op.path_len,
            path_offset(op) + op.path_len + query_part_len(op),
        );
        let ghost sf = os.subrange(path_offset(op) + op.path_len + query_part_len(op), os.len() as int);
        let pe = self.path_end_exec();
        let qpl: usize = match self.p.query_len {
            Some(n) => n + 1,
            None => 0,
        };
        let total = self.data.len();
        proof {
            assert(total_len(op) == os.len());
        }
        let fe = pe + qpl;
        match fragment {
            None => {
                match self.p.fragment_len {
                    Some(flen) => {
                        self.replace(fe, fe + 1 + flen, &[]);
                        self.p.fragment_len = None;
                        proof {
                            let np = self.parts();
                            assert(self@ =~= ss + sa + sp_ + sq + Seq::<u8>::empty());
                            lemma_concat_parts(np, ss, sa, sp_, sq, Seq::<u8>::empty());
                        }
                    },
                    None => {
                        proof {
                            assert(self@ =~= ss + sa + sp_ + sq + sf);
                            lemma_concat_parts(op, ss, sa, sp_, sq, sf);
                        }
                    },
                }
                Ok(())
            },
            Some(f) => {
                let n = scan_class(f, 0, CharClass::Fragment);
                if n != f.len() {
                    return Err(Error::Invalid);
                }
                match self.p.fragment_len {
                    Some(flen) => {
                        self.replace(fe + 1, fe + 1 + flen, f);
                    },
                    None => {
                        self.replace(fe, fe, &[35]);
                        let ghost mid = self@;
                        self.replace(fe + 1, fe + 1, f);
                        proof {
                            assert(mid.subrange(0, fe + 1) =~= os.subrange(0, fe as int) + seq![
                                35u8,
                            ]);
                            assert(mid.subrange(fe + 1, mid.len() as int) =~= os.subrange(
                                fe as int,
                                os.len() as int,
                            ));
                        }
                    },
                }
                self.p.fragment_len = Some(f.len());
                proof {
                    let np = self.parts();
                    let nf = seq![35u8] + f@;
                    assert(fragment_part_ok(np, nf)) by {
                        assert(nf.subrange(1, nf.len() as int) =~= f@);
                    }
                    assert(self@ =~= ss + sa + sp_ + sq + nf);
                    lemma_concat_parts(np, ss, sa, sp_, sq, nf);
                    assert(nf.subrange(1, nf.len() as int) =~= f@);
                }
                Ok(())
            },
        }
    }

    /// Set or remove the fragment.
    pub fn set_fragment(&mut self, fragment: Option<&[u8]>) -> (r: Result<(), Error>)
        requires
            old(self).wf(),
            old(self)@.len() + (match fragment {
                Some(f) => f@.len() + 1,
                None => 0,
            }) <= usize::MAX,
        ensures
            final(self).wf(),
            r is Err ==> final(self)@ == old(self)@ && final(self).parts() == old(self).parts(),
            (match fragment {
                None => r is Ok,
                Some(f) => r is Ok <==> is_valid_fragment(f@),
            }),
            r is Ok ==> {
                &&& final(self).spec_fragment() == (match fragment {
                    Some(f) => Some(f@),
                    None => None::<Seq<u8>>,
                })
                &&& final(self).spec_scheme() == old(self).spec_scheme()
                &&& final(self).spec_authority() == old(self).spec_authority()
                &&& final(self).spec_path() == old(self).spec_path()
                &&& final(self).spec_query() == old(self).spec_query()
            },
    {
        self.set_raw_fragment(fragment)
    }

    /// The scheme bytes, when a scheme is present.
    pub fn scheme(&self) -> (r: Option<&[u8]>)
        requires
            self.wf(),
        ensures
            r is Some <==> self.spec_scheme() is Some,
            r matches Some(v) ==> Some(v@) == self.spec_scheme(),
    {
        let total = self.data.len();
        proof {
            assert(total_len(self.parts()) == self@.len());
        }
        match self.p.scheme_len {
            Some(n) => Some(slice_subrange(self.data.as_slice(), 0, n)),
            None => None,
        }
    }

    /// The authority, when one is present.
    pub fn authority(&self) -> (r: Option<Authority<'_>>)
        requires
            self.wf(),
        ensures
            r is Some <==> self.parts().authority is Some,
            r matches Some(a) ==> Some(a@) == self.spec_authority() && Some(a.parts())
                == self.parts().authority && a.wf(),
    {
        let total = self.data.len();
        proof {
            assert(total_len(self.parts()) == self@.len());
        }
        let sp: usize = match self.p.scheme_len {
            Some(n) => n + 1,
            None => 0,
        };
        match self.p.authority {
            Some(a) => {
                let u: usize = match a.userinfo_len {
                    Some(n) => n + 1,
                    None => 0,
                };
                let po: usize = match a.port_len {
                    Some(n) => n + 1,
                    None => 0,
                };
                let span: usize = u + a.host_len + po;
                Some(
                    Authority {
                        parts: a,
                        data: slice_subrange(self.data.as_slice(), sp + 2, sp + 2 + span),
                    },
                )
            },
            None => None,
        }
    }

    /// The path bytes (always present, possibly empty).
    pub fn path(&self) -> (r: &[u8])
        requires
            self.wf(),
        ensures
            r@ == self.spec_path(),
    {
        let po = self.path_offset_exec();
        let pe = self.path_end_exec();
        slice_subrange(self.data.as_slice(), po, pe)
    }

    /// The query bytes, when a query is present.  An empty query is
    /// present and empty, distinct from an absent one.
    pub fn query(&self) -> (r: Option<&[u8]>)
        requires
            self.wf(),
        ensures
            r is Some <==> self.spec_query() is Some,
            r matches Some(v) ==> Some(v@) == self.spec_query(),
    {
        let total = self.data.len();
        proof {
            assert(total_len(self.parts()) == self@.len());
        }
        let pe = self.path_end_exec();
        match self.p.query_len {
            Some(n) => Some(slice_subrange(self.data.as_slice(), pe + 1, pe + 1 + n)),
            None => None,
        }
    }

    /// The fragment bytes, when a fragment is present.  An empty fragment
    /// is present and empty, distinct from an absent one.
    pub fn fragment(&self) -> (r: Option<&[u8]>)
        requires
            self.wf(),
        ensures
            r is Some <==> self.spec_fragment() is Some,
            r matches Some(v) ==> Some(v@) == self.spec_fragment(),
    {
        let total = self.data.len();
        proof {
            assert(total_len(self.parts()) == self@.len());
        }
        let pe = self.path_end_exec();
        let qpl: usize = match self.p.query_len {
            Some(n) => n + 1,
            None => 0,
        };
        match self.p.fragment_len {
            Some(n) => Some(slice_subrange(self.data.as_slice(), pe + qpl + 1, pe + qpl + 1 + n)),
            None => None,
        }
    }

    /// Append a segment to the path.
    ///
    /// The segment must be syntactically correct (it may end in one
    /// `/`); if it is not, an error is returned and the reference is
    /// unchanged, byte for byte.  A `/` separator is inserted when the
    /// path is non-empty and does not already end in `/`.
    #[verifier::rlimit(100)]
    #[verifier::spinoff_prover]
    pub fn push(&mut self, segment: &[u8]) -> (r: Result<(), Error>)
        requires
            old(self).wf(),
            old(self)@.len() + segment@.len() + 1 <= usize::MAX,
        ensures
            final(self).wf(),
            r is Err ==> final(self)@ == old(self)@ && final(self).parts() == old(self).parts(),
            r is Ok <==> is_valid_segment(segment@),
            r is Ok ==> {
                &&& final(self).spec_path() == spec_push_path(old(self).spec_path(), segment@)
                &&& final(self).spec_scheme() == old(self).spec_scheme()
                &&& final(self).spec_authority() == old(self).spec_authority()
                &&& final(self).spec_query() == old(self).spec_query()
                &&& final(self).spec_fragment() == old(self).spec_fragment()
            },
    {
        let ghost op = old(self).parts();
        let ghost os = old(self)@;
        let n = scan_class(segment, 0, CharClass::Pchar);
        proof {
            lemma_segment_scan(segment@, n as int);
        }
        let ok = n == segment.len() || (segment.len() > 0 && n + 1 == segment.len()
            && segment[segment.len() - 1] == 47);
        if !ok {
            return Err(Error::Invalid);
        }
        let po = self.path_offset_exec();
        let pe = self.path_end_exec();
        let need_sep = pe > po && self.data[pe - 1] != 47;
        let mut ins: Vec<u8> = Vec::new();
        if need_sep {
            ins.push(47);
        }
        let mut k: usize = 0;
        let ghost pre = ins@;
        while k < segment.len()
            invariant
                0 <= k <= segment@.len(),
                ins@ == pre + segment@.subrange(0, k as int),
                pre.len() <= 1,
                segment@.len() + 1 <= usize::MAX,
            decreases segment@.len() - k,
        {
            let b = segment[k];
            ins.push(b);
            proof {
                assert(pre + segment@.subrange(0, k + 1) =~= (pre + segment@.subrange(
                    0,
                    k as int,
                )).push(b));
            }
            k += 1;
        }
        proof {
            assert(segment@.subrange(0, segment@.len() as int) =~= segment@);
            if need_sep {
                assert(ins@ =~= seq![47u8] + segment@);
            } else {
                assert(ins@ =~= segment@);
            }
        }
        self.replace(pe, pe, ins.as_slice());
        let new_len = self.p.path_len + ins.len();
        self.p.path_len = new_len;
        proof {
            let np = self.parts();
            lemma_wf_parts(op, os);
            let sp_ = os.subrange(path_offset(op), path_offset(op) + op.path_len);
            let nsp = sp_ + ins@;
            assert(path_part_ok(np, nsp)) by {
                lemma_segment_as_path(segment@);
                if need_sep {
                    let sl = seq![47u8];
                    assert(full_match(sl, CharClass::Path)) by {
                        assert(crate::grammar::scan(sl, 1, CharClass::Path) == 0);
                        assert(crate::grammar::scan(sl, 0, CharClass::Path) == 1
                            + crate::grammar::scan(sl, 1, CharClass::Path));
                    }
                    crate::grammar::lemma_full_concat(sl, segment@, CharClass::Path);
                    crate::grammar::lemma_full_concat(sp_, sl + segment@, CharClass::Path);
                    assert(nsp =~= sp_ + (sl + segment@));
                } else {
                    crate::grammar::lemma_full_concat(sp_, segment@, CharClass::Path);
                }
            }
            assert(self@ =~= os.subrange(0, path_offset(op)) + nsp + os.subrange(
                path_offset(op) + op.path_len,
                os.len() as int,
            ));
            lemma_path_swapped(op, np, os, self@, nsp);
            assert(spec_push_path(sp_, segment@) =~= nsp);
        }
        Ok(())
    }

    /// Remove the last path segment together with its separating `/`, if
    /// any; popping an empty path is a no-op.
    #[verifier::rlimit(100)]
    #[verifier::spinoff_prover]
    pub fn pop(&mut self)
        requires
            old(self).wf(),
        ensures
            final(self).wf(),
            final(self).spec_path() == spec_pop_path(old(self).spec_path()),
            final(self).spec_scheme() == old(self).spec_scheme(),
            final(self).spec_authority() == old(self).spec_authority(),
            final(self).spec_query() == old(self).spec_query(),
            final(self).spec_fragment() == old(self).spec_fragment(),
    {
        let ghost op = old(self).parts();
        let ghost os = old(self)@;
        let total = self.data.len();
        let po = self.path_offset_exec();
        let pe = self.path_end_exec();
        if pe == po {
            return ;
        }
        let jopt = {
            let pslice = slice_subrange(self.data.as_slice(), po, pe);
            crate::path::rfind_exec(pslice, 47)
        };
        let ghost sp_ = os.subrange(path_offset(op), path_offset(op) + op.path_len);
        let new_len: usize = match jopt {
            Some(j) => j,
            None => 0,
        };
        proof {
            crate::path::lemma_rfind_from(sp_, 47, sp_.len() as int);
            assert(new_len <= pe - po);
        }
        self.replace(po + new_len, pe, &[]);
        self.p.path_len = new_len;
        proof {
            let np = self.parts();
            lemma_wf_parts(op, os);
            let nsp = sp_.subrange(0, new_len as int);
            assert(path_part_ok(np, nsp)) by {
                if new_len > 0 {
                    assert(sp_[new_len as int] == 47);
                    crate::grammar::lemma_scan_split_at(sp_, new_len as int, CharClass::Path);
                } else {
                    assert(nsp =~= Seq::<u8>::empty());
                }
            }
            assert(self@ =~= os.subrange(0, path_offset(op)) + nsp + os.subrange(
                path_offset(op) + op.path_len,
                os.len() as int,
            ));
            lemma_path_swapped(op, np, os, self@, nsp);
            assert(spec_pop_path(sp_) =~= nsp);
        }
    }

    /// Offset one past the last path byte.
    pub(crate) fn path_end_exec(&self) -> (r: usize)
        requires
            self.wf(),
        ensures
            r == path_offset(self.parts()) + self.parts().path_len,
            r <= self@.len(),
    {
        let total = self.data.len();
        proof {
            assert(total_len(self.parts()) == self@.len());
        }
        self.path_offset_exec() + self.p.path_len
    }
}

impl<'a> IriRef<'a> {
    /// The component descriptor.
    pub closed spec fn parts(&self) -> ParsedIriRef {
        self.p
    }

    /// The descriptor matches the borrowed bytes.
    pub open spec fn wf(&self) -> bool {
        wf(self.parts(), self@)
    }

    /// Parse a borrowed IRI reference; no byte is copied.
    pub fn new(buffer: &'a [u8]) -> (r: Result<IriRef<'a>, Error>)
        ensures
            r is Ok <==> spec_parse(buffer@) is Some,
            r matches Ok(b) ==> b@ == buffer@ && b.wf() && b.parts() == spec_parse(
                buffer@,
            )->Some_0,
    {
        match parse_iri_ref(buffer) {
            Ok(p) => Ok(IriRef { p, data: buffer }),
            Err(e) => Err(e),
        }
    }

    /// Length in bytes.
    pub fn len(&self) -> (r: usize)
        ensures
            r == self@.len(),
    {
        self.data.len()
    }

    /// The exact underlying bytes.
    pub fn as_bytes(&self) -> (r: &'a [u8])
        ensures
            r@ == self@,
    {
        self.data
    }

    /// The scheme bytes, when a scheme is present.
    pub open spec fn spec_scheme(&self) -> Option<Seq<u8>> {
        scheme_of(self.parts(), self@)
    }

    /// The authority span bytes, when an authority is present.
    pub open spec fn spec_authority(&self) -> Option<Seq<u8>> {
        authority_of(self.parts(), self@)
    }

    /// The path bytes (always present, possibly empty).
    pub open spec fn spec_path(&self) -> Seq<u8> {
        path_of(self.parts(), self@)
    }

    /// The query bytes, when a query is present.
    pub open spec fn spec_query(&self) -> Option<Seq<u8>> {
        query_of(self.parts(), self@)
    }

    /// The fragment bytes, when a fragment is present.
    pub open spec fn spec_fragment(&self) -> Option<Seq<u8>> {
        fragment_of(self.parts(), self@)
    }

    /// Offset of the first path byte.
    fn path_offset_exec(&self) -> (r: usize)
        requires
            self.wf(),
        ensures
            r == path_offset(self.parts()),
            r <= self@.len(),
    {
        let total = self.data.len();
        proof {
            assert(total_len(self.parts()) == self@.len());
        }
        let sp: usize = match self.p.scheme_len {
            Some(n) => n + 1,
            None => 0,
        };
        let ap: usize = match self.p.authority {
            Some(a) => {
                let u: usize = match a.userinfo_len {
                    Some(n) => n + 1,
                    None => 0,
                };
                let po: usize = match a.port_len {
                    Some(n) => n + 1,
                    None => 0,
                };
                2 + u + a.host_len + po
            },
            None => 0,
        };
        sp + ap
    }

    /// Offset one past the last path byte.
    fn path_end_exec(&self) -> (r: usize)
        requires
            self.wf(),
        ensures
            r == path_offset(self.parts()) + self.parts().path_len,
            r <= self@.len(),
    {
        let total = self.data.len();
        proof {
            assert(total_len(self.parts()) == self@.len());
        }
        self.path_offset_exec() + self.p.path_len
    }

    /// The scheme bytes, when a scheme is present.
    pub fn scheme(&self) -> (r: Option<&'a [u8]>)
        requires
            self.wf(),
        ensures
            r is Some <==> self.spec_scheme() is Some,
            r matches Some(v) ==> Some(v@) == self.spec_scheme(),
    {
        let total = self.data.len();
        proof {
            assert(total_len(self.parts()) == self@.len());
        }
        match self.p.scheme_len {
            Some(n) => Some(slice_subrange(self.data, 0, n)),
            None => None,
        }
    }

    /// The authority, when one is present.
    pub fn authority(&self) -> (r: Option<Authority<'a>>)
        requires
            self.wf(),
        ensures
            r is Some <==> self.parts().authority is Some,
            r matches Some(a) ==> Some(a@) == self.spec_authority() && Some(a.parts())
                == self.parts().authority && a.wf(),
    {
        let total = self.data.len();
        proof {
            assert(total_len(self.parts()) == self@.len());
        }
        let sp: usize = match self.p.scheme_len {
            Some(n) => n + 1,
            None => 0,
        };
        match self.p.authority {
            Some(a) => {
                let u: usize = match a.userinfo_len {
                    Some(n) => n + 1,
                    None => 0,
                };
                let po: usize = match a.port_len {
                    Some(n) => n + 1,
                    None => 0,
                };
                let span: usize = u + a.host_len + po;
                Some(Authority { parts: a, data: slice_subrange(self.data, sp + 2, sp + 2 + span) })
            },
            None => None,
        }
    }

    /// The path bytes (always present, possibly empty).
    pub fn path(&self) -> (r: &'a [u8])
        requires
            self.wf(),
        ensures
            r@ == self.spec_path(),
    {
        let po = self.path_offset_exec();
        let pe = self.path_end_exec();
        slice_subrange(self.data, po, pe)
    }

    /// The query bytes, when a query is present.  An empty query is
    /// present and empty, distinct from an absent one.
    pub fn query(&self) -> (r: Option<&'a [u8]>)
        requires
            self.wf(),
        ensures
            r is Some <==> self.spec_query() is Some,
            r matches Some(v) ==> Some(v@) == self.spec_query(),
    {
        let total = self.data.len();
        proof {
            assert(total_len(self.parts()) == self@.len());
        }
        let pe = self.path_end_exec();
        match self.p.query_len {
            Some(n) => Some(slice_subrange(self.data, pe + 1, pe + 1 + n)),
            None => None,
        }
    }

    /// The fragment bytes, when a fragment is present.  An empty fragment
    /// is present and empty, distinct from an absent one.
    pub fn fragment(&self) -> (r: Option<&'a [u8]>)
        requires
            self.wf(),
        ensures
            r is Some <==> self.spec_fragment() is Some,
            r matches Some(v) ==> Some(v@) == self.spec_fragment(),
    {
        let total = self.data.len();
        proof {
            assert(total_len(self.parts()) == self@.len());
        }
        let pe = self.path_end_exec();
        let qpl: usize = match self.p.query_len {
            Some(n) => n + 1,
            None => 0,
        };
        match self.p.fragment_len {
            Some(n) => Some(slice_subrange(self.data, pe + qpl + 1, pe + qpl + 1 + n)),
            None => None,
        }
    }

    /// An owned copy of this reference.
    pub fn to_owned(&self) -> (r: IriRefBuf)
        ensures
            r@ == self@,
            r.parts() == self.parts(),
            self.wf() ==> r.wf(),
    {
        IriRefBuf { p: self.p, data: slice_to_vec(self.data) }
    }
}

/// A syntactically correct path segment; it may carry one trailing `/`
/// (a trailing-slash segment ends the path with an empty segment).
pub open spec fn is_valid_segment(s: Seq<u8>) -> bool {
    full_match(s, CharClass::Pchar) || (s.len() > 0 && s[s.len() - 1] == 47 && full_match(
        s.subrange(0, s.len() - 1),
        CharClass::Pchar,
    ))
}

/// The path after a segment push: a `/` is inserted when the path is
/// non-empty and does not already end in `/`.
pub open spec fn spec_push_path(p: Seq<u8>, seg: Seq<u8>) -> Seq<u8> {
    if p.len() > 0 && p[p.len() - 1] != 47 {
        p + seq![47u8] + seg
    } else {
        p + seg
    }
}

/// The path after a segment pop: the last `/`-delimited segment and its
/// separating `/` are removed; an empty path stays empty.
pub open spec fn spec_pop_path(p: Seq<u8>) -> Seq<u8> {
    if p.len() == 0 {
        p
    } else {
        let j = crate::path::rfind_from(p, 47, p.len() as int);
        if j >= 0 {
            p.subrange(0, j)
        } else {
            Seq::empty()
        }
    }
}

/// How the maximal segment-character run decides segment validity.
proof fn lemma_segment_scan(seg: Seq<u8>, n: int)
    requires
        n == crate::grammar::scan(seg, 0, CharClass::Pchar),
    ensures
        is_valid_segment(seg) <==> (n == seg.len() || (seg.len() > 0 && n + 1 == seg.len()
            && seg[seg.len() - 1] == 47)),
{
    crate::grammar::lemma_scan_bound(seg, 0, CharClass::Pchar);
    if n == seg.len() {
    } else if seg.len() > 0 && n + 1 == seg.len() && seg[seg.len() - 1] == 47 {
        crate::parsing::lemma_scan_localizes(seg, 0, CharClass::Pchar);
        assert(seg.subrange(0, n) =~= seg.subrange(0, seg.len() - 1));
    } else {
        if is_valid_segment(seg) && !full_match(seg, CharClass::Pchar) {
            let core = seg.subrange(0, seg.len() - 1);
            let last = seq![seg[seg.len() - 1]];
            crate::grammar::lemma_scan_concat(core, last, 0, CharClass::Pchar);
            assert(core + last =~= seg);
            assert(crate::grammar::scan(last, 0, CharClass::Pchar) == 0);
        }
    }
}

/// A valid segment is a valid path.
proof fn lemma_segment_as_path(seg: Seq<u8>)
    requires
        is_valid_segment(seg),
    ensures
        full_match(seg, CharClass::Path),
{
    if full_match(seg, CharClass::Pchar) {
        crate::grammar::lemma_scan_widen(seg, 0, CharClass::Pchar, CharClass::Path);
    } else {
        let core = seg.subrange(0, seg.len() - 1);
        crate::grammar::lemma_scan_widen(core, 0, CharClass::Pchar, CharClass::Path);
        let sl = seq![47u8];
        assert(full_match(sl, CharClass::Path)) by {
            assert(crate::grammar::scan(sl, 1, CharClass::Path) == 0);
            assert(crate::grammar::scan(sl, 0, CharClass::Path) == 1 + crate::grammar::scan(
                sl,
                1,
                CharClass::Path,
            ));
        }
        crate::grammar::lemma_full_concat(core, sl, CharClass::Path);
        assert(core + sl =~= seg);
    }
}

/// Borrowed view of an authority: the span's bytes and its descriptor.
pub struct Authority<'a> {
    pub(crate) parts: ParsedAuthority,
    pub(crate) data: &'a [u8],
}

impl<'a> View for Authority<'a> {
    type V = Seq<u8>;

    closed spec fn view(&self) -> Seq<u8> {
        self.data@
    }
}

impl<'a> Authority<'a> {
    /// The sub-component descriptor.
    pub closed spec fn parts(&self) -> ParsedAuthority {
        self.parts
    }

    /// The descriptor matches the span's bytes.
    pub open spec fn wf(&self) -> bool {
        spec_parse_authority(self@) == Some(self.parts())
    }

    /// Offset of the first host byte within the span.
    pub open spec fn host_offset(&self) -> int {
        match self.parts().userinfo_len {
            Some(n) => n + 1,
            None => 0,
        }
    }

    pub open spec fn spec_userinfo(&self) -> Option<Seq<u8>> {
        match self.parts().userinfo_len {
            Some(n) => Some(self@.subrange(0, n as int)),
            None => None,
        }
    }

    pub open spec fn spec_host(&self) -> Seq<u8> {
        self@.subrange(self.host_offset(), self.host_offset() + self.parts().host_len)
    }

    pub open spec fn spec_port(&self) -> Option<Seq<u8>> {
        match self.parts().port_len {
            Some(n) => Some(self@.subrange(self@.len() - n, self@.len() as int)),
            None => None,
        }
    }

    /// The whole authority span, byte for byte.
    pub fn as_bytes(&self) -> (r: &'a [u8])
        ensures
            r@ == self@,
    {
        self.data
    }

    /// The userinfo bytes, when present.
    pub fn userinfo(&self) -> (r: Option<&'a [u8]>)
        requires
            self.wf(),
        ensures
            r is Some <==> self.spec_userinfo() is Some,
            r matches Some(v) ==> Some(v@) == self.spec_userinfo(),
    {
        let len = self.data.len();
        proof {
            crate::parsing::lemma_authority_span_len(self@);
        }
        match self.parts.userinfo_len {
            Some(n) => Some(slice_subrange(self.data, 0, n)),
            None => None,
        }
    }

    /// The host bytes (an IP-literal keeps its brackets).
    pub fn host(&self) -> (r: &'a [u8])
        requires
            self.wf(),
        ensures
            r@ == self.spec_host(),
    {
        let len = self.data.len();
        proof {
            crate::parsing::lemma_authority_span_len(self@);
        }
        let ho: usize = match self.parts.userinfo_len {
            Some(n) => n + 1,
            None => 0,
        };
        slice_subrange(self.data, ho, ho + self.parts.host_len)
    }

    /// The shape the host was recognized with.
    pub fn host_kind(&self) -> (r: HostKind)
        ensures
            r == self.parts().host_kind,
    {
        self.parts.host_kind
    }

    /// The port bytes, when present (possibly empty).
    pub fn port(&self) -> (r: Option<&'a [u8]>)
        requires
            self.wf(),
        ensures
            r is Some <==> self.spec_port() is Some,
            r matches Some(v) ==> Some(v@) == self.spec_port(),
    {
        let len = self.data.len();
        proof {
            crate::parsing::lemma_authority_span_len(self@);
        }
        match self.parts.port_len {
            Some(n) => Some(slice_subrange(self.data, len - n, len)),
            None => None,
        }
    }
}

} // verus!
