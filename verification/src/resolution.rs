//! Reference resolver: the strict RFC 3986 §5.3 algorithm.  A base IRI
//! (with a scheme) and a reference combine into a resolved IRI; the
//! reference's fragment is never inherited from the base.

use vstd::prelude::*;
use crate::Error;
use crate::buffer::{authority_of, fragment_of, path_of, query_of, scheme_of, IriRefBuf};
use crate::parsing::{spec_parse, ParsedIriRef};
use crate::path::{is_absolute_path, spec_remove_dot_segments, remove_dot_segments, rfind_from, rfind_exec};

verus! {

/// Serialize components back into IRI text: each present component is
/// preceded by its separator.
pub open spec fn spec_build(
    scheme: Option<Seq<u8>>,
    authority: Option<Seq<u8>>,
    path: Seq<u8>,
    query: Option<Seq<u8>>,
    fragment: Option<Seq<u8>>,
) -> Seq<u8> {
    (match scheme {
        Some(sc) => sc + seq![58u8],
        None => Seq::<u8>::empty(),
    }) + (match authority {
        Some(a) => seq![47u8, 47u8] + a,
        None => Seq::<u8>::empty(),
    }) + path + (match query {
        Some(q) => seq![63u8] + q,
        None => Seq::<u8>::empty(),
    }) + (match fragment {
        Some(f) => seq![35u8] + f,
        None => Seq::<u8>::empty(),
    })
}

/// Merge of the base path and a relative reference path (RFC 3986
/// §5.3.3): everything after the base path's last `/` is replaced by the
/// reference path; with an authority and an empty base path, the merge is
/// `/` followed by the reference path.
pub open spec fn spec_merge(bp: ParsedIriRef, base_path: Seq<u8>, ref_path: Seq<u8>) -> Seq<u8> {
    if bp.authority is Some && base_path.len() == 0 {
        seq![47u8] + ref_path
    } else {
        let j = rfind_from(base_path, 47, base_path.len() as int);
        if j >= 0 {
            base_path.subrange(0, j + 1) + ref_path
        } else {
            ref_path
        }
    }
}

/// The text of the strict resolution of a reference against a base:
/// which components are taken from which side follows RFC 3986 §5.3, and
/// the fragment is always the reference's.
pub open spec fn spec_resolved(
    bp: ParsedIriRef,
    bs: Seq<u8>,
    rp: ParsedIriRef,
    rs: Seq<u8>,
) -> Seq<u8> {
    if rp.scheme_len is Some {
        spec_build(
            scheme_of(rp, rs),
            authority_of(rp, rs),
            spec_remove_dot_segments(path_of(rp, rs)),
            query_of(rp, rs),
            fragment_of(rp, rs),
        )
    } else if rp.authority is Some {
        spec_build(
            scheme_of(bp, bs),
            authority_of(rp, rs),
            spec_remove_dot_segments(path_of(rp, rs)),
            query_of(rp, rs),
            fragment_of(rp, rs),
        )
    } else if path_of(rp, rs).len() == 0 {
        spec_build(
            scheme_of(bp, bs),
            authority_of(bp, bs),
            path_of(bp, bs),
            (if rp.query_len is Some {
                query_of(rp, rs)
            } else {
                query_of(bp, bs)
            }),
            fragment_of(rp, rs),
        )
    } else if is_absolute_path(path_of(rp, rs)) {
        spec_build(
            scheme_of(bp, bs),
            authority_of(bp, bs),
            spec_remove_dot_segments(path_of(rp, rs)),
            query_of(rp, rs),
            fragment_of(rp, rs),
        )
    } else {
        spec_build(
            scheme_of(bp, bs),
            authority_of(bp, bs),
            spec_remove_dot_segments(spec_merge(bp, path_of(bp, bs), path_of(rp, rs))),
            query_of(rp, rs),
            fragment_of(rp, rs),
        )
    }
}

fn append_bytes(out: &mut Vec<u8>, s: &[u8])
    requires
        old(out)@.len() + s@.len() <= usize::MAX,
    ensures
        final(out)@ == old(out)@ + s@,
{
    let ghost pre = out@;
    let mut k: usize = 0;
    while k < s.len()
        invariant
            0 <= k <= s@.len(),
            out@ == pre + s@.subrange(0, k as int),
            pre.len() + s@.len() <= usize::MAX,
        decreases s@.len() - k,
    {
        let b = s[k];
        out.push(b);
        proof {
            assert(pre + s@.subrange(0, k + 1) =~= (pre + s@.subrange(0, k as int)).push(b));
        }
        k += 1;
    }
    proof {
        assert(s@.subrange(0, s@.len() as int) =~= s@);
    }
}

/// The built text of given components, as `spec_build` describes it.
pub open spec fn built_of(
    scheme: Option<&[u8]>,
    authority: Option<&[u8]>,
    path: &[u8],
    query: Option<&[u8]>,
    fragment: Option<&[u8]>,
) -> Seq<u8> {
    spec_build(
        (match scheme {
            Some(sc) => Some(sc@),
            None => None::<Seq<u8>>,
        }),
        (match authority {
            Some(a) => Some(a@),
            None => None::<Seq<u8>>,
        }),
        path@,
        (match query {
            Some(q) => Some(q@),
            None => None::<Seq<u8>>,
        }),
        (match fragment {
            Some(f) => Some(f@),
            None => None::<Seq<u8>>,
        }),
    )
}

/// Build the serialized text of the given components.  The one failure
/// is a text that would not fit in memory: success holds exactly when
/// the built text's length fits `usize`.
#[verifier::rlimit(100)]
#[verifier::spinoff_prover]
fn build_exec(
    scheme: Option<&[u8]>,
    authority: Option<&[u8]>,
    path: &[u8],
    query: Option<&[u8]>,
    fragment: Option<&[u8]>,
) -> (r: Result<Vec<u8>, Error>)
    ensures
        r is Ok <==> built_of(scheme, authority, path, query, fragment).len() <= usize::MAX,
        r matches Ok(v) ==> v@ == built_of(scheme, authority, path, query, fragment),
{
    let sl: u128 = match scheme {
        Some(sc) => sc.len() as u128 + 1,
        None => 0,
    };
    let al: u128 = match authority {
        Some(a) => a.len() as u128 + 2,
        None => 0,
    };
    let ql: u128 = match query {
        Some(q) => q.len() as u128 + 1,
        None => 0,
    };
    let fl: u128 = match fragment {
        Some(f) => f.len() as u128 + 1,
        None => 0,
    };
    let total: u128 = sl + al + path.len() as u128 + ql + fl;
    proof {
        assert(total == built_of(scheme, authority, path, query, fragment).len());
    }
    if total > usize::MAX as u128 {
        return Err(Error::Invalid);
    }
    let mut out: Vec<u8> = Vec::new();
    match scheme {
        Some(sc) => {
            append_bytes(&mut out, sc);
            out.push(58);
        },
        None => {},
    }
    let ghost after_scheme = out@;
    match authority {
        Some(a) => {
            out.push(47);
            out.push(47);
            append_bytes(&mut out, a);
        },
        None => {},
    }
    let ghost after_auth = out@;
    append_bytes(&mut out, path);
    let ghost after_path = out@;
    match query {
        Some(q) => {
            out.push(63);
            append_bytes(&mut out, q);
        },
        None => {},
    }
    let ghost after_query = out@;
    match fragment {
        Some(f) => {
            out.push(35);
            append_bytes(&mut out, f);
        },
        None => {},
    }
    proof {
        let g_scheme = match scheme {
            Some(sc) => sc@ + seq![58u8],
            None => Seq::<u8>::empty(),
        };
        let g_auth = match authority {
            Some(a) => seq![47u8, 47u8] + a@,
            None => Seq::<u8>::empty(),
        };
        let g_query = match query {
            Some(q) => seq![63u8] + q@,
            None => Seq::<u8>::empty(),
        };
        let g_frag = match fragment {
            Some(f) => seq![35u8] + f@,
            None => Seq::<u8>::empty(),
        };
        assert(after_scheme =~= g_scheme);
        assert(after_auth =~= g_scheme + g_auth);
        assert(after_path =~= g_scheme + g_auth + path@);
        assert(after_query =~= g_scheme + g_auth + path@ + g_query);
        assert(out@ =~= g_scheme + g_auth + path@ + g_query + g_frag);
    }
    Ok(out)
}

impl IriRefBuf {
    /// Resolve this reference against an absolute base, producing a new
    /// owned value whose text follows RFC 3986 §5.3 exactly; the stored
    /// result re-validates that text in full.  Success is owed: the call
    /// returns `Ok` exactly when the resolved text matches the
    /// IRI-reference grammar and fits in memory.
    pub fn resolved(&self, base: &IriRefBuf) -> (r: Result<IriRefBuf, Error>)
        requires
            self.wf(),
            base.wf(),
            base.parts().scheme_len is Some,
            base@.len() + self@.len() + 1 <= usize::MAX,
        ensures
            ({
                let gr = spec_resolved(base.parts(), base@, self.parts(), self@);
                &&& (r is Ok <==> spec_parse(gr) is Some && gr.len() <= usize::MAX)
                &&& (r matches Ok(b) ==> b@ == gr && b.wf() && spec_parse(b@) == Some(b.parts()))
            }),
    {
        let built = match self.build_resolved(base) {
            Ok(v) => v,
            Err(e) => {
                return Err(e);
            },
        };
        IriRefBuf::new(built.as_slice())
    }

    /// Resolve this reference against an absolute base in place: on
    /// success this reference's own buffer holds the resolved text and
    /// its descriptor is that text's parse.  Success is owed exactly as
    /// for `resolved`; on failure the reference is unchanged.
    pub fn resolve(&mut self, base: &IriRefBuf) -> (r: Result<(), Error>)
        requires
            old(self).wf(),
            base.wf(),
            base.parts().scheme_len is Some,
            base@.len() + old(self)@.len() + 1 <= usize::MAX,
        ensures
            ({
                let gr = spec_resolved(base.parts(), base@, old(self).parts(), old(self)@);
                &&& (r is Ok <==> spec_parse(gr) is Some && gr.len() <= usize::MAX)
                &&& (r is Ok ==> final(self)@ == gr && final(self).wf() && spec_parse(
                    final(self)@,
                ) == Some(final(self).parts()))
                &&& (r is Err ==> final(self)@ == old(self)@ && final(self).parts() == old(
                    self,
                ).parts())
            }),
    {
        match self.resolved(base) {
            Ok(nb) => {
                *self = nb;
                Ok(())
            },
            Err(e) => Err(e),
        }
    }

    /// The serialized resolution text, before re-validation.  Fails
    /// exactly when that text's length does not fit `usize`.
    fn build_resolved(&self, base: &IriRefBuf) -> (r: Result<Vec<u8>, Error>)
        requires
            self.wf(),
            base.wf(),
            base.parts().scheme_len is Some,
            base@.len() + self@.len() + 1 <= usize::MAX,
        ensures
            r is Ok <==> spec_resolved(base.parts(), base@, self.parts(), self@).len()
                <= usize::MAX,
            r matches Ok(v) ==> v@ == spec_resolved(base.parts(), base@, self.parts(), self@),
    {
        let has_scheme = match self.scheme() {
            Some(_) => true,
            None => false,
        };
        let has_authority = match self.authority() {
            Some(_) => true,
            None => false,
        };
        if has_scheme {
            let norm = remove_dot_segments(self.path());
            build_exec(
                self.scheme(),
                match self.authority() {
                    Some(a) => Some(a.as_bytes()),
                    None => None,
                },
                norm.as_slice(),
                self.query(),
                self.fragment(),
            )
        } else if has_authority {
            let norm = remove_dot_segments(self.path());
            build_exec(
                base.scheme(),
                match self.authority() {
                    Some(a) => Some(a.as_bytes()),
                    None => None,
                },
                norm.as_slice(),
                self.query(),
                self.fragment(),
            )
        } else if self.path().len() == 0 {
            let q = match self.query() {
                Some(q) => Some(q),
                None => base.query(),
            };
            build_exec(
                base.scheme(),
                match base.authority() {
                    Some(a) => Some(a.as_bytes()),
                    None => None,
                },
                base.path(),
                q,
                self.fragment(),
            )
        } else {
            let rp = self.path();
            if rp[0] == 47 {
                let norm = remove_dot_segments(rp);
                build_exec(
                    base.scheme(),
                    match base.authority() {
                        Some(a) => Some(a.as_bytes()),
                        None => None,
                    },
                    norm.as_slice(),
                    self.query(),
                    self.fragment(),
                )
            } else {
                let bpath = base.path();
                let mut merged: Vec<u8> = Vec::new();
                proof {
                    assert(crate::parsing::total_len(base.parts()) == base@.len());
                    assert(crate::parsing::total_len(self.parts()) == self@.len());
                }
                let base_has_auth = match base.authority() {
                    Some(_) => true,
                    None => false,
                };
                if base_has_auth && bpath.len() == 0 {
                    merged.push(47);
                    append_bytes(&mut merged, rp);
                } else {
                    match rfind_exec(bpath, 47) {
                        Some(j) => {
                            append_bytes(&mut merged, vstd::slice::slice_subrange(bpath, 0, j + 1));
                            append_bytes(&mut merged, rp);
                        },
                        None => {
                            append_bytes(&mut merged, rp);
                        },
                    }
                }
                proof {
                    assert(merged@ =~= spec_merge(
                        base.parts(),
                        crate::buffer::path_of(base.parts(), base@),
                        crate::buffer::path_of(self.parts(), self@),
                    ));
                }
                let norm = remove_dot_segments(merged.as_slice());
                build_exec(
                    base.scheme(),
                    match base.authority() {
                        Some(a) => Some(a.as_bytes()),
                        None => None,
                    },
                    norm.as_slice(),
                    self.query(),
                    self.fragment(),
                )
            }
        }
    }
}

} // verus!
