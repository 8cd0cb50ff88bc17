//! Segment normalizer: `/`-delimited path segments and RFC 3986 §5.2.4
//! dot-segment removal, with the errata 4547 exception that keeps a `..`
//! segment that has no parent to remove in a relative path.

use vstd::prelude::*;
use vstd::slice::{slice_subrange, slice_to_vec};
use crate::parsing::find_byte;

verus! {

/// A path starting with `/` is absolute.
pub open spec fn is_absolute_path(p: Seq<u8>) -> bool {
    p.len() > 0 && p[0] == 47
}

/// The path without its leading `/`, if any.
pub open spec fn rel_part(p: Seq<u8>) -> Seq<u8> {
    if is_absolute_path(p) {
        p.subrange(1, p.len() as int)
    } else {
        p
    }
}

/// Split on a separator byte; a text without the separator is one part,
/// so there is always at least one part and `n` separators give `n + 1`
/// parts.
pub open spec fn split_bytes(s: Seq<u8>, sep: u8) -> Seq<Seq<u8>>
    decreases s.len(),
{
    let j = find_byte(s, sep, 0);
    if 0 <= j < s.len() {
        seq![s.subrange(0, j)] + split_bytes(s.subrange(j + 1, s.len() as int), sep)
    } else {
        seq![s]
    }
}

/// Join parts with a separator byte between consecutive parts.
pub open spec fn join_bytes(parts: Seq<Seq<u8>>, sep: u8) -> Seq<u8>
    decreases parts.len(),
{
    if parts.len() == 0 {
        Seq::empty()
    } else if parts.len() == 1 {
        parts[0]
    } else {
        parts[0] + seq![sep] + join_bytes(parts.drop_first(), sep)
    }
}

/// The segments of a path: the relative part split on `/`.
pub open spec fn path_segments(p: Seq<u8>) -> Seq<Seq<u8>> {
    split_bytes(rel_part(p), 47)
}

/// Largest position below `k` holding byte `b`, or -1.
pub open spec fn rfind_from(s: Seq<u8>, b: u8, k: int) -> int
    decreases k,
{
    if k <= 0 || k > s.len() {
        -1
    } else if s[k - 1] == b {
        k - 1
    } else {
        rfind_from(s, b, k - 1)
    }
}

pub proof fn lemma_rfind_from(s: Seq<u8>, b: u8, k: int)
    requires
        0 <= k <= s.len(),
    ensures
        -1 <= rfind_from(s, b, k) < k,
        rfind_from(s, b, k) >= 0 ==> s[rfind_from(s, b, k)] == b,
    decreases k,
{
    if k > 0 && s[k - 1] != b {
        lemma_rfind_from(s, b, k - 1);
    }
}

pub fn rfind_exec(s: &[u8], b: u8) -> (r: Option<usize>)
    ensures
        (match r {
            Some(i) => rfind_from(s@, b, s@.len() as int) == i && i < s@.len(),
            None => rfind_from(s@, b, s@.len() as int) == -1,
        }),
{
    let mut k = s.len();
    loop
        invariant
            0 <= k <= s@.len(),
            rfind_from(s@, b, s@.len() as int) == rfind_from(s@, b, k as int),
        ensures
            k > 0 ==> rfind_from(s@, b, s@.len() as int) == k - 1 && k - 1 < s@.len(),
            k == 0 ==> rfind_from(s@, b, s@.len() as int) == -1,
        decreases k,
    {
        if k == 0 {
            break ;
        }
        if s[k - 1] == b {
            break ;
        }
        k -= 1;
    }
    if k == 0 {
        None
    } else {
        Some(k - 1)
    }
}

pub open spec fn seg_dot() -> Seq<u8> {
    seq![46u8]
}

pub open spec fn seg_dotdot() -> Seq<u8> {
    seq![46u8, 46u8]
}

/// One step of dot-segment removal over an output stack:
/// `.` is dropped; `..` removes the last output segment where one can be
/// removed, is kept in a relative path with no removable parent
/// (errata 4547), and is dropped at the root of an absolute path;
/// anything else is kept verbatim.
pub open spec fn norm_step(stack: Seq<Seq<u8>>, seg: Seq<u8>, abs: bool) -> Seq<Seq<u8>> {
    if seg == seg_dot() {
        stack
    } else if seg == seg_dotdot() {
        if stack.len() > 0 && stack.last() != seg_dotdot() {
            stack.drop_last()
        } else if !abs {
            stack.push(seg_dotdot())
        } else {
            stack
        }
    } else {
        stack.push(seg)
    }
}

/// Dot-segment removal over a segment sequence, left to right.
pub open spec fn norm_run(stack: Seq<Seq<u8>>, segs: Seq<Seq<u8>>, abs: bool) -> Seq<Seq<u8>>
    decreases segs.len(),
{
    if segs.len() == 0 {
        stack
    } else {
        norm_run(norm_step(stack, segs[0], abs), segs.drop_first(), abs)
    }
}

/// RFC 3986 §5.2.4 dot-segment removal with the errata 4547 exception,
/// as a pure function on path bytes.
pub open spec fn spec_remove_dot_segments(p: Seq<u8>) -> Seq<u8> {
    let abs = is_absolute_path(p);
    let out = norm_run(Seq::empty(), path_segments(p), abs);
    (if abs {
        seq![47u8]
    } else {
        Seq::<u8>::empty()
    }) + join_bytes(out, 47)
}

proof fn lemma_find_byte_sub(s: Seq<u8>, b: u8, start: int, i: int)
    requires
        0 <= start <= s.len(),
        0 <= i <= s.len() - start,
    ensures
        find_byte(s.subrange(start, s.len() as int), b, i) == find_byte(s, b, start + i) - start,
    decreases s.len() - start - i,
{
    let t = s.subrange(start, s.len() as int);
    crate::parsing::lemma_find_byte(s, b, start + i);
    crate::parsing::lemma_find_byte(t, b, i);
    if i < t.len() {
        assert(t[i] == s[start + i]);
        if t[i] != b {
            lemma_find_byte_sub(s, b, start, i + 1);
        }
    }
}

/// Split a byte text on a separator.
pub fn split_exec(s: &[u8], sep: u8) -> (r: Vec<Vec<u8>>)
    ensures
        r.deep_view() == split_bytes(s@, sep),
{
    let mut parts: Vec<Vec<u8>> = Vec::new();
    let mut start: usize = 0;
    proof {
        assert(s@.subrange(0, s@.len() as int) =~= s@);
    }
    loop
        invariant_except_break
            split_bytes(s@, sep) =~~= parts.deep_view() + split_bytes(
                s@.subrange(start as int, s@.len() as int),
                sep,
            ),
        invariant
            start <= s@.len(),
        ensures
            split_bytes(s@, sep) == parts.deep_view(),
        decreases s@.len() - start,
    {
        let ghost t = s@.subrange(start as int, s@.len() as int);
        let j = crate::parsing::find_byte_exec(s, sep, start);
        proof {
            lemma_find_byte_sub(s@, sep, start as int, 0);
            crate::parsing::lemma_find_byte(s@, sep, start as int);
        }
        let ghost od = parts.deep_view();
        if j < s.len() {
            let piece = slice_to_vec(slice_subrange(s, start, j));
            parts.push(piece);
            proof {
                assert(parts.deep_view() =~~= od.push(s@.subrange(start as int, j as int)));
                assert(find_byte(t, sep, 0) == j - start);
                assert(t.subrange(0, j - start) =~= s@.subrange(start as int, j as int));
                assert(t.subrange(j - start + 1, t.len() as int) =~= s@.subrange(
                    j + 1,
                    s@.len() as int,
                ));
                assert(split_bytes(t, sep) == seq![s@.subrange(start as int, j as int)]
                    + split_bytes(s@.subrange(j + 1, s@.len() as int), sep));
                assert(od + (seq![s@.subrange(start as int, j as int)] + split_bytes(
                    s@.subrange(j + 1, s@.len() as int),
                    sep,
                )) =~~= od.push(s@.subrange(start as int, j as int)) + split_bytes(
                    s@.subrange(j + 1, s@.len() as int),
                    sep,
                ));
                assert(split_bytes(s@, sep) =~~= parts.deep_view() + split_bytes(
                    s@.subrange(j + 1, s@.len() as int),
                    sep,
                ));
            }
            start = j + 1;
        } else {
            let piece = slice_to_vec(slice_subrange(s, start, s.len()));
            parts.push(piece);
            proof {
                assert(parts.deep_view() =~~= od.push(t));
                assert(find_byte(t, sep, 0) == t.len());
                assert(!(0 <= find_byte(t, sep, 0) < t.len()));
                assert(split_bytes(t, sep) == seq![t]);
                assert(od + seq![t] =~~= od.push(t));
                assert(split_bytes(s@, sep) =~~= parts.deep_view());
            }
            break ;
        }
    }
    parts
}

proof fn lemma_join_push(xs: Seq<Seq<u8>>, y: Seq<u8>, sep: u8)
    ensures
        xs.len() == 0 ==> join_bytes(xs.push(y), sep) == y,
        xs.len() > 0 ==> join_bytes(xs.push(y), sep) == join_bytes(xs, sep) + seq![sep] + y,
    decreases xs.len(),
{
    if xs.len() == 0 {
        assert(xs.push(y)[0] =~= y);
        assert(join_bytes(xs.push(y), sep) == xs.push(y)[0]);
    } else if xs.len() == 1 {
        let p = xs.push(y);
        assert(p.len() == 2);
        assert(p[0] == xs[0]);
        assert(p.drop_first() =~= seq![y]);
        assert(join_bytes(p, sep) == p[0] + seq![sep] + join_bytes(p.drop_first(), sep));
    } else {
        let p = xs.push(y);
        assert(p.drop_first() =~= xs.drop_first().push(y));
        lemma_join_push(xs.drop_first(), y, sep);
        assert(p[0] == xs[0]);
        assert(join_bytes(p, sep) == p[0] + seq![sep] + join_bytes(p.drop_first(), sep));
        assert(join_bytes(xs, sep) == xs[0] + seq![sep] + join_bytes(xs.drop_first(), sep));
        assert(xs[0] + seq![sep] + (join_bytes(xs.drop_first(), sep) + seq![sep] + y) =~= (xs[0]
            + seq![sep] + join_bytes(xs.drop_first(), sep)) + seq![sep] + y);
    }
}

/// Join parts with a separator.
pub fn join_exec(parts: &Vec<Vec<u8>>, sep: u8) -> (r: Vec<u8>)
    ensures
        r@ == join_bytes(parts.deep_view(), sep),
{
    let mut out: Vec<u8> = Vec::new();
    let mut i: usize = 0;
    proof {
        assert(parts.deep_view().subrange(0, 0) =~= Seq::<Seq<u8>>::empty());
    }
    while i < parts.len()
        invariant
            0 <= i <= parts.deep_view().len(),
            parts.deep_view().len() == parts@.len(),
            out@ == join_bytes(parts.deep_view().subrange(0, i as int), sep),
        decreases parts@.len() - i,
    {
        let ghost done = parts.deep_view().subrange(0, i as int);
        if i > 0 {
            out.push(sep);
        }
        let part = &parts[i];
        let mut k: usize = 0;
        let ghost mid = out@;
        while k < part.len()
            invariant
                0 <= k <= part@.len(),
                out@ == mid + part@.subrange(0, k as int),
            decreases part@.len() - k,
        {
            let b = part[k];
            out.push(b);
            proof {
                assert(mid + part@.subrange(0, k + 1) =~= (mid + part@.subrange(0, k as int)).push(
                    b,
                ));
            }
            k += 1;
        }
        proof {
            assert(part@.subrange(0, part@.len() as int) =~= part@);
            assert(parts.deep_view()[i as int] == part@);
            lemma_join_push(done, part@, sep);
            assert(parts.deep_view().subrange(0, i + 1) =~= done.push(part@));
            if i == 0 {
                assert(out@ =~= part@);
            }
        }
        i += 1;
    }
    proof {
        assert(parts.deep_view().subrange(0, parts.deep_view().len() as int) =~= parts.deep_view());
    }
    out
}

/// The dot-segment-removed segments of a path, as a segment list.
pub fn normalized_segments(path: &[u8]) -> (r: Vec<Vec<u8>>)
    ensures
        r.deep_view() == norm_run(
            Seq::empty(),
            path_segments(path@),
            is_absolute_path(path@),
        ),
{
    let abs = path.len() > 0 && path[0] == 47;
    let rel = if abs {
        slice_subrange(path, 1, path.len())
    } else {
        slice_subrange(path, 0, path.len())
    };
    proof {
        if !abs {
            assert(path@.subrange(0, path@.len() as int) =~= path@);
        }
    }
    let parts = split_exec(rel, 47);
    let ghost segs = parts.deep_view();
    let mut stack: Vec<Vec<u8>> = Vec::new();
    let mut i: usize = 0;
    proof {
        assert(stack.deep_view() =~~= Seq::<Seq<u8>>::empty());
        assert(segs.subrange(0, segs.len() as int) =~= segs);
    }
    while i < parts.len()
        invariant
            0 <= i <= segs.len(),
            segs.len() == parts@.len(),
            segs == parts.deep_view(),
            norm_run(Seq::empty(), segs, abs) == norm_run(
                stack.deep_view(),
                segs.subrange(i as int, segs.len() as int),
                abs,
            ),
        decreases parts@.len() - i,
    {
        let ghost rest = segs.subrange(i as int, segs.len() as int);
        let seg = &parts[i];
        let is_dot = seg.len() == 1 && seg[0] == 46;
        let is_dotdot = seg.len() == 2 && seg[0] == 46 && seg[1] == 46;
        proof {
            assert(rest[0] == seg@);
            assert(is_dot == (seg@ == seg_dot())) by {
                if seg@.len() == 1 && seg@[0] == 46 {
                    assert(seg@ =~= seg_dot());
                }
                if seg@ == seg_dot() {
                    assert(seg@.len() == 1 && seg@[0] == 46);
                }
            }
            assert(is_dotdot == (seg@ == seg_dotdot())) by {
                if seg@.len() == 2 && seg@[0] == 46 && seg@[1] == 46 {
                    assert(seg@ =~= seg_dotdot());
                }
                if seg@ == seg_dotdot() {
                    assert(seg@.len() == 2 && seg@[0] == 46 && seg@[1] == 46);
                }
            }
        }
        let ghost st0 = stack.deep_view();
        if is_dot {
            // discard
        } else if is_dotdot {
            let mut last_is_dotdot = false;
            if stack.len() > 0 {
                let last = &stack[stack.len() - 1];
                last_is_dotdot = last.len() == 2 && last[0] == 46 && last[1] == 46;
                proof {
                    assert(st0.last() == last@);
                    assert(last_is_dotdot == (st0.last() == seg_dotdot())) by {
                        if last@.len() == 2 && last@[0] == 46 && last@[1] == 46 {
                            assert(last@ =~= seg_dotdot());
                        }
                        if last@ == seg_dotdot() {
                            assert(last@.len() == 2 && last@[0] == 46 && last@[1] == 46);
                        }
                    }
                }
            }
            if stack.len() > 0 && !last_is_dotdot {
                stack.pop();
                proof {
                    assert(stack.deep_view() =~~= st0.drop_last());
                }
            } else if !abs {
                let mut dd: Vec<u8> = Vec::new();
                dd.push(46);
                dd.push(46);
                proof {
                    assert(dd@ =~= seg_dotdot());
                }
                stack.push(dd);
                proof {
                    assert(stack.deep_view() =~~= st0.push(seg_dotdot()));
                }
            }
        } else {
            let copy = slice_to_vec(seg.as_slice());
            stack.push(copy);
            proof {
                assert(stack.deep_view() =~~= st0.push(seg@));
            }
        }
        proof {
            assert(stack.deep_view() == norm_step(st0, seg@, abs));
            assert(rest.drop_first() =~= segs.subrange(i + 1, segs.len() as int));
            assert(norm_run(st0, rest, abs) == norm_run(
                norm_step(st0, seg@, abs),
                rest.drop_first(),
                abs,
            ));
        }
        i += 1;
    }
    proof {
        assert(segs.subrange(segs.len() as int, segs.len() as int) =~= Seq::<Seq<u8>>::empty());
    }
    stack
}

/// Dot-segment removal: `.` segments are dropped, `..` removes the
/// segment before it where one exists, and (errata 4547) a `..` with no
/// removable parent in a relative path is kept, so that
/// `a/b/../../../` normalizes to `../` and not to the empty path.
/// The input buffer is never modified.
pub fn remove_dot_segments(path: &[u8]) -> (r: Vec<u8>)
    ensures
        r@ == spec_remove_dot_segments(path@),
{
    let abs = path.len() > 0 && path[0] == 47;
    let stack = normalized_segments(path);
    let joined = join_exec(&stack, 47);
    let mut out: Vec<u8> = Vec::new();
    if abs {
        out.push(47);
    }
    let mut k: usize = 0;
    let ghost pre = out@;
    while k < joined.len()
        invariant
            0 <= k <= joined@.len(),
            out@ == pre + joined@.subrange(0, k as int),
        decreases joined@.len() - k,
    {
        let b = joined[k];
        out.push(b);
        proof {
            assert(pre + joined@.subrange(0, k + 1) =~= (pre + joined@.subrange(0, k as int)).push(
                b,
            ));
        }
        k += 1;
    }
    proof {
        assert(joined@.subrange(0, joined@.len() as int) =~= joined@);
        if abs {
            assert(pre =~= seq![47u8]);
        } else {
            assert(pre =~= Seq::<u8>::empty());
        }
        assert(out@ =~= spec_remove_dot_segments(path@));
    }
    out
}


// Idempotence of dot-segment removal.  The output stack is always in a
// normal form: no `.` segment, `..` segments only as a leading run of a
// relative path, and no `/` inside a segment; running the removal over a
// normal-form segment list returns it unchanged, and splitting the
// joined output recovers the list.

pub open spec fn has_no_sep(s: Seq<u8>) -> bool {
    forall|j: int| 0 <= j < s.len() ==> s[j] != 47
}

pub open spec fn sep_free(xs: Seq<Seq<u8>>) -> bool {
    forall|i: int| 0 <= i < xs.len() ==> has_no_sep(#[trigger] xs[i])
}

/// No `.` segments; `..` segments only as a leading run, and only in a
/// relative path.
pub open spec fn normal_form(xs: Seq<Seq<u8>>, abs: bool) -> bool {
    &&& (forall|i: int| 0 <= i < xs.len() ==> #[trigger] xs[i] != seg_dot())
    &&& (forall|i: int|
        0 <= i < xs.len() && #[trigger] xs[i] == seg_dotdot() ==> !abs && (forall|j: int|
            0 <= j < i ==> #[trigger] xs[j] == seg_dotdot()))
}

proof fn lemma_split_sep_free(s: Seq<u8>, sep: u8)
    ensures
        forall|i: int|
            0 <= i < split_bytes(s, sep).len() ==> (forall|j: int|
                0 <= j < #[trigger] split_bytes(s, sep)[i].len() ==> split_bytes(s, sep)[i][j]
                    != sep),
    decreases s.len(),
{
    let parts = split_bytes(s, sep);
    let d = find_byte(s, sep, 0);
    crate::parsing::lemma_find_byte(s, sep, 0);
    if 0 <= d < s.len() {
        lemma_split_sep_free(s.subrange(d + 1, s.len() as int), sep);
        let head = s.subrange(0, d);
        let rest = split_bytes(s.subrange(d + 1, s.len() as int), sep);
        assert(parts == seq![head] + rest);
        assert forall|i: int|
            0 <= i < parts.len() implies (forall|j: int|
            0 <= j < #[trigger] parts[i].len() ==> parts[i][j] != sep) by {
            if i == 0 {
                assert(parts[i] == head);
            } else {
                assert(parts[i] == rest[i - 1]);
            }
        }
    }
}

proof fn lemma_find_byte_at(s: Seq<u8>, b: u8, k: int, i: int)
    requires
        0 <= i <= k < s.len(),
        s[k] == b,
        forall|j: int| i <= j < k ==> s[j] != b,
    ensures
        find_byte(s, b, i) == k,
    decreases k - i,
{
    if i < k {
        lemma_find_byte_at(s, b, k, i + 1);
    }
}

/// Splitting the join of separator-free parts gives the parts back.
proof fn lemma_split_join(xs: Seq<Seq<u8>>, sep: u8)
    requires
        xs.len() >= 1,
        forall|i: int|
            0 <= i < xs.len() ==> (forall|j: int|
                0 <= j < #[trigger] xs[i].len() ==> xs[i][j] != sep),
    ensures
        split_bytes(join_bytes(xs, sep), sep) == xs,
    decreases xs.len(),
{
    let s = join_bytes(xs, sep);
    crate::parsing::lemma_find_byte(s, sep, 0);
    if xs.len() == 1 {
        assert(s == xs[0]);
        if find_byte(s, sep, 0) < s.len() {
            assert(s[find_byte(s, sep, 0)] == sep);
            assert(false);
        }
        assert(split_bytes(s, sep) == seq![s]);
        assert(seq![s] =~= xs);
    } else {
        let rest = xs.drop_first();
        let jr = join_bytes(rest, sep);
        assert(s == xs[0] + seq![sep] + jr);
        let k = xs[0].len() as int;
        assert(s[k] == sep);
        assert(forall|j: int| 0 <= j < k ==> s[j] == xs[0][j] && s[j] != sep);
        lemma_find_byte_at(s, sep, k, 0);
        assert(s.subrange(0, k) =~= xs[0]);
        assert(s.subrange(k + 1, s.len() as int) =~= jr);
        lemma_split_join(rest, sep);
        assert(split_bytes(s, sep) == seq![xs[0]] + rest);
        assert(seq![xs[0]] + rest =~= xs);
    }
}

/// The join of parts is empty only for no parts or one empty part.
proof fn lemma_join_empty(xs: Seq<Seq<u8>>, sep: u8)
    ensures
        (join_bytes(xs, sep).len() == 0) == (xs.len() == 0 || (xs.len() == 1 && xs[0].len()
            == 0)),
    decreases xs.len(),
{
    if xs.len() > 1 {
        lemma_join_empty(xs.drop_first(), sep);
    }
}

/// One removal step keeps the stack in normal form.
proof fn lemma_step_normal(stack: Seq<Seq<u8>>, seg: Seq<u8>, abs: bool)
    requires
        normal_form(stack, abs),
    ensures
        normal_form(norm_step(stack, seg, abs), abs),
{
    let out = norm_step(stack, seg, abs);
    if seg == seg_dot() {
    } else if seg == seg_dotdot() {
        if stack.len() > 0 && stack.last() != seg_dotdot() {
            let pre = stack.drop_last();
            assert forall|i: int|
                0 <= i < pre.len() && #[trigger] pre[i] == seg_dotdot() implies !abs && (
            forall|j: int| 0 <= j < i ==> pre[j] == seg_dotdot()) by {
                assert(pre[i] == stack[i]);
                assert forall|j: int| 0 <= j < i implies pre[j] == seg_dotdot() by {
                    assert(pre[j] == stack[j]);
                }
            }
        } else if !abs {
            let p = stack.push(seg_dotdot());
            assert forall|i: int|
                0 <= i < p.len() && #[trigger] p[i] == seg_dotdot() implies !abs && (forall|
                j: int,
            |
                0 <= j < i ==> p[j] == seg_dotdot()) by {
                assert forall|j: int| 0 <= j < i implies p[j] == seg_dotdot() by {
                    if stack.len() > 0 {
                        assert(stack.last() == seg_dotdot());
                        assert(stack[stack.len() - 1] == seg_dotdot());
                        assert(p[j] == stack[j]);
                    }
                }
            }
        }
    } else {
        let p = stack.push(seg);
        assert forall|i: int|
            0 <= i < p.len() && #[trigger] p[i] == seg_dotdot() implies !abs && (forall|j: int|
            0 <= j < i ==> p[j] == seg_dotdot()) by {
            assert(p[i] == stack[i]);
            assert forall|j: int| 0 <= j < i implies p[j] == seg_dotdot() by {
                assert(p[j] == stack[j]);
            }
        }
    }
}

/// One removal step keeps the stack free of separators.
proof fn lemma_step_sep_free(stack: Seq<Seq<u8>>, seg: Seq<u8>, abs: bool)
    requires
        sep_free(stack),
        has_no_sep(seg),
    ensures
        sep_free(norm_step(stack, seg, abs)),
{
    let out = norm_step(stack, seg, abs);
    assert(has_no_sep(seg_dotdot()));
    assert forall|i: int| 0 <= i < out.len() implies has_no_sep(#[trigger] out[i]) by {
        if i < stack.len() {
            assert(out[i] == stack[i]);
        }
    }
}

/// The removal output is in normal form and separator-free.
proof fn lemma_run_normal(stack: Seq<Seq<u8>>, segs: Seq<Seq<u8>>, abs: bool)
    requires
        normal_form(stack, abs),
        sep_free(stack),
        sep_free(segs),
    ensures
        normal_form(norm_run(stack, segs, abs), abs),
        sep_free(norm_run(stack, segs, abs)),
    decreases segs.len(),
{
    if segs.len() > 0 {
        lemma_step_normal(stack, segs[0], abs);
        lemma_step_sep_free(stack, segs[0], abs);
        assert(sep_free(segs.drop_first())) by {
            assert forall|i: int|
                0 <= i < segs.drop_first().len() implies has_no_sep(
                #[trigger] segs.drop_first()[i]) by {
                assert(segs.drop_first()[i] == segs[i + 1]);
            }
        }
        lemma_run_normal(norm_step(stack, segs[0], abs), segs.drop_first(), abs);
    }
}

/// Dot-segment removal leaves a normal-form list unchanged.
proof fn lemma_run_fixpoint(stack: Seq<Seq<u8>>, segs: Seq<Seq<u8>>, abs: bool)
    requires
        normal_form(stack + segs, abs),
    ensures
        norm_run(stack, segs, abs) == stack + segs,
    decreases segs.len(),
{
    let whole = stack + segs;
    if segs.len() == 0 {
        assert(stack + segs =~= stack);
    } else {
        let seg = segs[0];
        assert(seg == whole[stack.len() as int]);
        assert(seg != seg_dot());
        let stack2 = norm_step(stack, seg, abs);
        if seg == seg_dotdot() {
            assert(!abs);
            assert(forall|j: int| 0 <= j < stack.len() ==> whole[j] == seg_dotdot());
            if stack.len() > 0 {
                assert(stack.last() == whole[stack.len() - 1]);
                assert(stack.last() == seg_dotdot());
            }
            assert(stack2 == stack.push(seg_dotdot()));
            assert(stack2 =~= stack.push(seg));
        } else {
            assert(stack2 == stack.push(seg));
        }
        assert(stack.push(seg) + segs.drop_first() =~= whole);
        lemma_run_fixpoint(stack.push(seg), segs.drop_first(), abs);
        assert(norm_run(stack, segs, abs) == norm_run(stack2, segs.drop_first(), abs));
    }
}

/// Dot-segment removal is idempotent: removing dot segments from an
/// already dot-segment-removed path changes nothing.
pub proof fn lemma_remove_dot_segments_idempotent(p: Seq<u8>)
    ensures
        spec_remove_dot_segments(spec_remove_dot_segments(p)) == spec_remove_dot_segments(p),
{
    let abs = is_absolute_path(p);
    let segs = path_segments(p);
    let s = norm_run(Seq::empty(), segs, abs);
    let q = spec_remove_dot_segments(p);
    lemma_split_sep_free(rel_part(p), 47);
    assert(sep_free(segs));
    lemma_run_normal(Seq::empty(), segs, abs, );
    assert(normal_form(s, abs) && sep_free(s));
    lemma_join_empty(s, 47);
    let js = join_bytes(s, 47);
    if abs {
        assert(q =~= seq![47u8] + js);
        assert(is_absolute_path(q));
        assert(rel_part(q) =~= js);
        if js.len() == 0 {
            lemma_empty_rel_normalizes(q);
        } else {
            lemma_split_join(s, 47);
            assert(split_bytes(js, 47) == s);
            assert(path_segments(q) == s);
            assert(normal_form(Seq::empty() + s, true)) by {
                assert(Seq::<Seq<u8>>::empty() + s =~= s);
            }
            lemma_run_fixpoint(Seq::empty(), s, true);
            assert(norm_run(Seq::empty(), s, true) =~= Seq::<Seq<u8>>::empty() + s);
            assert(spec_remove_dot_segments(q) =~= seq![47u8] + join_bytes(
                Seq::<Seq<u8>>::empty() + s,
                47,
            ));
            assert(Seq::<Seq<u8>>::empty() + s =~= s);
        }
    } else {
        assert(q =~= js);
        if js.len() == 0 {
            assert(q.len() == 0);
            lemma_empty_rel_normalizes(q);
        } else {
            // `q` is the join itself; it may have become absolute when the
            // first kept segment is empty.
            if s[0].len() == 0 {
                assert(s.len() >= 2) by {
                    if s.len() == 1 {
                        assert(js.len() == 0);
                    }
                }
                assert(q[0] == 47) by {
                    assert(js == s[0] + seq![47u8] + join_bytes(s.drop_first(), 47));
                }
                assert(is_absolute_path(q));
                let s2 = s.drop_first();
                assert(rel_part(q) =~= join_bytes(s2, 47)) by {
                    assert(js == s[0] + seq![47u8] + join_bytes(s2, 47));
                    assert(js =~= seq![47u8] + join_bytes(s2, 47));
                }
                // No `..` anywhere: the first element is not `..`.
                assert(forall|i: int| 0 <= i < s.len() ==> s[i] != seg_dotdot()) by {
                    assert(s[0] != seg_dotdot());
                }
                lemma_join_empty(s2, 47);
                if join_bytes(s2, 47).len() == 0 {
                    // Then s2 == [empty], q == "/".
                    assert(s2.len() == 1 && s2[0].len() == 0);
                    assert(q =~= seq![47u8]);
                    lemma_empty_rel_normalizes(q);
                } else {
                    assert(forall|i: int|
                        0 <= i < s2.len() ==> (forall|j: int|
                            0 <= j < #[trigger] s2[i].len() ==> s2[i][j] != 47)) by {
                        assert(forall|i: int| 0 <= i < s2.len() ==> s2[i] == s[i + 1]);
                    }
                    lemma_split_join(s2, 47);
                    assert(path_segments(q) == s2);
                    assert(normal_form(s2, true)) by {
                        assert(forall|i: int| 0 <= i < s2.len() ==> s2[i] == s[i + 1]);
                    }
                    assert(normal_form(Seq::empty() + s2, true)) by {
                        assert(Seq::<Seq<u8>>::empty() + s2 =~= s2);
                    }
                    lemma_run_fixpoint(Seq::empty(), s2, true);
                    assert(Seq::<Seq<u8>>::empty() + s2 =~= s2);
                    assert(spec_remove_dot_segments(q) =~= seq![47u8] + join_bytes(s2, 47));
                    assert(q =~= seq![47u8] + join_bytes(s2, 47));
                }
            } else {
                assert(q[0] == s[0][0]) by {
                    if s.len() == 1 {
                        assert(js == s[0]);
                    } else {
                        assert(js == s[0] + seq![47u8] + join_bytes(s.drop_first(), 47));
                    }
                }
                assert(q[0] != 47);
                assert(!is_absolute_path(q));
                assert(rel_part(q) == q);
                lemma_split_join(s, 47);
                assert(path_segments(q) == s);
                assert(normal_form(Seq::empty() + s, false)) by {
                    assert(Seq::<Seq<u8>>::empty() + s =~= s);
                }
                lemma_run_fixpoint(Seq::empty(), s, false);
                assert(Seq::<Seq<u8>>::empty() + s =~= s);
                assert(spec_remove_dot_segments(q) =~= join_bytes(s, 47));
            }
        }
    }
}

/// A path of at most one `/` and nothing else normalizes to itself.
proof fn lemma_empty_rel_normalizes(q: Seq<u8>)
    requires
        q.len() == 0 || q =~= seq![47u8],
    ensures
        spec_remove_dot_segments(q) == q,
{
    assert(rel_part(q) =~= Seq::<u8>::empty());
    let parts = split_bytes(Seq::<u8>::empty(), 47);
    crate::parsing::lemma_find_byte(Seq::<u8>::empty(), 47, 0);
    assert(parts == seq![Seq::<u8>::empty()]);
    let e = Seq::<u8>::empty();
    assert(e != seg_dot() && e != seg_dotdot());
    let st = norm_step(Seq::empty(), e, is_absolute_path(q));
    assert(st =~= seq![e]);
    let run = norm_run(Seq::empty(), parts, is_absolute_path(q));
    assert(parts.drop_first() =~= Seq::<Seq<u8>>::empty());
    assert(parts.drop_first().len() == 0);
    assert(norm_run(st, parts.drop_first(), is_absolute_path(q)) == st);
    assert(run == norm_run(st, parts.drop_first(), is_absolute_path(q))) by {
        assert(parts[0] == e);
    }
    assert(run == st);
    assert(join_bytes(seq![e], 47) == e);
    if is_absolute_path(q) {
        assert(spec_remove_dot_segments(q) =~= seq![47u8] + e);
        assert(seq![47u8] + e =~= q);
    } else {
        assert(spec_remove_dot_segments(q) =~= e);
        assert(q.len() == 0);
        assert(e =~= q);
    }
}

} // verus!
