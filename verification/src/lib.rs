//! Internationalized Resource Identifier (IRI) references: parsing,
//! component access, in-place mutation, path normalization, reference
//! resolution and percent-decoding-aware comparison, following RFC 3986
//! and RFC 3987 (with errata 4547 on dot-segment removal).

use vstd::prelude::*;

pub mod grammar;
pub mod parsing;
pub mod buffer;
pub mod path;
pub mod resolution;
pub mod equivalence;

verus! {

/// The single error kind: the input (or a replacement component) does not
/// match the grammar of the place it is meant for.
#[derive(Clone, Copy, Debug, PartialEq, Eq, Structural)]
pub enum Error {
    Invalid,
}

/// Splice primitive for IRI-reference buffers.
///
/// Replaces the byte range `start..end` of `buffer` with `content`,
/// shifting the tail of the buffer in place: bytes before `start` and
/// after `end` are preserved verbatim, relocated only as a block.
pub fn replace(buffer: &mut Vec<u8>, start: usize, end: usize, content: &[u8])
    requires
        start <= end <= old(buffer).len(),
        old(buffer)@.len() - (end - start) + content@.len() <= usize::MAX,
    ensures
        final(buffer)@ == old(buffer)@.subrange(0, start as int) + content@ + old(buffer)@.subrange(
            end as int,
            old(buffer)@.len() as int,
        ),
{
    let ghost old_buf = buffer@;
    let old_len: usize = buffer.len();
    let range_len: usize = end - start;
    let tail_len: usize = old_len - end;
    let new_end: usize = start + content.len();

    if range_len != content.len() {
        if range_len > content.len() {
            // Shrink: shift the tail left, low to high, then truncate.
            let mut i: usize = 0;
            while i < tail_len
                invariant
                    0 <= i <= tail_len,
                    new_end + tail_len <= buffer@.len() == old_buf.len(),
                    old_buf.len() == old_len,
                    end == start + range_len <= old_buf.len(),
                    tail_len == old_buf.len() - end,
                    new_end == start + content@.len() < end,
                    forall|j: int| 0 <= j < new_end + i ==> j < new_end || buffer@[j] == old_buf[
                        end + (j - new_end)
                    ],
                    forall|j: int| 0 <= j < new_end ==> buffer@[j] == old_buf[j],
                    forall|j: int| end + i <= j < old_buf.len() ==> buffer@[j] == old_buf[j],
                decreases tail_len - i,
            {
                let b = buffer[end + i];
                buffer[new_end + i] = b;
                i += 1;
            }
            buffer.truncate(new_end + tail_len);
        } else {
            // Grow: extend the buffer, then shift the tail right, high to low.
            let new_len: usize = new_end + tail_len;
            while buffer.len() < new_len
                invariant
                    old_buf.len() <= buffer@.len() <= new_len,
                    buffer@.subrange(0, old_buf.len() as int) == old_buf,
                decreases new_len - buffer@.len(),
            {
                buffer.push(0);
            }
            let mut i: usize = 0;
            while i < tail_len
                invariant
                    0 <= i <= tail_len,
                    buffer@.len() == new_len == new_end + tail_len,
                    old_buf.len() == old_len,
                    end == start + range_len <= old_buf.len(),
                    tail_len == old_buf.len() - end,
                    new_end == start + content@.len(),
                    new_end > end,
                    forall|j: int| 0 <= j < old_buf.len() - i ==> buffer@[j] == old_buf[j],
                    forall|j: int|
                        new_end + tail_len - i <= j < new_end + tail_len ==> buffer@[j] == old_buf[
                            end + (j - new_end)
                        ],
                decreases tail_len - i,
            {
                let b = buffer[end + tail_len - i - 1];
                buffer[new_end + tail_len - i - 1] = b;
                i += 1;
            }
        }
    }

    // Write the replacement content itself.
    let mut i: usize = 0;
    while i < content.len()
        invariant
            0 <= i <= content@.len(),
            buffer@.len() == start + content@.len() + (old_buf.len() - end),
            new_end == start + content@.len(),
            start <= end <= old_buf.len(),
            old_buf.len() == old_len,
            forall|j: int| 0 <= j < start ==> buffer@[j] == old_buf[j],
            forall|j: int| start <= j < start + i ==> buffer@[j] == content@[j - start],
            forall|j: int|
                start + content@.len() <= j < buffer@.len() ==> buffer@[j] == old_buf[
                    end + (j - start - content@.len())
                ],
        decreases content@.len() - i,
    {
        let b = content[i];
        buffer[start + i] = b;
        i += 1;
    }

    proof {
        let expected = old_buf.subrange(0, start as int) + content@ + old_buf.subrange(
            end as int,
            old_buf.len() as int,
        );
        assert(buffer@ =~= expected);
    }
}

} // verus!
