//! Planning line-aligned chunks over the input bytes.

use vstd::prelude::*;
use vstd::slice::slice_index_get;
use crate::records::NL;
use crate::records::first_nl_from;
use crate::records::lemma_first_nl_from;

verus! {

/// Index of the first line terminator at or after `start`, or the slice's
/// last index when no terminator follows. The slice must be nonempty.
pub fn find_next_newline(mmap_slice: &[u8], start: usize) -> (r: usize)
    requires
        mmap_slice@.len() >= 1,
    ensures
        ({
            let from = if start as int <= mmap_slice@.len() {
                start as int
            } else {
                mmap_slice@.len() as int
            };
            let f = first_nl_from(mmap_slice@, from);
            if f < mmap_slice@.len() {
                r as int == f
            } else {
                r as int == mmap_slice@.len() - 1
            }
        }),
{
    let n = mmap_slice.len();
    let mut i: usize = if start > n {
        n
    } else {
        start
    };
    let ghost from = i as int;
    while i < n
        invariant
            0 <= from <= i <= n,
            n == mmap_slice@.len(),
            from == if start as int <= mmap_slice@.len() {
                start as int
            } else {
                mmap_slice@.len() as int
            },
            forall|j: int| from <= j < i ==> mmap_slice@[j] != NL,
        decreases n - i,
    {
        if *slice_index_get(mmap_slice, i) == NL {
            proof {
                lemma_first_nl_from(mmap_slice@, from);
                let f = first_nl_from(mmap_slice@, from);
                if f < i {
                    assert(mmap_slice@[f] != NL);
                }
                if f > i {
                    assert(mmap_slice@[i as int] != NL);
                }
            }
            return i;
        }
        i = i + 1;
    }
    proof {
        lemma_first_nl_from(mmap_slice@, from);
        let f = first_nl_from(mmap_slice@, from);
        if f < n {
            assert(mmap_slice@[f] != NL);
        }
    }
    n - 1
}

/// One contiguous byte range `[start, end)` of the input, assigned to one
/// worker.
#[derive(Clone, Copy, PartialEq, Eq, Structural)]
pub struct Chunk {
    pub start: usize,
    pub end: usize,
}

/// Divides `[0, data.len())` into at most `n` nonempty chunks that are
/// consecutive, cover the whole input, and each end right after a line
/// terminator or at the end of the input. An empty input yields no chunks.
pub fn plan_chunks(data: &[u8], n: usize) -> (chunks: Vec<Chunk>)
    requires
        n >= 1,
    ensures
        chunks@.len() <= n,
        (chunks@.len() == 0) == (data@.len() == 0),
        chunks@.len() > 0 ==> chunks@[0].start == 0 && chunks@.last().end == data@.len(),
        forall|i: int|
            0 <= i < chunks@.len() ==> (#[trigger] chunks@[i]).start < chunks@[i].end
                <= data@.len(),
        forall|i: int|
            1 <= i < chunks@.len() ==> (#[trigger] chunks@[i]).start == chunks@[i - 1].end,
        forall|i: int|
            0 <= i < chunks@.len() ==> ((#[trigger] chunks@[i]).end == data@.len() || data@[
                chunks@[i].end - 1
            ] == NL),
{
    let l = data.len();
    let mut chunks: Vec<Chunk> = Vec::new();
    if l == 0 {
        return chunks;
    }
    let stride = l / n;
    let mut head: usize = 0;
    while head < l && chunks.len() < n
        invariant
            n >= 1,
            l == data@.len(),
            l > 0,
            head <= l,
            chunks@.len() <= n,
            chunks@.len() == n ==> head == l,
            chunks@.len() == 0 ==> head == 0,
            chunks@.len() > 0 ==> chunks@[0].start == 0 && chunks@.last().end == head,
            forall|i: int|
                0 <= i < chunks@.len() ==> (#[trigger] chunks@[i]).start < chunks@[i].end <= l,
            forall|i: int|
                1 <= i < chunks@.len() ==> (#[trigger] chunks@[i]).start == chunks@[i - 1].end,
            forall|i: int|
                0 <= i < chunks@.len() ==> ((#[trigger] chunks@[i]).end == l || data@[chunks@[
                    i
                ].end - 1] == NL),
        decreases l - head,
    {
        let end: usize;
        if chunks.len() == n - 1 || stride >= l - head {
            end = l;
        } else {
            // head + stride < l, so the search starts inside the slice
            let nl = find_next_newline(data, head + stride);
            proof {
                lemma_first_nl_from(data@, head + stride as int);
            }
            let e1 = nl + 1;
            if e1 < l {
                proof {
                    let f = first_nl_from(data@, head + stride as int);
                    assert(f < l);
                    assert(nl as int == f);
                    assert(data@[nl as int] == NL);
                }
                end = e1;
            } else {
                end = l;
            }
            proof {
                assert(end > head);
            }
        }
        let ghost prev = chunks@;
        chunks.push(Chunk { start: head, end });
        proof {
            assert(chunks@.last() == chunks@[prev.len() as int]);
            assert(forall|i: int| 0 <= i < prev.len() ==> chunks@[i] == prev[i]);
            assert(chunks@[prev.len() as int] == (Chunk { start: head, end }));
            assert forall|i2: int|
                1 <= i2 < chunks@.len() implies (#[trigger] chunks@[i2]).start == chunks@[i2
                - 1].end by {
                if i2 < prev.len() {
                    assert(chunks@[i2] == prev[i2]);
                    assert(chunks@[i2 - 1] == prev[i2 - 1]);
                } else {
                    assert(i2 == prev.len());
                    assert(chunks@[i2 - 1] == prev[i2 - 1]);
                    assert(prev.last().end == head);
                }
            }
            assert forall|i2: int|
                0 <= i2 < chunks@.len() implies ((#[trigger] chunks@[i2]).end == l || data@[
                chunks@[i2].end - 1] == NL) by {
                if i2 < prev.len() {
                    assert(chunks@[i2] == prev[i2]);
                }
            }
        }
        head = end;
    }
    chunks
}

} // verus!
