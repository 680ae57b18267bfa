//! Properties of the word-reversed layout as a whole.

use vstd::prelude::*;

use crate::layout::flip_index;
use crate::layout::lemma_flip_bounds;
use crate::layout::lemma_flip_involution;
use crate::layout::logical_seq;
use crate::layout::splice;

verus! {

/// Reversing the words of a buffer twice restores it exactly: the physical
/// image of the logical stream is the buffer itself, so the read and write
/// directions of the adapter are mirror images of one another.
pub proof fn lemma_reversal_involution(data: Seq<u8>, ws: int)
    requires
        1 <= ws,
        data.len() as int % ws == 0,
    ensures
        logical_seq(logical_seq(data, ws), ws) == data,
{
    let once = logical_seq(data, ws);
    assert forall|q: int| 0 <= q < data.len() implies logical_seq(once, ws)[q] == data[q] by {
        lemma_flip_bounds(q, ws, data.len() as int);
        lemma_flip_involution(q, ws);
        assert(once[flip_index(q, ws)] == data[flip_index(flip_index(q, ws), ws)]);
    }
    assert(logical_seq(once, ws) =~= data);
}

/// Round trip: a write followed by a read of the same range reproduces the
/// bytes exactly.  A write at `pos` turns the logical stream `l` into
/// `splice(l, pos, b)`, and a read of that range returns its subrange, which
/// is `b` again — the word reversal is invisible end to end, from any offset.
pub proof fn lemma_write_then_read(l: Seq<u8>, pos: int, b: Seq<u8>)
    requires
        0 <= pos,
        pos + b.len() <= l.len(),
    ensures
        splice(l, pos, b).subrange(pos, pos + b.len() as int) == b,
{
    assert(splice(l, pos, b).subrange(pos, pos + b.len() as int) =~= b);
}

/// Interleaved writes compose: after writing `b1` at `p1` and then `b2` at
/// `p2`, every logical byte holds the later write where the two ranges
/// overlap, the earlier write where only it reached, and its old value
/// elsewhere — whatever the offsets and lengths, aligned or not.
pub proof fn lemma_interleaved_writes(l: Seq<u8>, p1: int, b1: Seq<u8>, p2: int, b2: Seq<u8>)
    requires
        0 <= p1,
        p1 + b1.len() <= l.len(),
        0 <= p2,
        p2 + b2.len() <= l.len(),
    ensures
        forall|q: int|
            0 <= q < l.len() ==> #[trigger] splice(splice(l, p1, b1), p2, b2)[q] == if p2 <= q
                < p2 + b2.len() {
                b2[q - p2]
            } else if p1 <= q < p1 + b1.len() {
                b1[q - p1]
            } else {
                l[q]
            },
{
}

} // verus!
