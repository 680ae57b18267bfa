//! The index arithmetic of the word-reversed layout.
//!
//! The backing buffer stores each `ws`-byte word with its bytes in reverse
//! order relative to the byte stream a caller reads and writes.  Everything
//! the stream does reduces to one map between a logical byte position and the
//! physical slot that holds it; this module defines that map and proves its
//! basic facts.

use vstd::prelude::*;
use vstd::arithmetic::div_mod::{
    lemma_div_pos_is_pos, lemma_fundamental_div_mod, lemma_fundamental_div_mod_converse,
    lemma_mod_bound, lemma_mod_multiples_basic,
};
use vstd::arithmetic::mul::{
    lemma_mul_inequality, lemma_mul_is_commutative, lemma_mul_is_distributive_add_other_way,
    lemma_mul_is_distributive_sub_other_way,
};

verus! {

/// Physical index of the byte a caller sees at logical index `q`, for words
/// of `ws` bytes: same word as `q`, mirrored within the word.
pub open spec fn flip_index(q: int, ws: int) -> int {
    (q / ws) * ws + (ws - 1) - (q % ws)
}

/// The logical byte stream of a physical buffer: each word's bytes reversed.
pub open spec fn logical_seq(data: Seq<u8>, ws: int) -> Seq<u8> {
    Seq::new(data.len(), |q: int| data[flip_index(q, ws)])
}

/// `l` with the range starting at `pos` overwritten by `b` (indices past the
/// end of `l` are dropped).
pub open spec fn splice(l: Seq<u8>, pos: int, b: Seq<u8>) -> Seq<u8> {
    Seq::new(l.len(), |q: int| if pos <= q < pos + b.len() { b[q - pos] } else { l[q] })
}

/// How many bytes a read or write starting at `pos` moves: all of the `l`
/// bytes asked for, or only those whose logical position lies inside a buffer
/// of `len` bytes.
pub open spec fn transfer_count(pos: int, len: int, l: int) -> int {
    if pos >= len {
        0
    } else if l <= len - pos {
        l
    } else {
        len - pos
    }
}

/// The cursor a write leaves behind: one past the last physical slot the call
/// stored to, which is the highest slot among its targets, or that highest
/// target itself when it lay past the end of the buffer and nothing was
/// stored there.  A call with no input only rewinds to the word start.
pub open spec fn write_end_pos(pos: int, ws: int, len: int, l: int) -> int {
    let m = pos % ws;
    let a = pos - m;
    if l == 0 {
        a
    } else {
        let last_word = (m + l - 1) / ws;
        let t = if last_word == 0 {
            a + (ws - 1) - m
        } else {
            a + last_word * ws + (ws - 1)
        };
        if t < len {
            t + 1
        } else {
            t
        }
    }
}

/// The cursor a read leaves behind: reads consume whole words, so it is the
/// end of the last word the call touched, or just the start of the current
/// word when nothing was read.
pub open spec fn read_end_pos(pos: int, ws: int, n: int) -> int {
    let m = pos % ws;
    if n == 0 {
        pos - m
    } else {
        let x = m + n;
        let words = if x % ws == 0 {
            x / ws
        } else {
            x / ws + 1
        };
        pos - m + words * ws
    }
}

/// The flipped index lies in the same word as `q`.
pub proof fn lemma_flip_in_word(q: int, ws: int)
    requires
        1 <= ws,
        0 <= q,
    ensures
        (q / ws) * ws <= flip_index(q, ws) < (q / ws) * ws + ws,
        flip_index(q, ws) / ws == q / ws,
        flip_index(q, ws) % ws == (ws - 1) - (q % ws),
{
    lemma_fundamental_div_mod(q, ws);
    lemma_mod_bound(q, ws);
    lemma_fundamental_div_mod_converse(flip_index(q, ws), ws, q / ws, (ws - 1) - (q % ws));
}

/// When the buffer holds a whole number of words, every index of the word
/// containing `q` lies inside the buffer.
pub proof fn lemma_word_in_bounds(q: int, ws: int, n: int)
    requires
        1 <= ws,
        0 <= q < n,
        n % ws == 0,
    ensures
        (q / ws) * ws + ws <= n,
        0 <= (q / ws) * ws,
{
    let wq = q / ws;
    let wn = n / ws;
    lemma_fundamental_div_mod(q, ws);
    lemma_mod_bound(q, ws);
    lemma_fundamental_div_mod(n, ws);
    lemma_mul_is_commutative(ws, wq);
    lemma_mul_is_commutative(ws, wn);
    if wq >= wn {
        lemma_mul_inequality(wn, wq, ws);
        assert(false);
    }
    lemma_mul_inequality(wq + 1, wn, ws);
    lemma_mul_is_distributive_add_other_way(ws, wq, 1);
    lemma_div_pos_is_pos(q, ws);
    lemma_mul_inequality(0, wq, ws);
}

/// A logical index inside the buffer flips to a physical index inside it.
pub proof fn lemma_flip_bounds(q: int, ws: int, n: int)
    requires
        1 <= ws,
        0 <= q < n,
        n % ws == 0,
    ensures
        0 <= flip_index(q, ws) < n,
{
    lemma_flip_in_word(q, ws);
    lemma_word_in_bounds(q, ws, n);
}

/// Rounding `x` up to whole words stays inside a buffer of `n` bytes when `x`
/// itself does and `n` is a whole number of words.
pub proof fn lemma_whole_words_in_bounds(x: int, ws: int, n: int)
    requires
        1 <= ws,
        0 <= x <= n,
        n % ws == 0,
    ensures
        (if x % ws == 0 {
            x / ws
        } else {
            x / ws + 1
        }) * ws <= n,
        0 <= (if x % ws == 0 {
            x / ws
        } else {
            x / ws + 1
        }) * ws,
{
    lemma_fundamental_div_mod(x, ws);
    lemma_mod_bound(x, ws);
    lemma_div_pos_is_pos(x, ws);
    lemma_mul_is_commutative(ws, x / ws);
    if x % ws == 0 {
        lemma_mul_inequality(0, x / ws, ws);
    } else {
        assert(x < n);
        lemma_word_in_bounds(x, ws, n);
        lemma_mul_is_distributive_add_other_way(ws, x / ws, 1);
        lemma_mul_inequality(0, x / ws + 1, ws);
    }
}

/// Mirroring a position within its word twice gives the position back.
pub proof fn lemma_flip_involution(q: int, ws: int)
    requires
        1 <= ws,
        0 <= q,
    ensures
        flip_index(flip_index(q, ws), ws) == q,
{
    lemma_fundamental_div_mod(q, ws);
    lemma_mod_bound(q, ws);
    lemma_flip_in_word(q, ws);
    lemma_mul_is_commutative(ws, q / ws);
}

/// Facts about the start of the word containing `pos`, inside a buffer of
/// `len` bytes that is a whole number of words.
pub proof fn lemma_align_down(pos: int, ws: int, len: int)
    requires
        1 <= ws,
        0 <= pos,
        len % ws == 0,
    ensures
        0 <= pos - pos % ws <= pos,
        (pos - pos % ws) % ws == 0,
        (len - (pos - pos % ws)) % ws == 0,
{
    let w = pos / ws;
    lemma_fundamental_div_mod(pos, ws);
    lemma_mod_bound(pos, ws);
    lemma_fundamental_div_mod(len, ws);
    lemma_mul_is_commutative(ws, w);
    lemma_mul_is_commutative(ws, len / ws);
    lemma_div_pos_is_pos(pos, ws);
    lemma_mul_inequality(0, w, ws);
    lemma_mod_multiples_basic(w, ws);
    lemma_mul_is_distributive_sub_other_way(ws, len / ws, w);
    lemma_mod_multiples_basic(len / ws - w, ws);
}

/// Compute the physical slot of logical index `q`, for a buffer of `n` bytes
/// (a whole number of `ws`-sized words) that contains `q`.
pub(crate) fn flip_at(q: usize, ws: usize, Ghost(n): Ghost<int>) -> (t: usize)
    requires
        1 <= ws,
        (q as int) < n,
        n % (ws as int) == 0,
        n <= usize::MAX,
    ensures
        t == flip_index(q as int, ws as int),
        (t as int) < n,
{
    proof {
        lemma_fundamental_div_mod(q as int, ws as int);
        lemma_mod_bound(q as int, ws as int);
        lemma_word_in_bounds(q as int, ws as int, n);
        lemma_mul_is_commutative(ws as int, q as int / ws as int);
    }
    let word_start = (q / ws) * ws;
    word_start + (ws - 1) - q % ws
}

} // verus!
