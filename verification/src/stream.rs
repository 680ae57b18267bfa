//! The word-reversing stream adapter.

use vstd::prelude::*;

use crate::layout::{
    flip_at, flip_index, lemma_align_down, lemma_flip_bounds, lemma_flip_involution,
    lemma_whole_words_in_bounds, logical_seq, read_end_pos, splice, transfer_count,
    write_end_pos,
};
use vstd::arithmetic::div_mod::{
    lemma_div_pos_is_pos, lemma_fundamental_div_mod, lemma_mod_bound,
};
use vstd::arithmetic::mul::{lemma_mul_inequality, lemma_mul_is_commutative};

verus! {

/// Where a seek measures its target from, mirroring the conventional
/// start / current / end positioning.
#[derive(Clone, Copy, Debug, PartialEq, Eq, Structural)]
pub enum SeekFrom {
    Start(u64),
    Current(i64),
    End(i64),
}

/// The one failure the adapter can report: a seek whose target would be
/// negative or would not fit the cursor.
#[derive(Clone, Copy, Debug, PartialEq, Eq, Structural)]
pub enum StreamError {
    InvalidSeek,
}

/// A sequential byte stream over a buffer whose words are stored with their
/// bytes reversed.  Reads and writes are transparent: the caller sees plain
/// logical byte order, and the reversal happens only in the buffer.
pub struct ReversedWords {
    /// The backing buffer, in physical (word-reversed) byte order.
    pub data: Vec<u8>,
    /// Bytes per word; fixed at construction.
    pub word_size: u8,
    /// The logical cursor.  Seeking may place it past the end of the buffer;
    /// reads there return nothing and writes there store nothing.
    pub pos: u64,
}

impl ReversedWords {
    /// The buffer holds a whole number of words.
    pub open spec fn wf(&self) -> bool {
        &&& 1 <= self.word_size
        &&& self.data@.len() as int % (self.word_size as int) == 0
    }

    /// The byte stream a caller sees: the buffer with each word reversed.
    pub open spec fn logical(&self) -> Seq<u8> {
        logical_seq(self.data@, self.word_size as int)
    }

    /// Wrap a buffer with the default word size of four bytes.
    pub fn new(ram: Vec<u8>) -> (s: ReversedWords)
        requires
            ram@.len() % 4 == 0,
        ensures
            s.wf(),
            s.data@ == ram@,
            s.word_size == 4,
            s.pos == 0,
    {
        ReversedWords { data: ram, word_size: 4, pos: 0 }
    }

    /// Wrap a buffer with an explicit word size.
    pub fn new_with_word_size(ram: Vec<u8>, word_size: u8) -> (s: ReversedWords)
        requires
            1 <= word_size,
            ram@.len() as int % (word_size as int) == 0,
        ensures
            s.wf(),
            s.data@ == ram@,
            s.word_size == word_size,
            s.pos == 0,
    {
        ReversedWords { data: ram, word_size, pos: 0 }
    }

    /// Give the backing buffer back, in physical order.
    pub fn into_inner(self) -> (r: Vec<u8>)
        ensures
            r@ == self.data@,
    {
        self.data
    }

    /// Where a seek would land, measured from the start of the stream.
    pub open spec fn seek_target(&self, target: SeekFrom) -> int {
        match target {
            SeekFrom::Start(n) => n as int,
            SeekFrom::Current(d) => self.pos + d,
            SeekFrom::End(d) => self.data@.len() + d,
        }
    }

    /// Move the logical cursor.  No reversal arithmetic happens here: the
    /// next read or write recomputes its word alignment from the new
    /// position.  Fails exactly when the target is negative or does not fit
    /// the cursor, leaving the position unchanged.
    pub fn seek(&mut self, target: SeekFrom) -> (r: Result<u64, StreamError>)
        ensures
            final(self).data@ == old(self).data@,
            final(self).word_size == old(self).word_size,
            0 <= old(self).seek_target(target) <= u64::MAX ==> {
                &&& r == Ok::<u64, StreamError>(old(self).seek_target(target) as u64)
                &&& final(self).pos == old(self).seek_target(target)
            },
            !(0 <= old(self).seek_target(target) <= u64::MAX) ==> {
                &&& r == Err::<u64, StreamError>(StreamError::InvalidSeek)
                &&& final(self).pos == old(self).pos
            },
    {
        match target {
            SeekFrom::Start(n) => {
                self.pos = n;
                Ok(n)
            },
            SeekFrom::Current(d) => {
                match Self::offset_by(self.pos, d) {
                    Ok(n) => {
                        self.pos = n;
                        Ok(n)
                    },
                    Err(e) => Err(e),
                }
            },
            SeekFrom::End(d) => {
                let len: u64 = self.data.len() as u64;
                match Self::offset_by(len, d) {
                    Ok(n) => {
                        self.pos = n;
                        Ok(n)
                    },
                    Err(e) => Err(e),
                }
            },
        }
    }

    /// `base` moved by the signed distance `d`, when that stays a valid
    /// cursor position.
    fn offset_by(base: u64, d: i64) -> (r: Result<u64, StreamError>)
        ensures
            0 <= base + d <= u64::MAX ==> r == Ok::<u64, StreamError>((base + d) as u64),
            !(0 <= base + d <= u64::MAX) ==> r == Err::<u64, StreamError>(
                StreamError::InvalidSeek,
            ),
    {
        if d >= 0 {
            let dist = d as u64;
            if base <= u64::MAX - dist {
                Ok(base + dist)
            } else {
                Err(StreamError::InvalidSeek)
            }
        } else {
            let dist = ((-(d + 1)) as u64) + 1;
            if base >= dist {
                Ok(base - dist)
            } else {
                Err(StreamError::InvalidSeek)
            }
        }
    }

    /// The current logical cursor position.
    pub fn stream_position(&mut self) -> (r: Result<u64, StreamError>)
        ensures
            *final(self) == *old(self),
            r == Ok::<u64, StreamError>(old(self).pos),
    {
        Ok(self.pos)
    }

    /// Write `buf` at the current logical position.  The bytes land in the
    /// buffer word-reversed; to a caller the effect is a plain splice of
    /// `buf` into the logical stream at the cursor.  Bytes whose logical
    /// position lies past the end of the buffer are not stored: the call
    /// returns the short count and never fails.  The cursor is left where
    /// the last physical store put it (see `write_end_pos`), not at the next
    /// logical position; a caller chaining writes should re-seek in between.
    #[verifier::loop_isolation(false)]
    pub fn write(&mut self, buf: &Vec<u8>) -> (r: Result<usize, StreamError>)
        requires
            old(self).wf(),
            old(self).pos + buf@.len() + old(self).word_size <= u64::MAX,
        ensures
            final(self).wf(),
            final(self).word_size == old(self).word_size,
            final(self).data@.len() == old(self).data@.len(),
            r == Ok::<usize, StreamError>(
                transfer_count(
                    old(self).pos as int,
                    old(self).data@.len() as int,
                    buf@.len() as int,
                ) as usize,
            ),
            final(self).logical() == splice(
                old(self).logical(),
                old(self).pos as int,
                buf@.subrange(
                    0,
                    transfer_count(
                        old(self).pos as int,
                        old(self).data@.len() as int,
                        buf@.len() as int,
                    ),
                ),
            ),
            final(self).pos == write_end_pos(
                old(self).pos as int,
                old(self).word_size as int,
                old(self).data@.len() as int,
                buf@.len() as int,
            ),
    {
        let ws: u64 = self.word_size as u64;
        let len: u64 = self.data.len() as u64;
        let m: u64 = self.pos % ws;
        let ghost p = self.pos as int;
        let ghost wsi = ws as int;
        let ghost old_data = self.data@;

        let count: usize = if self.pos >= len {
            0
        } else {
            let rem = len - self.pos;
            if buf.len() as u64 <= rem {
                buf.len()
            } else {
                rem as usize
            }
        };

        if count > 0 {
            let start: usize = self.pos as usize;
            let wsu: usize = self.word_size as usize;
            for i in 0..count
                invariant
                    self.word_size == old(self).word_size,
                    self.pos == old(self).pos,
                    self.data@.len() == old_data.len(),
                    forall|j: int| 0 <= j < i ==> self.data@[flip_index(p + j, wsi)] == buf@[j],
                    forall|k: int|
                        0 <= k < old_data.len() && !(p <= flip_index(k, wsi) < p + i)
                            ==> self.data@[k] == old_data[k],
            {
                let t = flip_at(start + i, wsu, Ghost(self.data@.len() as int));
                self.data.set(t, buf[i]);
                proof {
                    lemma_flip_involution(p + i, wsi);
                    assert forall|j: int| 0 <= j <= i implies self.data@[#[trigger] flip_index(
                        p + j,
                        wsi,
                    )] == buf@[j] by {
                        lemma_flip_bounds(p + j, wsi, old_data.len() as int);
                        if j < i {
                            lemma_flip_involution(p + j, wsi);
                        }
                    }
                }
            }
        }

        proof {
            let c = transfer_count(p, old_data.len() as int, buf@.len() as int);
            let before = logical_seq(old_data, wsi);
            let after = logical_seq(self.data@, wsi);
            let patch = buf@.subrange(0, c);
            assert forall|q: int| 0 <= q < old_data.len() implies after[q] == splice(
                before,
                p,
                patch,
            )[q] by {
                lemma_flip_bounds(q, wsi, old_data.len() as int);
                if !(p <= q < p + c) {
                    lemma_flip_involution(q, wsi);
                }
            }
            assert(after =~= splice(before, p, patch));
        }

        // The cursor lands where the last physical store left it.
        proof {
            lemma_align_down(p, wsi, len as int);
        }
        let a: u64 = self.pos - m;
        if buf.len() == 0 {
            self.pos = a;
        } else {
            let l: u64 = buf.len() as u64;
            let last_word: u64 = (m + l - 1) / ws;
            proof {
                lemma_fundamental_div_mod(m as int + l as int - 1, wsi);
                lemma_mod_bound(m as int + l as int - 1, wsi);
                lemma_div_pos_is_pos(m as int + l as int - 1, wsi);
                lemma_mul_is_commutative(wsi, (m as int + l as int - 1) / wsi);
            }
            let t: u64 = if last_word == 0 {
                a + (ws - 1) - m
            } else {
                a + last_word * ws + (ws - 1)
            };
            self.pos = if t < len {
                t + 1
            } else {
                t
            };
        }
        Ok(count)
    }

    /// Read from the current logical position into `out`, filling it from
    /// the front.  The caller receives plain logical bytes: each word of the
    /// buffer is handed out with its bytes reversed back.  Reaching the end
    /// of the buffer is not an error: the call returns however many bytes
    /// remained, down to zero.  Reads consume whole words, so the cursor is
    /// left at the end of the last word touched (see `read_end_pos`).
    #[verifier::loop_isolation(false)]
    pub fn read(&mut self, out: &mut Vec<u8>) -> (r: Result<usize, StreamError>)
        requires
            old(self).wf(),
        ensures
            final(self).wf(),
            final(self).data@ == old(self).data@,
            final(self).word_size == old(self).word_size,
            final(out)@.len() == old(out)@.len(),
            r == Ok::<usize, StreamError>(
                transfer_count(
                    old(self).pos as int,
                    old(self).data@.len() as int,
                    old(out)@.len() as int,
                ) as usize,
            ),
            forall|j: int|
                0 <= j < transfer_count(
                    old(self).pos as int,
                    old(self).data@.len() as int,
                    old(out)@.len() as int,
                ) ==> final(out)@[j] == old(self).logical()[old(self).pos + j],
            forall|j: int|
                transfer_count(
                    old(self).pos as int,
                    old(self).data@.len() as int,
                    old(out)@.len() as int,
                ) <= j < old(out)@.len() ==> final(out)@[j] == old(out)@[j],
            final(self).pos == read_end_pos(
                old(self).pos as int,
                old(self).word_size as int,
                transfer_count(
                    old(self).pos as int,
                    old(self).data@.len() as int,
                    old(out)@.len() as int,
                ),
            ),
    {
        let ws: u64 = self.word_size as u64;
        let len: u64 = self.data.len() as u64;
        let m: u64 = self.pos % ws;
        let ghost p = self.pos as int;
        let ghost wsi = ws as int;

        let count: usize = if self.pos >= len {
            0
        } else {
            let rem = len - self.pos;
            if out.len() as u64 <= rem {
                out.len()
            } else {
                rem as usize
            }
        };

        if count > 0 {
            let start: usize = self.pos as usize;
            let wsu: usize = self.word_size as usize;
            for j in 0..count
                invariant
                    out@.len() == old(out)@.len(),
                    forall|i: int|
                        0 <= i < j ==> out@[i] == logical_seq(self.data@, wsi)[p + i],
                    forall|i: int| j <= i < out@.len() ==> out@[i] == old(out)@[i],
            {
                let t = flip_at(start + j, wsu, Ghost(self.data@.len() as int));
                let byte = self.data[t];
                out.set(j, byte);
            }
        }

        // The cursor moves in whole words.
        proof {
            lemma_align_down(p, wsi, len as int);
        }
        let a: u64 = self.pos - m;
        if count == 0 {
            self.pos = a;
        } else {
            let x: u64 = m + count as u64;
            proof {
                lemma_whole_words_in_bounds(x as int, wsi, len as int - a as int);
            }
            let full: u64 = x / ws;
            let words: u64 = if x % ws == 0 {
                full
            } else {
                proof {
                    lemma_mul_inequality(1, wsi, full as int + 1);
                    lemma_mul_is_commutative(wsi, full as int + 1);
                }
                full + 1
            };
            proof {
                lemma_mul_inequality(1, wsi, words as int);
                lemma_mul_is_commutative(wsi, words as int);
            }
            self.pos = a + words * ws;
        }
        Ok(count)
    }

    /// Nothing is buffered, so there is nothing to flush.
    pub fn flush(&mut self) -> (r: Result<(), StreamError>)
        ensures
            *final(self) == *old(self),
            r == Ok::<(), StreamError>(()),
    {
        Ok(())
    }
}

} // verus!
