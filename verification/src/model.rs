//! The mathematical model of a bounded buffer: what it holds, what one
//! checked write does to it, and what holds of a run of writes.

use vstd::prelude::*;
use vstd::seq_lib::lemma_flatten_concat;

verus! {

/// What a buffer holds as far as a caller can observe it: the bytes written
/// so far, the sticky error flag, and the capacity.
pub struct BufferView {
    pub bytes: Seq<u8>,
    pub error: bool,
    pub capacity: nat,
}

impl BufferView {
    /// An empty buffer of the given capacity with no error recorded.
    pub open spec fn fresh(capacity: nat) -> BufferView {
        BufferView { bytes: Seq::empty(), error: false, capacity }
    }

    /// The written bytes never exceed the capacity.
    pub open spec fn wf(self) -> bool {
        self.bytes.len() <= self.capacity
    }

    /// A write of `n` more bytes would succeed.
    pub open spec fn fits(self, n: nat) -> bool {
        !self.error && self.bytes.len() + n <= self.capacity
    }

    /// The bytes of `chunk` placed after the bytes already written.
    pub open spec fn append(self, chunk: Seq<u8>) -> BufferView {
        BufferView { bytes: self.bytes + chunk, ..self }
    }

    /// The same capacity with nothing written and no error recorded.
    pub open spec fn reset(self) -> BufferView {
        BufferView { bytes: Seq::empty(), error: false, ..self }
    }

    /// The same content with the error flag set.
    pub open spec fn fail(self) -> BufferView {
        BufferView { error: true, ..self }
    }

    /// One checked write: the whole chunk is appended when it fits, otherwise
    /// nothing is written and the error flag is set.
    pub open spec fn write(self, chunk: Seq<u8>) -> BufferView {
        if self.fits(chunk.len()) {
            self.append(chunk)
        } else {
            self.fail()
        }
    }

    /// A run of checked writes, in order.
    pub open spec fn write_all(self, chunks: Seq<Seq<u8>>) -> BufferView
        decreases chunks.len(),
    {
        if chunks.len() == 0 {
            self
        } else {
            self.write(chunks.first()).write_all(chunks.drop_first())
        }
    }

    /// How many writes of a run are accepted: the writes in front of the
    /// first one that does not fit.
    pub open spec fn accepted(self, chunks: Seq<Seq<u8>>) -> nat
        decreases chunks.len(),
    {
        if chunks.len() == 0 || !self.fits(chunks.first().len()) {
            0
        } else {
            1 + self.append(chunks.first()).accepted(chunks.drop_first())
        }
    }

    /// Once the error flag is set, a run of writes changes nothing.
    pub proof fn lemma_write_all_sticky(self, chunks: Seq<Seq<u8>>)
        requires
            self.error,
        ensures
            self.write_all(chunks) == self,
        decreases chunks.len(),
    {
        if chunks.len() > 0 {
            self.lemma_write_all_sticky(chunks.drop_first());
        }
    }

    /// Writing two runs one after the other is writing their concatenation.
    pub proof fn lemma_write_all_concat(self, first: Seq<Seq<u8>>, second: Seq<Seq<u8>>)
        ensures
            self.write_all(first + second) == self.write_all(first).write_all(second),
        decreases first.len(),
    {
        if first.len() == 0 {
            assert(first + second =~= second);
        } else {
            assert((first + second).first() == first.first());
            assert((first + second).drop_first() =~= first.drop_first() + second);
            self.write(first.first()).lemma_write_all_concat(first.drop_first(), second);
        }
    }

    /// A run of one write is that write.
    pub proof fn lemma_write_all_one(self, chunk: Seq<u8>)
        ensures
            self.write_all(seq![chunk]) == self.write(chunk),
    {
        let chunks = seq![chunk];
        assert(chunks.drop_first().len() == 0);
        assert(self.write(chunk).write_all(chunks.drop_first()) == self.write(chunk));
    }

    /// One more write at the end of a run is one more write after the run.
    pub proof fn lemma_write_all_push(self, chunks: Seq<Seq<u8>>, chunk: Seq<u8>)
        ensures
            self.write_all(chunks.push(chunk)) == self.write_all(chunks).write(chunk),
    {
        assert(chunks.push(chunk) =~= chunks + seq![chunk]);
        self.lemma_write_all_concat(chunks, seq![chunk]);
        self.write_all(chunks).lemma_write_all_one(chunk);
    }

    /// A run whose total length fits is written in full, with no error.
    pub proof fn lemma_write_all_fits(self, chunks: Seq<Seq<u8>>)
        requires
            self.fits(chunks.flatten().len()),
        ensures
            self.write_all(chunks) == self.append(chunks.flatten()),
        decreases chunks.len(),
    {
        if chunks.len() == 0 {
            assert(self.bytes + chunks.flatten() =~= self.bytes);
        } else {
            let head = chunks.first();
            let tail = chunks.drop_first();
            assert(chunks.flatten() == head + tail.flatten());
            self.write(head).lemma_write_all_fits(tail);
            assert((self.bytes + head) + tail.flatten() =~= self.bytes + (head + tail.flatten()));
        }
    }

    /// A run of writes keeps the written bytes within the capacity.
    pub proof fn lemma_write_all_wf(self, chunks: Seq<Seq<u8>>)
        requires
            self.wf(),
        ensures
            self.write_all(chunks).wf(),
            self.write_all(chunks).capacity == self.capacity,
        decreases chunks.len(),
    {
        if chunks.len() > 0 {
            self.write(chunks.first()).lemma_write_all_wf(chunks.drop_first());
        }
    }

    /// What a run of writes leaves behind, whether it fits or not: the bytes
    /// of the writes that were accepted, and nothing of the first write that
    /// did not fit nor of any write after it. The error flag is set exactly
    /// when it was set before or a write was refused.
    pub proof fn lemma_write_all_stops_at_first_refusal(self, chunks: Seq<Seq<u8>>)
        ensures
            self.accepted(chunks) <= chunks.len(),
            self.write_all(chunks).bytes == self.bytes + chunks.take(
                self.accepted(chunks) as int,
            ).flatten(),
            self.write_all(chunks).error == (self.error || self.accepted(chunks) < chunks.len()),
            self.write_all(chunks).capacity == self.capacity,
            self.accepted(chunks) < chunks.len() ==> !self.append(
                chunks.take(self.accepted(chunks) as int).flatten(),
            ).fits(chunks[self.accepted(chunks) as int].len()),
        decreases chunks.len(),
    {
        let k = self.accepted(chunks);
        if chunks.len() == 0 {
            assert(chunks.take(0).flatten() =~= Seq::<u8>::empty());
            assert(self.bytes + Seq::<u8>::empty() =~= self.bytes);
        } else if !self.fits(chunks.first().len()) {
            assert(chunks.take(0).flatten() =~= Seq::<u8>::empty());
            assert(self.bytes + Seq::<u8>::empty() =~= self.bytes);
            assert(self.append(Seq::<u8>::empty()) == self);
            self.fail().lemma_write_all_sticky(chunks.drop_first());
        } else {
            let head = chunks.first();
            let tail = chunks.drop_first();
            let next = self.append(head);
            next.lemma_write_all_stops_at_first_refusal(tail);
            let j = next.accepted(tail);
            assert(k == j + 1);
            assert(chunks.take(k as int) =~= seq![head] + tail.take(j as int));
            lemma_flatten_concat(seq![head], tail.take(j as int));
            seq![head].lemma_flatten_one_element();
            assert(self.bytes + (head + tail.take(j as int).flatten()) =~= next.bytes + tail.take(
                j as int,
            ).flatten());
            if j < tail.len() {
                assert(tail[j as int] == chunks[k as int]);
                assert(next.append(tail.take(j as int).flatten()) == self.append(
                    chunks.take(k as int).flatten(),
                ));
            }
        }
    }

    /// Every write of a run is accepted exactly when the buffer is not in
    /// error and the whole run fits; an empty run is accepted in any case.
    pub proof fn lemma_all_accepted_iff_fits(self, chunks: Seq<Seq<u8>>)
        ensures
            self.accepted(chunks) == chunks.len() <==> (chunks.len() == 0 || self.fits(
                chunks.flatten().len(),
            )),
        decreases chunks.len(),
    {
        if chunks.len() > 0 {
            let head = chunks.first();
            let tail = chunks.drop_first();
            assert(chunks.flatten() == head + tail.flatten());
            if self.fits(head.len()) {
                self.append(head).lemma_all_accepted_iff_fits(tail);
                if tail.len() == 0 {
                    assert(tail.flatten() =~= Seq::<u8>::empty());
                }
            }
        }
    }
}

} // verus!
