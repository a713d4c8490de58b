//! The bounded buffer: fixed-capacity byte storage with a write cursor and a
//! sticky error flag.

use crate::model::BufferView;
use vstd::prelude::*;
use vstd::slice::slice_subrange;
use vstd::slice::slice_to_vec;
use vstd::string::StringSliceAdditionalSpecFns;
use vstd::utf8::decode_utf8;
use vstd::utf8::encode_utf8_decode_utf8;
use vstd::utf8::valid_utf8;

verus! {

/// The error that `core::str::from_utf8` reports; the library only tells it
/// apart from success.
#[verifier::external_type_specification]
#[verifier::external_body]
pub struct ExUtf8Error(core::str::Utf8Error);

/// `core::str::from_utf8` succeeds exactly on well-formed UTF-8, and the
/// string slice it then returns is made of the very bytes it was given.
pub assume_specification[ core::str::from_utf8 ](v: &[u8]) -> (r: Result<
    &str,
    core::str::Utf8Error,
>)
    ensures
        r is Ok <==> valid_utf8(v@),
        r matches Ok(s) ==> s.spec_bytes() == v@,
;

/// The eight bytes of a 64-bit word, least significant first.
spec fn word8_bytes(w: u64) -> Seq<u8> {
    seq![
        (w & 0xff) as u8,
        ((w >> 8) & 0xff) as u8,
        ((w >> 16) & 0xff) as u8,
        ((w >> 24) & 0xff) as u8,
        ((w >> 32) & 0xff) as u8,
        ((w >> 40) & 0xff) as u8,
        ((w >> 48) & 0xff) as u8,
        ((w >> 56) & 0xff) as u8,
    ]
}

/// The four bytes of a 32-bit word, least significant first.
spec fn word4_bytes(w: u32) -> Seq<u8> {
    seq![
        (w & 0xff) as u8,
        ((w >> 8) & 0xff) as u8,
        ((w >> 16) & 0xff) as u8,
        ((w >> 24) & 0xff) as u8,
    ]
}

/// Eight bytes put together as a little-endian word come apart as the same
/// eight bytes.
proof fn lemma_pack8(b0: u8, b1: u8, b2: u8, b3: u8, b4: u8, b5: u8, b6: u8, b7: u8, w: u64)
    by (bit_vector)
    requires
        w == (b0 as u64) | ((b1 as u64) << 8) | ((b2 as u64) << 16) | ((b3 as u64) << 24) | ((
        b4 as u64) << 32) | ((b5 as u64) << 40) | ((b6 as u64) << 48) | ((b7 as u64) << 56),
    ensures
        (w & 0xff) == b0 as u64,
        ((w >> 8) & 0xff) == b1 as u64,
        ((w >> 16) & 0xff) == b2 as u64,
        ((w >> 24) & 0xff) == b3 as u64,
        ((w >> 32) & 0xff) == b4 as u64,
        ((w >> 40) & 0xff) == b5 as u64,
        ((w >> 48) & 0xff) == b6 as u64,
        ((w >> 56) & 0xff) == b7 as u64,
{
}

/// Four bytes put together as a little-endian word come apart as the same
/// four bytes.
proof fn lemma_pack4(b0: u8, b1: u8, b2: u8, b3: u8, w: u32)
    by (bit_vector)
    requires
        w == (b0 as u32) | ((b1 as u32) << 8) | ((b2 as u32) << 16) | ((b3 as u32) << 24),
    ensures
        (w & 0xff) == b0 as u32,
        ((w >> 8) & 0xff) == b1 as u32,
        ((w >> 16) & 0xff) == b2 as u32,
        ((w >> 24) & 0xff) == b3 as u32,
{
}

/// Eight bits taken from a word are a byte.
proof fn lemma_word_byte_in_range(w: u64, k: u64)
    by (bit_vector)
    ensures
        ((w >> k) & 0xff) <= 0xff,
{
}

/// Eight bits taken from a word are a byte.
proof fn lemma_word4_byte_in_range(w: u32, k: u32)
    by (bit_vector)
    ensures
        ((w >> k) & 0xff) <= 0xff,
{
}

/// Reads eight bytes of `src`, starting at `at`, as one little-endian word.
fn load_word8(src: &[u8], at: usize) -> (w: u64)
    requires
        at + 8 <= src@.len(),
    ensures
        word8_bytes(w) == src@.subrange(at as int, at + 8),
{
    let w: u64 = (src[at] as u64) | ((src[at + 1] as u64) << 8) | ((src[at + 2] as u64) << 16) | ((
    src[at + 3] as u64) << 24) | ((src[at + 4] as u64) << 32) | ((src[at + 5] as u64) << 40) | ((
    src[at + 6] as u64) << 48) | ((src[at + 7] as u64) << 56);
    proof {
        lemma_pack8(
            src[at as int],
            src[at + 1],
            src[at + 2],
            src[at + 3],
            src[at + 4],
            src[at + 5],
            src[at + 6],
            src[at + 7],
            w,
        );
        assert(word8_bytes(w) =~= src@.subrange(at as int, at + 8));
    }
    w
}

/// Reads the seven bytes of `src` as the low bytes of one little-endian
/// word; the eighth byte of the word is zero.
fn load_word7(src: &[u8]) -> (w: u64)
    requires
        src@.len() == 7,
    ensures
        word8_bytes(w) == src@.push(0u8),
{
    let w: u64 = (src[0] as u64) | ((src[1] as u64) << 8) | ((src[2] as u64) << 16) | ((
    src[3] as u64) << 24) | ((src[4] as u64) << 32) | ((src[5] as u64) << 40) | ((src[6] as u64)
        << 48);
    proof {
        assert(w == w | ((0u8 as u64) << 56)) by (bit_vector);
        lemma_pack8(src[0], src[1], src[2], src[3], src[4], src[5], src[6], 0u8, w);
        assert(word8_bytes(w) =~= src@.push(0u8));
    }
    w
}

/// Reads four bytes of `src`, starting at `at`, as one little-endian word.
fn load_word4(src: &[u8], at: usize) -> (w: u32)
    requires
        at + 4 <= src@.len(),
    ensures
        word4_bytes(w) == src@.subrange(at as int, at + 4),
{
    let w: u32 = (src[at] as u32) | ((src[at + 1] as u32) << 8) | ((src[at + 2] as u32) << 16) | ((
    src[at + 3] as u32) << 24);
    proof {
        lemma_pack4(src[at as int], src[at + 1], src[at + 2], src[at + 3], w);
        assert(word4_bytes(w) =~= src@.subrange(at as int, at + 4));
    }
    w
}

/// How many bytes behind the cursor the fast copy of a payload of `len`
/// bytes may touch: the payload, and for seven bytes the one byte behind it,
/// which the eight-byte store covers too.
pub open spec fn copy_footprint(len: nat) -> nat {
    if len == 7 {
        8
    } else {
        len
    }
}

/// Fixed-capacity byte storage of `N` bytes with a write cursor and a sticky
/// error flag.
#[derive(Clone, Copy, Debug)]
pub struct TachyonBuffer<const N: usize> {
    buf: [u8; N],
    pos: usize,
    error: bool,
}

impl<const N: usize> View for TachyonBuffer<N> {
    type V = BufferView;

    open spec fn view(&self) -> BufferView {
        BufferView { bytes: self.written(), error: self.failed(), capacity: N as nat }
    }
}

impl<const N: usize> Default for TachyonBuffer<N> {
    /// An empty buffer with no error recorded.
    fn default() -> (r: Self)
        ensures
            r@ == BufferView::fresh(N as nat),
    {
        let r = Self { buf: [0u8; N], pos: 0, error: false };
        assert(r.written() =~= Seq::<u8>::empty());
        r
    }
}

impl<const N: usize> TachyonBuffer<N> {
    #[verifier::type_invariant]
    spec fn cursor_in_bounds(self) -> bool {
        self.pos <= N
    }

    /// The bytes in front of the cursor.
    pub closed spec fn written(&self) -> Seq<u8> {
        self.buf@.subrange(0, self.pos as int)
    }

    /// The sticky error flag.
    pub closed spec fn failed(&self) -> bool {
        self.error
    }

    /// Moves the cursor back to the start and clears the error flag, so that
    /// the buffer is as good as new.
    pub fn reset_pos(&mut self)
        ensures
            final(self)@ == old(self)@.reset(),
    {
        self.pos = 0;
        self.error = false;
        assert(self.written() =~= Seq::<u8>::empty());
    }

    /// Whether a write has been refused since the last reset.
    pub fn has_error(&self) -> (e: bool)
        ensures
            e == self@.error,
    {
        self.error
    }

    /// Whether a write of `n` bytes would be accepted.
    pub fn has_room(&self, n: usize) -> (r: bool)
        ensures
            r == self@.fits(n as nat),
            self@.wf(),
    {
        proof {
            use_type_invariant(self);
        }
        !self.error && n <= N - self.pos
    }

    /// Sets the error flag and writes nothing.
    pub fn set_error(&mut self)
        ensures
            final(self)@ == old(self)@.fail(),
            final(self)@.wf(),
    {
        proof {
            use_type_invariant(&*self);
        }
        self.error = true;
    }

    /// Checked write: appends all of `s`, or, when the error flag is already
    /// set or `s` does not fit, writes nothing and sets the error flag.
    pub fn write(&mut self, s: &[u8])
        ensures
            final(self)@ == old(self)@.write(s@),
            final(self)@.wf(),
    {
        proof {
            use_type_invariant(&*self);
        }
        if self.error || s.len() > N - self.pos {
            self.error = true;
            return ;
        }
        self.write_raw_bytes(s);
    }

    /// Checked write of the bytes of a string.
    pub fn write_str(&mut self, s: &str)
        ensures
            final(self)@ == old(self)@.write(s.spec_bytes()),
            final(self)@.wf(),
    {
        self.write(s.as_bytes());
    }

    /// Checked write of one byte.
    pub fn write_char(&mut self, c: u8)
        ensures
            final(self)@ == old(self)@.write(seq![c]),
            final(self)@.wf(),
    {
        let one = [c];
        assert(one@ =~= seq![c]);
        self.write(one.as_slice());
    }

    /// The bytes written so far.
    pub fn as_slice(&self) -> (s: &[u8])
        ensures
            s@ == self@.bytes,
            self@.wf(),
    {
        proof {
            use_type_invariant(self);
        }
        slice_subrange(self.buf.as_slice(), 0, self.pos)
    }

    /// The bytes written so far as text, or the empty string when they are
    /// not well-formed UTF-8.
    pub fn as_str(&self) -> (s: &str)
        ensures
            valid_utf8(self@.bytes) ==> s.spec_bytes() == self@.bytes && s@ == decode_utf8(
                self@.bytes,
            ),
            !valid_utf8(self@.bytes) ==> s@ == Seq::<char>::empty(),
    {
        match core::str::from_utf8(self.as_slice()) {
            Ok(s) => {
                proof {
                    encode_utf8_decode_utf8(s@);
                }
                s
            },
            Err(_) => {
                proof {
                    reveal_strlit("");
                }
                ""
            },
        }
    }

    /// A copy of the bytes written so far.
    pub fn to_vec(&self) -> (v: Vec<u8>)
        ensures
            v@ == self@.bytes,
    {
        slice_to_vec(self.as_slice())
    }

    /// Unchecked write for callers that have already established that `src`
    /// fits: appends all of `src`.
    pub fn write_raw_bytes(&mut self, src: &[u8])
        requires
            old(self)@.fits(src@.len()),
        ensures
            final(self)@ == old(self)@.append(src@),
            final(self)@.wf(),
    {
        proof {
            use_type_invariant(&*self);
        }
        let n: usize = src.len();
        let start: usize = self.pos;
        let mut i: usize = 0;
        while i < n
            invariant
                i <= n,
                n == src@.len(),
                start + n <= N,
                self.pos == start,
                self.error == old(self).error,
                self.buf@.subrange(0, start as int) == old(self).written(),
                self.buf@.subrange(start as int, start + i) == src@.subrange(0, i as int),
            decreases n - i,
        {
            self.buf[start + i] = src[i];
            i += 1;
        }
        self.pos = start + n;
        assert(self.written() =~= old(self).written() + src@) by {
            let copied = self.buf@.subrange(start as int, start + n);
            assert(copied == src@.subrange(0, n as int));
            assert(src@.subrange(0, n as int) =~= src@);
            assert(self.written() =~= self.buf@.subrange(0, start as int) + copied);
        }
    }

    /// Unchecked write of one byte for callers that have already established
    /// that it fits.
    pub fn write_char_fast(&mut self, c: u8)
        requires
            old(self)@.fits(1),
        ensures
            final(self)@ == old(self)@.append(seq![c]),
            final(self)@.wf(),
    {
        proof {
            use_type_invariant(&*self);
        }
        self.buf[self.pos] = c;
        self.pos += 1;
        assert(self.written() =~= old(self).written() + seq![c]);
    }

    /// Stores the eight bytes of `w` at `at`, which lies at or behind the
    /// cursor; the cursor stays where it is.
    fn store_word8(&mut self, at: usize, w: u64)
        requires
            old(self).pos <= at,
            at + 8 <= N,
        ensures
            final(self).pos == old(self).pos,
            final(self).error == old(self).error,
            final(self).buf@.subrange(0, at as int) == old(self).buf@.subrange(0, at as int),
            final(self).buf@.subrange(at as int, at + 8) == word8_bytes(w),
    {
        proof {
            lemma_word_byte_in_range(w, 0);
            lemma_word_byte_in_range(w, 8);
            lemma_word_byte_in_range(w, 16);
            lemma_word_byte_in_range(w, 24);
            lemma_word_byte_in_range(w, 32);
            lemma_word_byte_in_range(w, 40);
            lemma_word_byte_in_range(w, 48);
            lemma_word_byte_in_range(w, 56);
            assert(w >> 0 == w) by (bit_vector);
        }
        self.buf[at] = (w & 0xff) as u8;
        self.buf[at + 1] = ((w >> 8) & 0xff) as u8;
        self.buf[at + 2] = ((w >> 16) & 0xff) as u8;
        self.buf[at + 3] = ((w >> 24) & 0xff) as u8;
        self.buf[at + 4] = ((w >> 32) & 0xff) as u8;
        self.buf[at + 5] = ((w >> 40) & 0xff) as u8;
        self.buf[at + 6] = ((w >> 48) & 0xff) as u8;
        self.buf[at + 7] = ((w >> 56) & 0xff) as u8;
        assert(self.buf@.subrange(at as int, at + 8) =~= word8_bytes(w));
    }

    /// Stores the four bytes of `w` at `at`, which lies at or behind the
    /// cursor; the cursor stays where it is.
    fn store_word4(&mut self, at: usize, w: u32)
        requires
            old(self).pos <= at,
            at + 4 <= N,
        ensures
            final(self).pos == old(self).pos,
            final(self).error == old(self).error,
            final(self).buf@.subrange(0, at as int) == old(self).buf@.subrange(0, at as int),
            final(self).buf@.subrange(at as int, at + 4) == word4_bytes(w),
    {
        proof {
            lemma_word4_byte_in_range(w, 0);
            lemma_word4_byte_in_range(w, 8);
            lemma_word4_byte_in_range(w, 16);
            lemma_word4_byte_in_range(w, 24);
            assert(w >> 0 == w) by (bit_vector);
        }
        self.buf[at] = (w & 0xff) as u8;
        self.buf[at + 1] = ((w >> 8) & 0xff) as u8;
        self.buf[at + 2] = ((w >> 16) & 0xff) as u8;
        self.buf[at + 3] = ((w >> 24) & 0xff) as u8;
        assert(self.buf@.subrange(at as int, at + 4) =~= word4_bytes(w));
    }

    /// The strategy for seven bytes: one word load and one word store. The
    /// store covers one byte past the payload, which the cursor does not
    /// take in and the next write overwrites.
    fn copy_len7(&mut self, src: &[u8])
        requires
            src@.len() == 7,
            old(self)@.fits(8),
        ensures
            final(self)@ == old(self)@.append(src@),
            final(self)@.wf(),
    {
        proof {
            use_type_invariant(&*self);
        }
        let start: usize = self.pos;
        let w: u64 = load_word7(src);
        self.store_word8(start, w);
        self.pos = start + 7;
        assert(self.written() =~= old(self).written() + src@) by {
            let stored = self.buf@.subrange(start as int, start + 8);
            assert(stored == src@.push(0u8));
            assert forall|k: int| 0 <= k < 7 implies self.buf@[start + k] == src@[k] by {
                assert(stored[k] == src@.push(0u8)[k]);
            }
            assert forall|k: int| 0 <= k < start implies self.buf@[k] == old(self).buf@[k] by {
                assert(self.buf@.subrange(0, start as int)[k] == old(self).buf@.subrange(
                    0,
                    start as int,
                )[k]);
            }
        }
    }

    /// The strategy for thirteen bytes: an eight-byte move, a four-byte move
    /// and a one-byte move.
    fn copy_len13(&mut self, src: &[u8])
        requires
            src@.len() == 13,
            old(self)@.fits(13),
        ensures
            final(self)@ == old(self)@.append(src@),
            final(self)@.wf(),
    {
        proof {
            use_type_invariant(&*self);
        }
        let start: usize = self.pos;
        let w8: u64 = load_word8(src, 0);
        self.store_word8(start, w8);
        let ghost after8 = self.buf@;
        let w4: u32 = load_word4(src, 8);
        self.store_word4(start + 8, w4);
        let ghost after12 = self.buf@;
        self.buf[start + 12] = src[12];
        self.pos = start + 13;
        assert(self.written() =~= old(self).written() + src@) by {
            assert forall|k: int| 0 <= k < start implies self.buf@[k] == old(self).buf@[k] by {
                assert(after12.subrange(0, start + 8)[k] == after8.subrange(0, start + 8)[k]);
                assert(after8.subrange(0, start as int)[k] == old(self).buf@.subrange(
                    0,
                    start as int,
                )[k]);
            }
            assert forall|k: int| 0 <= k < 8 implies self.buf@[start + k] == src@[k] by {
                assert(after12.subrange(0, start + 8)[start + k] == after8.subrange(
                    0,
                    start + 8,
                )[start + k]);
                assert(after8.subrange(start as int, start + 8)[k] == src@.subrange(0, 8)[k]);
            }
            assert forall|k: int| 8 <= k < 12 implies self.buf@[start + k] == src@[k] by {
                assert(after12.subrange(start + 8, start + 12)[k - 8] == src@.subrange(8, 12)[k
                    - 8]);
            }
        }
    }

    /// The fast-copy dispatcher: unchecked write of a string payload that
    /// picks its strategy by length. The caller has established that the
    /// payload fits, and for a payload of seven bytes that the delimiter
    /// byte behind it fits as well. Whatever the length, the outcome is that
    /// of the generic copy: all of `src` appended, the cursor advanced by
    /// the length of `src`.
    pub fn fast_copy(&mut self, src: &[u8])
        requires
            old(self)@.fits(copy_footprint(src@.len())),
        ensures
            final(self)@ == old(self)@.append(src@),
            final(self)@.wf(),
    {
        let n: usize = src.len();
        if n == 7 {
            self.copy_len7(src);
        } else if n == 13 {
            self.copy_len13(src);
        } else {
            self.write_raw_bytes(src);
        }
    }
}

} // verus!
