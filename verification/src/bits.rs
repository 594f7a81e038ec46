//! The sub-byte packing engine: an 8-bit accumulator, a writer that packs
//! 5-bit and 8-bit codes into bytes most significant bit first, and a
//! reader that pulls them back out.

use crate::stream::{
    bits_of, bytes_bits, lemma_bits_of_combine, lemma_bits_of_index, lemma_bits_of_len,
    lemma_bits_of_mod, lemma_bits_of_shift, lemma_bits_of_split, lemma_bytes_bits_first,
    lemma_bytes_bits_len, lemma_bytes_bits_push, lemma_pow2_div_bound, lemma_pow2_le,
    lemma_val_of_bits_of, val_of, zeros,
};
use vstd::arithmetic::div_mod::*;
use vstd::arithmetic::power2::*;
use vstd::prelude::*;

verus! {

/// The 5-bit escape code, written once more before the final pad when only
/// one to three bits hang over, so that a decoder cannot misread the zero
/// pad as a leading symbol code.
pub const ESCAPE: u8 = 31;

/// An 8-bit shift register together with the number of valid bits it holds.
/// New bits enter at the low end, so the earliest bit held is the most
/// significant of the valid bits.
pub struct BitBuffer {
    bits: u8,
    bcount: u8,
}

/// `2.pow(e)` as an exec value, for the small exponents the engine uses.
fn pow2_u16(e: u8) -> (r: u16)
    requires
        e <= 8,
    ensures
        r as nat == pow2(e as nat),
        r >= 1,
{
    proof {
        lemma2_to64();
    }
    match e {
        0 => 1,
        1 => 2,
        2 => 4,
        3 => 8,
        4 => 16,
        5 => 32,
        6 => 64,
        7 => 128,
        _ => 256,
    }
}

/// `2.pow(e)` as an exec byte, for exponents below eight.
fn pow2_u8(e: u8) -> (r: u8)
    requires
        e <= 7,
    ensures
        r as nat == pow2(e as nat),
        r >= 1,
{
    proof {
        lemma2_to64();
    }
    match e {
        0 => 1,
        1 => 2,
        2 => 4,
        3 => 8,
        4 => 16,
        5 => 32,
        6 => 64,
        _ => 128,
    }
}

impl BitBuffer {
    /// How many valid bits the buffer holds.
    pub closed spec fn count(&self) -> nat {
        self.bcount as nat
    }

    /// The valid bits, most significant first.
    pub closed spec fn held(&self) -> Seq<bool> {
        bits_of(self.bits as nat, self.bcount as nat)
    }

    /// The count never exceeds eight, and no stale bits sit above it.
    pub closed spec fn wf(&self) -> bool {
        self.bcount <= 8 && (self.bits as nat) < pow2(self.bcount as nat)
    }

    pub fn new() -> (b: BitBuffer)
        ensures
            b.wf(),
            b.count() == 0,
            b.held() == Seq::<bool>::empty(),
    {
        proof {
            lemma2_to64();
        }
        BitBuffer { bits: 0, bcount: 0 }
    }

    pub fn is_full(&self) -> (r: bool)
        ensures
            r == (self.count() == 8),
    {
        self.bcount == 8
    }

    pub fn clear(&mut self)
        ensures
            final(self).wf(),
            final(self).count() == 0,
            final(self).held() == Seq::<bool>::empty(),
    {
        proof {
            lemma2_to64();
        }
        self.bits = 0;
        self.bcount = 0;
    }

    /// Shift one bit in at the low end.
    fn push_low(&mut self, b: u8)
        requires
            old(self).wf(),
            old(self).count() < 8,
            b < 2,
        ensures
            final(self).wf(),
            final(self).count() == old(self).count() + 1,
            final(self).held() == old(self).held().push(b == 1),
    {
        proof {
            broadcast use lemma_bits_of_len;

            lemma2_to64();
            lemma_pow2_le(self.bcount as nat, 7);
            let x = (self.bits * 2 + b) as nat;
            lemma_fundamental_div_mod_converse(x as int, 2, self.bits as int, b as int);
            assert(bits_of(x, (self.bcount + 1) as nat) =~= self.held().push(b == 1));
            lemma_pow2_unfold((self.bcount + 1) as nat);
        }
        self.bits = self.bits * 2 + b;
        self.bcount = self.bcount + 1;
    }

    /// Remove and return the top `w` bits.
    fn take_high(&mut self, w: u8) -> (r: u8)
        requires
            old(self).wf(),
            1 <= w <= old(self).count(),
        ensures
            final(self).wf(),
            final(self).count() == old(self).count() - w,
            final(self).held() == old(self).held().skip(w as int),
            r as nat == val_of(old(self).held().take(w as int)),
            (r as nat) < pow2(w as nat),
    {
        let keep = self.bcount - w;
        let d = pow2_u8(keep);
        let r = self.bits / d;
        proof {
            broadcast use lemma_bits_of_len;

            let bits = self.bits as nat;
            let c = self.bcount as nat;
            let k = keep as nat;
            lemma_pow2_pos(k);
            lemma_bits_of_split(bits, c, k);
            lemma_pow2_div_bound(bits, c, k);
            assert(self.held().take(w as int) =~= bits_of(bits / pow2(k), w as nat));
            lemma_val_of_bits_of(bits / pow2(k), w as nat);
            lemma_small_mod(bits / pow2(k), pow2(w as nat));
            lemma_bits_of_mod(bits, k);
            lemma_mod_division_less_than_divisor(bits as int, pow2(k) as int);
            assert(self.held().skip(w as int) =~= bits_of(bits % pow2(k), k));
        }
        self.bits = self.bits % d;
        self.bcount = keep;
        r
    }
}

/// Packs successive 5-bit and 8-bit codes into bytes, most significant bit
/// first, emitting each byte the moment it is complete.
pub struct BitWriter {
    buffer: BitBuffer,
    out: Vec<u8>,
}

/// The bit stream that finalizing appends to a stream `s`: nothing when `s`
/// ends on a byte boundary; an escape code and then zero bits up to the
/// boundary when one to three bits hang over; zero bits alone otherwise.
/// The escape code never crosses into a further byte, so the packed size is
/// always the length of `s` rounded up to whole bytes.
pub open spec fn flush_pad(s: Seq<bool>) -> Seq<bool> {
    let c = s.len() % 8;
    if c == 0 {
        s
    } else if c <= 3 {
        s + bits_of(ESCAPE as nat, 5) + zeros((((8 - (c + 5) % 8) % 8) as nat))
    } else {
        s + zeros((8 - c) as nat)
    }
}

impl BitWriter {
    /// Every bit written so far: the emitted bytes, then the bits still
    /// waiting in the accumulator.
    pub closed spec fn stream(&self) -> Seq<bool> {
        bytes_bits(self.out@) + self.buffer.held()
    }

    pub closed spec fn wf(&self) -> bool {
        self.buffer.wf() && self.buffer.count() <= 7
    }

    pub fn new() -> (w: BitWriter)
        ensures
            w.wf(),
            w.stream() == Seq::<bool>::empty(),
    {
        let w = BitWriter { buffer: BitBuffer::new(), out: Vec::new() };
        proof {
            assert(w.stream() =~= Seq::<bool>::empty());
        }
        w
    }

    /// Shift one bit into the accumulator, emitting a byte when it fills.
    fn push_bit(&mut self, b: u8)
        requires
            old(self).wf(),
            b < 2,
        ensures
            final(self).wf(),
            final(self).stream() == old(self).stream() + seq![b == 1],
    {
        self.buffer.push_low(b);
        if self.buffer.is_full() {
            proof {
                lemma_bytes_bits_push(self.out@, self.buffer.bits);
                assert(self.buffer.held() == bits_of(self.buffer.bits as nat, 8));
            }
            self.out.push(self.buffer.bits);
            self.buffer.clear();
        }
        proof {
            assert(final(self).stream() =~= old(self).stream() + seq![b == 1]);
        }
    }

    /// Shift the low `w` bits of `v` in one at a time, from the most
    /// significant of them down, emitting each byte as it completes.
    fn write_span(&mut self, v: u8, w: u8)
        requires
            old(self).wf(),
            1 <= w <= 8,
        ensures
            final(self).wf(),
            final(self).stream() == old(self).stream() + bits_of(v as nat, w as nat),
    {
        let mut i: u8 = 0;
        proof {
            broadcast use lemma_bits_of_len;

            assert(self.stream() =~= old(self).stream() + bits_of(v as nat, w as nat).take(0));
        }
        while i < w
            invariant
                self.wf(),
                i <= w,
                1 <= w <= 8,
                self.stream() == old(self).stream() + bits_of(v as nat, w as nat).take(i as int),
            decreases w - i,
        {
            let d = pow2_u8(w - 1 - i);
            let b = (v / d) % 2;
            proof {
                broadcast use lemma_bits_of_len;

                lemma_bits_of_index(v as nat, w as nat, i as int);
                let s = bits_of(v as nat, w as nat);
                assert(s.take(i + 1) =~= s.take(i as int).push(s[i as int]));
            }
            self.push_bit(b);
            i = i + 1;
        }
        proof {
            broadcast use lemma_bits_of_len;

            let s = bits_of(v as nat, w as nat);
            assert(s.take(w as int) =~= s);
        }
    }

    /// Pack the low five bits of `code`, most significant first.
    pub fn write_five_bits(&mut self, code: u8)
        requires
            old(self).wf(),
        ensures
            final(self).wf(),
            final(self).stream() == old(self).stream() + bits_of(code as nat, 5),
    {
        self.write_span(code, 5);
    }

    /// Pack all eight bits of `code`, most significant first.
    pub fn write_eight_bits(&mut self, code: u8)
        requires
            old(self).wf(),
        ensures
            final(self).wf(),
            final(self).stream() == old(self).stream() + bits_of(code as nat, 8),
    {
        self.write_span(code, 8);
    }

    /// Finalize a partial last byte: write an extra escape code when only
    /// one to three bits hang over, then pad with zero bits and emit.
    pub fn flush(&mut self)
        requires
            old(self).wf(),
        ensures
            final(self).wf(),
            final(self).stream() == flush_pad(old(self).stream()),
            final(self).stream().len() % 8 == 0,
    {
        proof {
            broadcast use lemma_bits_of_len, lemma_bytes_bits_len;

        }
        if self.buffer.bcount == 0 {
            proof {
                assert(old(self).stream().len() % 8 == 0);
            }
            return ;
        }
        if self.buffer.bcount <= 3 {
            self.write_five_bits(ESCAPE);
        }
        if self.buffer.bcount > 0 {
            let pad = 8 - self.buffer.bcount;
            proof {
                let bits = self.buffer.bits as nat;
                let c = self.buffer.bcount as nat;
                lemma_pow2_le(c, 7);
                lemma2_to64();
                lemma_bits_of_shift(bits, c, pad as nat);
                lemma_pow2_adds(c, pad as nat);
                lemma_pow2_pos(pad as nat);
                assert(bits * pow2(pad as nat) < 256) by (nonlinear_arith)
                    requires
                        bits < pow2(c),
                        pow2(c) * pow2(pad as nat) == 256,
                        pow2(pad as nat) >= 1,
                ;
            }
            let shifted = self.buffer.bits * pow2_u8(pad);
            proof {
                lemma_bytes_bits_push(self.out@, shifted);
            }
            self.out.push(shifted);
            self.buffer.clear();
        }
        proof {
            assert(final(self).stream() =~= flush_pad(old(self).stream()));
        }
    }

    /// Hand out the packed bytes.  Meaningful once the stream ends on a
    /// byte boundary, as it does after `flush`.
    pub fn into_bytes(self) -> (r: Vec<u8>)
        requires
            self.wf(),
            self.stream().len() % 8 == 0,
        ensures
            bytes_bits(r@) == self.stream(),
    {
        proof {
            broadcast use lemma_bits_of_len, lemma_bytes_bits_len;

            assert(self.buffer.count() == 0);
            assert(bytes_bits(self.out@) =~= self.stream());
        }
        self.out
    }
}

/// The inverse of the writer: pulls 5-bit and 8-bit values back out of a
/// packed byte sequence, refilling the accumulator one byte at a time.
pub struct BitReader {
    buffer: BitBuffer,
    input: Vec<u8>,
    pos: usize,
}

impl BitReader {
    /// The bits not yet handed out: the buffered bits, then the bits of
    /// the bytes not yet pulled in.
    pub closed spec fn remaining(&self) -> Seq<bool> {
        self.buffer.held() + bytes_bits(self.input@.skip(self.pos as int))
    }

    pub closed spec fn wf(&self) -> bool {
        self.buffer.wf() && self.buffer.count() <= 7 && self.pos <= self.input@.len()
    }

    pub fn new(input: Vec<u8>) -> (r: BitReader)
        ensures
            r.wf(),
            r.remaining() == bytes_bits(input@),
    {
        let r = BitReader { buffer: BitBuffer::new(), input, pos: 0 };
        proof {
            assert(r.input@.skip(0) =~= r.input@);
            assert(r.remaining() =~= bytes_bits(r.input@));
        }
        r
    }

    /// Produce the next `w` bits as a value, or report that fewer than `w`
    /// bits are left.  Bits beyond `w` from a refill byte are retained for
    /// the next read.
    fn read_bits(&mut self, w: u8) -> (r: Option<u8>)
        requires
            old(self).wf(),
            1 <= w <= 8,
        ensures
            final(self).wf(),
            match r {
                Some(v) => {
                    &&& old(self).remaining().len() >= w
                    &&& v as nat == val_of(old(self).remaining().take(w as int))
                    &&& (v as nat) < pow2(w as nat)
                    &&& final(self).remaining() == old(self).remaining().skip(w as int)
                },
                None => {
                    &&& old(self).remaining().len() < w
                    &&& *final(self) == *old(self)
                },
            },
    {
        proof {
            broadcast use lemma_bits_of_len, lemma_bytes_bits_len;

        }
        if w <= self.buffer.bcount {
            proof {
                assert(old(self).remaining().take(w as int) =~= old(self).buffer.held().take(
                    w as int,
                ));
            }
            let v = self.buffer.take_high(w);
            proof {
                assert(final(self).remaining() =~= old(self).remaining().skip(w as int));
            }
            Some(v)
        } else if self.pos < self.input.len() {
            let byte = self.input[self.pos];
            let combined: u16 = (self.buffer.bits as u16) * 256 + (byte as u16);
            let total = self.buffer.bcount + 8;
            let keep = total - w;
            let d = pow2_u16(keep);
            proof {
                broadcast use lemma_bits_of_len, lemma_bytes_bits_len;

                let bits = self.buffer.bits as nat;
                let c = self.buffer.bcount as nat;
                let t = total as nat;
                let k = keep as nat;
                let cm = combined as nat;
                lemma2_to64();
                lemma_pow2_adds(c, 8);
                lemma_bytes_bits_first(self.input@, self.pos as int);
                lemma_bits_of_combine(bits, byte as nat, c, 8);
                assert(bits_of(cm, t) == self.buffer.held() + bits_of(byte as nat, 8));
                assert(old(self).remaining() =~= bits_of(cm, t) + bytes_bits(
                    self.input@.skip(self.pos as int + 1),
                ));
                assert((t - k) as nat == w as nat);
                assert(cm < pow2(t)) by (nonlinear_arith)
                    requires
                        cm == bits * 256 + byte,
                        bits < pow2(c),
                        byte < 256,
                        pow2(t) == pow2(c) * 256,
                ;
                lemma_pow2_pos(k);
                lemma_bits_of_split(cm, t, k);
                lemma_pow2_div_bound(cm, t, k);
                assert(old(self).remaining().take(w as int) =~= bits_of(cm / pow2(k), w as nat));
                lemma_val_of_bits_of(cm / pow2(k), w as nat);
                lemma_small_mod(cm / pow2(k), pow2(w as nat));
                lemma_bits_of_mod(cm, k);
                lemma_mod_division_less_than_divisor(cm as int, pow2(k) as int);
                lemma_pow2_le(k, 7);
                lemma2_to64();
            }
            let v = (combined / d) as u8;
            self.buffer.bits = (combined % d) as u8;
            self.buffer.bcount = keep;
            self.pos = self.pos + 1;
            proof {
                broadcast use lemma_bits_of_len, lemma_bytes_bits_len;

                assert(final(self).remaining() =~= old(self).remaining().skip(w as int));
            }
            Some(v)
        } else {
            proof {
                assert(self.input@.skip(self.pos as int) =~= Seq::<u8>::empty());
            }
            None
        }
    }

    /// Read the next 5-bit code, or report end of stream.
    pub fn read_five_bits(&mut self) -> (r: Option<u8>)
        requires
            old(self).wf(),
        ensures
            final(self).wf(),
            match r {
                Some(v) => {
                    &&& old(self).remaining().len() >= 5
                    &&& v as nat == val_of(old(self).remaining().take(5))
                    &&& v < 32
                    &&& final(self).remaining() == old(self).remaining().skip(5)
                },
                None => {
                    &&& old(self).remaining().len() < 5
                    &&& *final(self) == *old(self)
                },
            },
    {
        proof {
            lemma2_to64();
        }
        self.read_bits(5)
    }

    /// Read the next eight bits as one byte, or report end of stream.
    pub fn read_eight_bits(&mut self) -> (r: Option<u8>)
        requires
            old(self).wf(),
        ensures
            final(self).wf(),
            match r {
                Some(v) => {
                    &&& old(self).remaining().len() >= 8
                    &&& v as nat == val_of(old(self).remaining().take(8))
                    &&& final(self).remaining() == old(self).remaining().skip(8)
                },
                None => {
                    &&& old(self).remaining().len() < 8
                    &&& *final(self) == *old(self)
                },
            },
    {
        self.read_bits(8)
    }
}

} // verus!
