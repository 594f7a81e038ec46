//! A lossless codec for mostly-ASCII text.
//!
//! A fixed alphabet of 31 frequent byte values is mapped to 5-bit codes;
//! every other ASCII byte is written as a 5-bit escape marker followed by
//! the byte itself.  The variable-width codes are packed into bytes most
//! significant bit first, with only trailing pad in the final byte.

use vstd::arithmetic::div_mod::{
    lemma_fundamental_div_mod, lemma_fundamental_div_mod_converse, lemma_small_mod,
};
use vstd::arithmetic::power2::{lemma2_to64, pow2};
use vstd::prelude::*;

pub mod bits;
pub mod codes;
pub mod stream;

use crate::bits::{flush_pad, BitReader, BitWriter, ESCAPE};
use crate::codes::{code_of, lemma_code_sym, lemma_sym_code, sym_of, Encoder};
use crate::stream::{
    bits_of, bytes_bits, lemma_bits_of_len, lemma_bytes_bits_len, lemma_val_of_bits_of, val_of,
    zeros,
};

verus! {

/// Why a compress or decompress pass stopped.
#[derive(Clone, Copy, Debug, PartialEq, Eq, Structural)]
pub enum SqueezeError {
    /// The encoder was handed a non-ASCII character.
    UnsupportedCharacter,
    /// The stream does not begin with the expected format version code.
    InvalidFormatVersion,
    /// A 5-bit value names no symbol and is not the escape sentinel.
    UnknownCode,
    /// The stream ended where more bits were owed.
    UnexpectedEndOfStream,
}

/// The format version written as the first five bits of every stream.
pub const FORMAT_CODE: u8 = 1;

/// The code stream for one input byte: its 5-bit code, or the escape code
/// followed by all eight bits of the byte when the alphabet lacks it.
pub open spec fn enc_byte(b: u8) -> Seq<bool> {
    if code_of(b as nat) < 31 {
        bits_of(code_of(b as nat), 5)
    } else {
        bits_of(31, 5) + bits_of(b as nat, 8)
    }
}

/// The code stream for a whole input, in order.
pub open spec fn enc_all(s: Seq<u8>) -> Seq<bool>
    decreases s.len(),
{
    if s.len() == 0 {
        Seq::empty()
    } else {
        enc_byte(s.first()) + enc_all(s.drop_first())
    }
}

/// The complete bit stream of a compressed input: the version code, the
/// code stream, and the final pad.
pub open spec fn squeezed_bits(s: Seq<u8>) -> Seq<bool> {
    flush_pad(bits_of(FORMAT_CODE as nat, 5) + enc_all(s))
}

/// What decompression makes of the bits after the version code: each
/// 5-bit code names a symbol; the escape code takes the next eight bits
/// verbatim instead.  The stream ends when fewer than five bits remain,
/// or at an escape code that the final pad cut short.
pub open spec fn decode_bits(bits: Seq<bool>) -> Seq<u8>
    decreases bits.len(),
{
    if bits.len() < 5 {
        Seq::empty()
    } else if val_of(bits.take(5)) == 31 {
        if bits.len() < 13 {
            Seq::empty()
        } else {
            seq![val_of(bits.subrange(5, 13)) as u8] + decode_bits(bits.skip(13))
        }
    } else {
        seq![sym_of(val_of(bits.take(5))) as u8] + decode_bits(bits.skip(5))
    }
}

/// Appending a byte to the input appends its code stream.
pub proof fn lemma_enc_all_push(s: Seq<u8>, b: u8)
    ensures
        enc_all(s.push(b)) == enc_all(s) + enc_byte(b),
    decreases s.len(),
{
    broadcast use lemma_bits_of_len;

    if s.len() == 0 {
        assert(s.push(b).drop_first() =~= s);
        assert(enc_all(s.push(b)) =~= enc_all(s) + enc_byte(b));
    } else {
        assert(s.push(b).drop_first() =~= s.drop_first().push(b));
        lemma_enc_all_push(s.drop_first(), b);
        assert(enc_all(s.push(b)) =~= enc_all(s) + enc_byte(b));
    }
}

/// How many bytes of `s` lie outside the alphabet and must be escaped.
pub open spec fn escape_count(s: Seq<u8>) -> nat
    decreases s.len(),
{
    if s.len() == 0 {
        0
    } else {
        (if code_of(s.first() as nat) == 31 {
            1nat
        } else {
            0nat
        }) + escape_count(s.drop_first())
    }
}

/// Each byte costs five bits, and eight more when it must be escaped.
pub proof fn lemma_enc_all_len(s: Seq<u8>)
    ensures
        enc_all(s).len() == 5 * s.len() + 8 * escape_count(s),
    decreases s.len(),
{
    broadcast use lemma_bits_of_len;

    if s.len() > 0 {
        lemma_enc_all_len(s.drop_first());
        lemma_code_sym(s.first() as nat);
    }
}

/// The final pad fills the stream to the next byte boundary and no
/// further, even when it carries an extra escape code.
pub proof fn lemma_flush_pad_len(s: Seq<bool>)
    ensures
        flush_pad(s).len() == 8 * ((s.len() + 7) / 8),
        flush_pad(s).len() % 8 == 0,
{
    broadcast use lemma_bits_of_len;

    let n = s.len() as int;
    let c = n % 8;
    lemma_fundamental_div_mod(n, 8);
    let k = n / 8;
    if c == 0 {
        lemma_fundamental_div_mod_converse(n + 7, 8, k, 7);
    } else {
        lemma_fundamental_div_mod_converse(n + 7, 8, k + 1, c - 1);
        if 1 <= c <= 3 {
            if c < 3 {
                lemma_small_mod((c + 5) as nat, 8);
            } else {
                assert((c + 5) % 8 == 0);
            }
        }
    }
    lemma_fundamental_div_mod_converse(flush_pad(s).len() as int, 8, ((s.len() + 7) / 8) as int, 0);
}

/// A stream tail that decodes to nothing: fewer than five bits, or an
/// escape code cut short by the pad.
spec fn ends_empty(t: Seq<bool>) -> bool {
    t.len() < 5 || (t.len() < 13 && val_of(t.take(5)) == 31)
}

/// Decoding a code stream followed by such a tail recovers exactly the
/// bytes that were encoded.
proof fn lemma_decode_enc(s: Seq<u8>, t: Seq<bool>)
    requires
        ends_empty(t),
    ensures
        decode_bits(enc_all(s) + t) == s,
    decreases s.len(),
{
    broadcast use lemma_bits_of_len;

    lemma2_to64();
    if s.len() == 0 {
        assert(enc_all(s) + t =~= t);
        assert(decode_bits(t) =~= Seq::<u8>::empty());
        assert(s =~= Seq::<u8>::empty());
    } else {
        let b = s.first();
        let rest = s.drop_first();
        let whole = enc_all(s) + t;
        assert(enc_all(s) == enc_byte(b) + enc_all(rest));
        let code = code_of(b as nat);
        lemma_code_sym(b as nat);
        if code < 31 {
            assert(whole.take(5) =~= bits_of(code, 5));
            lemma_val_of_bits_of(code, 5);
            lemma_small_mod(code, pow2(5));
            assert(val_of(whole.take(5)) == code);
            assert(whole.skip(5) =~= enc_all(rest) + t);
            lemma_decode_enc(rest, t);
            assert(decode_bits(whole) == seq![sym_of(code) as u8] + decode_bits(whole.skip(5)));
            assert(decode_bits(whole) =~= s);
        } else {
            assert(whole.take(5) =~= bits_of(31, 5));
            lemma_val_of_bits_of(31, 5);
            lemma_small_mod(31, pow2(5));
            assert(val_of(whole.take(5)) == 31);
            assert(whole.len() >= 13);
            assert(whole.subrange(5, 13) =~= bits_of(b as nat, 8));
            lemma_val_of_bits_of(b as nat, 8);
            lemma_small_mod(b as nat, pow2(8));
            assert(val_of(whole.subrange(5, 13)) == b as nat);
            assert(whole.skip(13) =~= enc_all(rest) + t);
            lemma_decode_enc(rest, t);
            assert(decode_bits(whole) == seq![val_of(whole.subrange(5, 13)) as u8] + decode_bits(
                whole.skip(13),
            ));
            assert(decode_bits(whole) =~= s);
        }
    }
}

/// Round trip: the compressed stream of any byte sequence begins with the
/// version code, occupies exactly the bit count of the codes rounded up
/// to whole bytes, and decodes back to the sequence itself.
pub proof fn lemma_round_trip(s: Seq<u8>)
    ensures
        squeezed_bits(s).len() % 8 == 0,
        squeezed_bits(s).len() >= 8,
        squeezed_bits(s).len() == 8 * ((5 + enc_all(s).len() + 7) / 8),
        val_of(squeezed_bits(s).take(5)) == FORMAT_CODE as nat,
        decode_bits(squeezed_bits(s).skip(5)) == s,
{
    broadcast use lemma_bits_of_len;

    lemma2_to64();
    let h = bits_of(FORMAT_CODE as nat, 5);
    let x = h + enc_all(s);
    let q = squeezed_bits(s);
    let c = x.len() % 8;
    let t: Seq<bool> = if c == 0 {
        Seq::empty()
    } else if c <= 3 {
        bits_of(31, 5) + zeros((((8 - (c + 5) % 8) % 8) as nat))
    } else {
        zeros((8 - c) as nat)
    };
    assert(q =~= x + t);
    if 1 <= c <= 3 {
        assert(t.take(5) =~= bits_of(31, 5));
        lemma_val_of_bits_of(31, 5);
        lemma_small_mod(31, pow2(5));
        assert(t.len() < 13);
    }
    assert(ends_empty(t));
    assert(q.take(5) =~= h);
    lemma_val_of_bits_of(FORMAT_CODE as nat, 5);
    lemma_small_mod(FORMAT_CODE as nat, pow2(5));
    assert(q.skip(5) =~= enc_all(s) + t);
    lemma_decode_enc(s, t);
    lemma_flush_pad_len(x);
}

/// Inputs drawn solely from the alphabet escape nothing: the stream is
/// the version code and five bits per byte, padded to whole bytes, and
/// decodes back to the input.
pub proof fn lemma_round_trip_in_alphabet(s: Seq<u8>)
    requires
        forall|i: int| 0 <= i < s.len() ==> code_of(s[i] as nat) < 31,
    ensures
        decode_bits(squeezed_bits(s).skip(5)) == s,
        squeezed_bits(s).len() == 8 * ((5 + 5 * s.len() + 7) / 8),
{
    lemma_round_trip(s);
    lemma_enc_all_len(s);
    lemma_escape_count_zero(s);
}

/// No byte of an in-alphabet input is escaped.
proof fn lemma_escape_count_zero(s: Seq<u8>)
    requires
        forall|i: int| 0 <= i < s.len() ==> code_of(s[i] as nat) < 31,
    ensures
        escape_count(s) == 0,
    decreases s.len(),
{
    if s.len() > 0 {
        assert(code_of(s[0] as nat) < 31);
        assert forall|i: int| 0 <= i < s.drop_first().len() implies code_of(
            s.drop_first()[i] as nat,
        ) < 31 by {
            assert(s.drop_first()[i] == s[i + 1]);
        }
        lemma_escape_count_zero(s.drop_first());
    }
}

/// Compress `input`: write the 5-bit version code, then for each byte its
/// 5-bit code — and the byte itself after an escape code when the
/// alphabet lacks it — packed most significant bit first and padded to
/// whole bytes.  Refused, producing nothing, when any byte is non-ASCII.
pub fn squeeze(input: &Vec<u8>) -> (r: Result<Vec<u8>, SqueezeError>)
    ensures
        match r {
            Ok(out) => {
                &&& forall|j: int| 0 <= j < input@.len() ==> input@[j] < 128
                &&& bytes_bits(out@) == squeezed_bits(input@)
                &&& out@.len() * 8 == squeezed_bits(input@).len()
            },
            Err(e) => {
                &&& e == SqueezeError::UnsupportedCharacter
                &&& exists|j: int| 0 <= j < input@.len() && input@[j] >= 128
            },
        },
{
    let encoder = Encoder::new();
    let mut writer = BitWriter::new();
    writer.write_five_bits(FORMAT_CODE);
    proof {
        assert(input@.take(0) =~= Seq::<u8>::empty());
        assert(writer.stream() =~= bits_of(FORMAT_CODE as nat, 5) + enc_all(input@.take(0)));
    }
    let mut i: usize = 0;
    while i < input.len()
        invariant
            encoder.wf(),
            writer.wf(),
            i <= input@.len(),
            forall|j: int| 0 <= j < i ==> input@[j] < 128,
            writer.stream() == bits_of(FORMAT_CODE as nat, 5) + enc_all(input@.take(i as int)),
        decreases input@.len() - i,
    {
        let b = input[i];
        let code = match encoder.encode(b as char) {
            Ok(code) => code,
            Err(e) => {
                return Err(e);
            },
        };
        writer.write_five_bits(code);
        if code == ESCAPE {
            writer.write_eight_bits(b);
        }
        proof {
            assert(input@.take(i + 1) =~= input@.take(i as int).push(input@[i as int]));
            lemma_enc_all_push(input@.take(i as int), b);
            assert(writer.stream() =~= bits_of(FORMAT_CODE as nat, 5) + enc_all(
                input@.take(i + 1),
            ));
        }
        i = i + 1;
    }
    proof {
        assert(input@.take(input@.len() as int) =~= input@);
        broadcast use lemma_bytes_bits_len;

    }
    writer.flush();
    Ok(writer.into_bytes())
}

/// Decompress `input`: check the 5-bit version code, then decode 5-bit
/// codes — reading eight raw bits after each escape code — until the
/// stream runs out.  An empty input or a wrong version code is refused,
/// and nothing is produced.
pub fn unsqueeze(input: &Vec<u8>) -> (r: Result<Vec<u8>, SqueezeError>)
    ensures
        match r {
            Ok(out) => {
                &&& input@.len() > 0
                &&& val_of(bytes_bits(input@).take(5)) == FORMAT_CODE
                &&& out@ == decode_bits(bytes_bits(input@).skip(5))
            },
            Err(e) => {
                &&& (e == SqueezeError::UnexpectedEndOfStream <==> input@.len() == 0)
                &&& (e == SqueezeError::InvalidFormatVersion <==> input@.len() > 0 && val_of(
                    bytes_bits(input@).take(5),
                ) != FORMAT_CODE)
                &&& (e == SqueezeError::UnexpectedEndOfStream || e
                    == SqueezeError::InvalidFormatVersion)
            },
        },
{
    let encoder = Encoder::new();
    let mut data: Vec<u8> = Vec::new();
    let mut i: usize = 0;
    while i < input.len()
        invariant
            i <= input@.len(),
            data@ == input@.take(i as int),
        decreases input@.len() - i,
    {
        let b = input[i];
        data.push(b);
        proof {
            assert(input@.take(i + 1) =~= input@.take(i as int).push(input@[i as int]));
        }
        i = i + 1;
    }
    proof {
        assert(input@.take(input@.len() as int) =~= input@);
        broadcast use lemma_bytes_bits_len;

    }
    let mut reader = BitReader::new(data);
    let version = match reader.read_five_bits() {
        None => {
            return Err(SqueezeError::UnexpectedEndOfStream);
        },
        Some(v) => v,
    };
    if version != FORMAT_CODE {
        return Err(SqueezeError::InvalidFormatVersion);
    }
    let ghost body = decode_bits(bytes_bits(input@).skip(5));
    let mut out: Vec<u8> = Vec::new();
    loop
        invariant_except_break
            out@ + decode_bits(reader.remaining()) == body,
        invariant
            encoder.wf(),
            reader.wf(),
        ensures
            out@ == body,
        decreases reader.remaining().len(),
    {
        proof {
            broadcast use lemma_bits_of_len, lemma_bytes_bits_len;

        }
        let ghost rem = reader.remaining();
        let code = match reader.read_five_bits() {
            None => {
                break ;
            },
            Some(c) => c,
        };
        if code == ESCAPE {
            match reader.read_eight_bits() {
                None => {
                    // The escape code was cut short by the final pad: the
                    // stream ends here.
                    proof {
                        assert(decode_bits(rem) =~= Seq::<u8>::empty());
                    }
                    break ;
                },
                Some(b) => {
                    proof {
                        lemma2_to64();
                        assert(rem.subrange(5, 13) =~= rem.skip(5).take(8));
                        assert(rem.skip(5).skip(8) =~= rem.skip(13));
                        assert(decode_bits(rem) == seq![val_of(rem.subrange(5, 13)) as u8]
                            + decode_bits(rem.skip(13)));
                        assert(out@.push(b) + decode_bits(rem.skip(13)) =~= body);
                    }
                    out.push(b);
                },
            }
        } else {
            let ch = match encoder.decode(code) {
                None => {
                    return Err(SqueezeError::UnknownCode);
                },
                Some(ch) => ch,
            };
            proof {
                lemma_sym_code(code as nat);
                assert(decode_bits(rem) == seq![sym_of(code as nat) as u8] + decode_bits(
                    rem.skip(5),
                ));
                assert(out@.push(sym_of(code as nat) as u8) + decode_bits(rem.skip(5)) =~= body);
            }
            let sym = (ch as u32) as u8;
            out.push(sym);
        }
    }
    Ok(out)
}

} // verus!
