//! Mathematical model of MSB-first packed bit streams.
//!
//! A compressed stream is a sequence of bits, packed most significant bit
//! first into bytes.  This module gives the stream its specification-level
//! shape: `bits_of` turns a value into its fixed-width bit string, `val_of`
//! reads a bit string back as a value, and `bytes_bits` flattens a byte
//! sequence into the bit stream it carries.

use vstd::arithmetic::div_mod::*;
use vstd::arithmetic::power::lemma_pow_division_inequality;
use vstd::arithmetic::power2::*;
use vstd::prelude::*;

verus! {

/// The low `w` bits of `v`, most significant bit first.
pub open spec fn bits_of(v: nat, w: nat) -> Seq<bool>
    decreases w,
{
    if w == 0 {
        Seq::empty()
    } else {
        bits_of(v / 2, (w - 1) as nat).push(v % 2 == 1)
    }
}

/// The value of a bit string, read most significant bit first.
pub open spec fn val_of(s: Seq<bool>) -> nat
    decreases s.len(),
{
    if s.len() == 0 {
        0
    } else {
        2 * val_of(s.drop_last()) + (if s.last() {
            1nat
        } else {
            0nat
        })
    }
}

/// `n` zero bits.
pub open spec fn zeros(n: nat) -> Seq<bool> {
    Seq::new(n, |i: int| false)
}

/// Every bit of a byte sequence, each byte most significant bit first.
pub open spec fn bytes_bits(s: Seq<u8>) -> Seq<bool>
    decreases s.len(),
{
    if s.len() == 0 {
        Seq::empty()
    } else {
        bits_of(s.first() as nat, 8) + bytes_bits(s.drop_first())
    }
}

pub broadcast proof fn lemma_bits_of_len(v: nat, w: nat)
    ensures
        (#[trigger] bits_of(v, w)).len() == w,
    decreases w,
{
    if w > 0 {
        lemma_bits_of_len(v / 2, (w - 1) as nat);
    }
}

pub broadcast proof fn lemma_bytes_bits_len(s: Seq<u8>)
    ensures
        (#[trigger] bytes_bits(s)).len() == 8 * s.len(),
    decreases s.len(),
{
    broadcast use lemma_bits_of_len;

    if s.len() > 0 {
        lemma_bytes_bits_len(s.drop_first());
    }
}

/// Reading the bits of `v` back gives `v`, reduced to its low `w` bits.
pub proof fn lemma_val_of_bits_of(v: nat, w: nat)
    ensures
        val_of(bits_of(v, w)) == v % pow2(w),
    decreases w,
{
    broadcast use lemma_bits_of_len;

    if w == 0 {
        assert(pow2(0) == 1) by {
            lemma2_to64();
        }
    } else {
        let w1 = (w - 1) as nat;
        lemma_val_of_bits_of(v / 2, w1);
        let s = bits_of(v, w);
        assert(s.drop_last() =~= bits_of(v / 2, w1));
        lemma_pow2_unfold(w);
        lemma_pow2_pos(w1);
        lemma_breakdown(v as int, 2, pow2(w1) as int);
    }
}

/// Only the low `w` bits of `v` matter to `bits_of`.
pub proof fn lemma_bits_of_mod(v: nat, w: nat)
    ensures
        bits_of(v % pow2(w), w) == bits_of(v, w),
    decreases w,
{
    broadcast use lemma_bits_of_len;

    if w == 0 {
        lemma_pow2_pos(w);
        assert(bits_of(v % pow2(w), w) == Seq::<bool>::empty());
        assert(bits_of(v, w) == Seq::<bool>::empty());
    } else {
        let w1 = (w - 1) as nat;
        let m = pow2(w1) as int;
        lemma_pow2_unfold(w);
        lemma_pow2_pos(w1);
        lemma_breakdown(v as int, 2, m);
        let vm = (v % pow2(w)) as int;
        assert(vm == 2 * ((v as int / 2) % m) + v as int % 2);
        lemma_mod_division_less_than_divisor(v as int / 2, m);
        lemma_fundamental_div_mod_converse(vm, 2, (v as int / 2) % m, v as int % 2);
        lemma_bits_of_mod(v / 2, w1);
        assert(bits_of((v % pow2(w)) / 2, w1) == bits_of(v / 2, w1));
        assert(bits_of(v % pow2(w), w) =~= bits_of(v, w));
    }
}

/// Splitting a `c`-bit string at `k` bits from the low end: the high part is
/// the bits of `v / pow2(k)` and the low part is the low `k` bits of `v`.
pub proof fn lemma_bits_of_split(v: nat, c: nat, k: nat)
    requires
        k <= c,
    ensures
        bits_of(v, c) == bits_of(v / pow2(k), (c - k) as nat) + bits_of(v, k),
    decreases k,
{
    broadcast use lemma_bits_of_len;

    if k == 0 {
        assert(pow2(0) == 1) by {
            lemma2_to64();
        }
        assert(bits_of(v, c) =~= bits_of(v / 1, c) + bits_of(v, 0));
    } else {
        let k1 = (k - 1) as nat;
        lemma_bits_of_split(v / 2, (c - 1) as nat, k1);
        lemma_pow2_unfold(k);
        lemma_pow2_pos(k1);
        lemma_div_denominator(v as int, 2, pow2(k1) as int);
        assert((v / 2) / pow2(k1) == v / pow2(k));
        assert(bits_of(v, c) =~= bits_of(v / pow2(k), (c - k) as nat) + bits_of(v, k));
    }
}

/// A string of zero bits is the bit string of the value zero.
pub proof fn lemma_bits_of_zero(w: nat)
    ensures
        bits_of(0, w) == zeros(w),
    decreases w,
{
    broadcast use lemma_bits_of_len;

    if w == 0 {
        assert(bits_of(0, 0) =~= zeros(0));
    } else {
        lemma_bits_of_zero((w - 1) as nat);
        assert(bits_of(0, w) =~= zeros(w));
    }
}

/// Concatenating bit strings concatenates the values: the bits of
/// `a * pow2(k) + b` are the bits of `a` followed by the `k` bits of `b`.
pub proof fn lemma_bits_of_combine(a: nat, b: nat, c: nat, k: nat)
    requires
        b < pow2(k),
    ensures
        bits_of(a * pow2(k) + b, (c + k) as nat) == bits_of(a, c) + bits_of(b, k),
{
    broadcast use lemma_bits_of_len;

    let v = a * pow2(k) + b;
    lemma_pow2_pos(k);
    lemma_bits_of_split(v, (c + k) as nat, k);
    lemma_fundamental_div_mod_converse(v as int, pow2(k) as int, a as int, b as int);
    assert(v / pow2(k) == a);
    assert(v % pow2(k) == b);
    lemma_bits_of_mod(v, k);
    lemma_bits_of_mod(b, k);
    lemma_small_mod(b, pow2(k));
    assert(bits_of(v, k) == bits_of(b, k));
}

/// Shifting a value left by `p` bits appends `p` zero bits.
pub proof fn lemma_bits_of_shift(v: nat, c: nat, p: nat)
    ensures
        bits_of(v * pow2(p), (c + p) as nat) == bits_of(v, c) + zeros(p),
{
    lemma_pow2_pos(p);
    lemma_bits_of_combine(v, 0, c, p);
    lemma_bits_of_zero(p);
}

/// The bit at position `i` of the `w`-bit string of `v`, counted from the
/// most significant end.
pub proof fn lemma_bits_of_index(v: nat, w: nat, i: int)
    requires
        0 <= i < w,
    ensures
        bits_of(v, w)[i] == ((v / pow2((w - 1 - i) as nat)) % 2 == 1),
    decreases w,
{
    broadcast use lemma_bits_of_len;

    let s = bits_of(v, w);
    assert(s == bits_of(v / 2, (w - 1) as nat).push(v % 2 == 1));
    if i == w - 1 {
        assert(pow2(0) == 1) by {
            lemma2_to64();
        }
        assert(s[i] == (v % 2 == 1));
        assert(v / pow2(0) == v);
    } else {
        let k = (w - 2 - i) as nat;
        assert(s[i] == bits_of(v / 2, (w - 1) as nat)[i]);
        lemma_bits_of_index(v / 2, (w - 1) as nat, i);
        assert(s[i] == ((v / 2 / pow2(k)) % 2 == 1));
        lemma_pow2_unfold((k + 1) as nat);
        lemma_pow2_pos(k);
        lemma_div_denominator(v as int, 2, pow2(k) as int);
        assert((v / 2) / pow2(k) == v / pow2((k + 1) as nat));
        assert((w - 1 - i) as nat == (k + 1) as nat);
    }
}

/// Powers of two do not decrease.
pub proof fn lemma_pow2_le(e1: nat, e2: nat)
    requires
        e1 <= e2,
    ensures
        pow2(e1) <= pow2(e2),
{
    if e1 < e2 {
        lemma_pow2_strictly_increases(e1, e2);
    }
}

/// Dividing away the low `k` bits of a `c`-bit value leaves a value of at
/// most `c - k` bits.
pub proof fn lemma_pow2_div_bound(v: nat, c: nat, k: nat)
    requires
        k <= c,
        v < pow2(c),
    ensures
        v / pow2(k) < pow2((c - k) as nat),
        pow2(k) > 0,
{
    lemma_pow2_pos(k);
    lemma_pow2(k);
    lemma_pow2(c);
    lemma_pow2((c - k) as nat);
    lemma_pow_division_inequality(v, 2, c, k);
}

/// Appending a byte to a byte sequence appends its eight bits.
pub proof fn lemma_bytes_bits_push(s: Seq<u8>, b: u8)
    ensures
        bytes_bits(s.push(b)) == bytes_bits(s) + bits_of(b as nat, 8),
    decreases s.len(),
{
    broadcast use lemma_bits_of_len, lemma_bytes_bits_len;

    if s.len() == 0 {
        assert(s.push(b).drop_first() =~= Seq::<u8>::empty());
        assert(bytes_bits(s.push(b)) =~= bytes_bits(s) + bits_of(b as nat, 8));
    } else {
        assert(s.push(b).drop_first() =~= s.drop_first().push(b));
        lemma_bytes_bits_push(s.drop_first(), b);
        assert(bytes_bits(s.push(b)) =~= bytes_bits(s) + bits_of(b as nat, 8));
    }
}

/// Reading a byte sequence from position `p` starts with the bits of the
/// byte at `p`.
pub proof fn lemma_bytes_bits_first(s: Seq<u8>, p: int)
    requires
        0 <= p < s.len(),
    ensures
        bytes_bits(s.skip(p)) == bits_of(s[p] as nat, 8) + bytes_bits(s.skip(p + 1)),
{
    let t = s.skip(p);
    assert(t.first() == s[p]);
    assert(t.drop_first() =~= s.skip(p + 1));
}

} // verus!
