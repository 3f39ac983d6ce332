//! Bit numbering: what it means to read a run of bits out of a byte sequence.
//!
//! Bits of a byte sequence are numbered from the most significant bit of the first byte. Bits of
//! a number are numbered from its least significant bit.

use vstd::arithmetic::div_mod::*;
use vstd::arithmetic::mul::*;
use vstd::arithmetic::power2::*;
use vstd::bits::*;
use vstd::prelude::*;

verus! {

/// Whether bit `i` of `v` is set; bit 0 is the least significant one.
pub open spec fn value_bit(v: nat, i: nat) -> bool {
    (v / pow2(i)) % 2 == 1
}

/// Whether bit `k` of `data` is set; bit 0 is the most significant bit of the first byte.
pub open spec fn bit(data: Seq<u8>, k: int) -> bool {
    value_bit(data[k / 8] as nat, (7 - k % 8) as nat)
}

/// The number whose binary digits are the `len` bits of `data` that begin at bit `start`, the
/// first of them being the most significant digit.
pub open spec fn bits(data: Seq<u8>, start: int, len: nat) -> nat
    decreases len,
{
    if len == 0 {
        0
    } else {
        2 * bits(data, start, (len - 1) as nat) + if bit(data, start + len - 1) {
            1nat
        } else {
            0nat
        }
    }
}

/// Whether `data` has the `len` bits that begin at bit `start`, and can be the contents of an
/// array.
pub open spec fn has_bits(data: Seq<u8>, start: int, len: int) -> bool {
    &&& data.len() <= usize::MAX
    &&& 0 <= start
    &&& start + len <= 8 * data.len()
}

/// `before` and `after` have the same length and agree on every bit outside the `len` bits that
/// begin at bit `start`.
pub open spec fn same_outside(before: Seq<u8>, after: Seq<u8>, start: int, len: int) -> bool {
    &&& after.len() == before.len()
    &&& forall|k: int|
        0 <= k < 8 * before.len() && !(start <= k < start + len) ==> #[trigger] bit(after, k)
            == bit(before, k)
}

/// A run of `len` bits reads as a number below `2^len`.
pub proof fn lemma_bits_bound(data: Seq<u8>, start: int, len: nat)
    ensures
        bits(data, start, len) < pow2(len),
    decreases len,
{
    if len == 0 {
        lemma2_to64();
    } else {
        lemma_bits_bound(data, start, (len - 1) as nat);
        lemma_pow2_unfold(len);
    }
}

/// A run of bits can be read in two parts.
pub proof fn lemma_bits_split(data: Seq<u8>, start: int, a: nat, b: nat)
    ensures
        bits(data, start, a + b) == bits(data, start, a) * pow2(b) + bits(data, start + a, b),
    decreases b,
{
    if b == 0 {
        lemma2_to64();
        assert(bits(data, start, a) * 1 == bits(data, start, a));
    } else {
        let c = (b - 1) as nat;
        lemma_bits_split(data, start, a, c);
        lemma_pow2_unfold(b);
        let high = bits(data, start, a);
        assert(2 * (high * pow2(c)) == high * (2 * pow2(c))) by (nonlinear_arith);
        assert((a + b - 1) as nat == a + c);
        assert(start + (a + b) - 1 == start + a + b - 1);
    }
}

/// Dropping the lowest binary digit of `x` before reducing it.
proof fn lemma_mod_pow2_step(x: nat, n: nat)
    requires
        n > 0,
    ensures
        x % pow2(n) == 2 * ((x / 2) % pow2((n - 1) as nat)) + x % 2,
{
    lemma_pow2_unfold(n);
    lemma_pow2_pos((n - 1) as nat);
    lemma_mod_breakdown(x as int, 2, pow2((n - 1) as nat) as int);
}

/// Dividing by `2^(n + 1)` is dividing by `2^n` and then halving.
proof fn lemma_div_pow2_step(x: nat, n: nat)
    ensures
        x / pow2(n + 1) == (x / pow2(n)) / 2,
        x / pow2(n + 1) == (x / 2) / pow2(n),
{
    lemma_pow2_unfold(n + 1);
    lemma_pow2_pos(n);
    lemma_div_denominator(x as int, pow2(n) as int, 2);
    lemma_div_denominator(x as int, 2, pow2(n) as int);
    lemma_mul_is_commutative(pow2(n) as int, 2);
}

/// The digits of `v / 2` are those of `v`, moved down by one.
proof fn lemma_value_bit_half(v: nat, i: nat)
    ensures
        value_bit(v / 2, i) == value_bit(v, i + 1),
{
    lemma_div_pow2_step(v, i);
}

/// A run of bits inside one byte is the byte shifted and reduced.
pub proof fn lemma_bits_in_byte(data: Seq<u8>, start: int, len: nat)
    requires
        0 <= start,
        start % 8 + len <= 8,
    ensures
        bits(data, start, len) == (data[start / 8] as nat / pow2((8 - start % 8 - len) as nat))
            % pow2(len),
    decreases len,
{
    let byte = data[start / 8] as nat;
    let shift = (8 - start % 8 - len) as nat;
    let x = byte / pow2(shift);
    if len == 0 {
        lemma2_to64();
    } else {
        lemma_bits_in_byte(data, start, (len - 1) as nat);
        let k = start + len - 1;
        assert(k / 8 == start / 8 && k % 8 == start % 8 + len - 1);
        lemma_div_pow2_step(byte, shift);
        lemma_mod_pow2_step(x, len);
        assert(bit(data, k) == (x % 2 == 1));
    }
}

/// Bits that spell out the low digits of `v` read as `v` reduced to that many digits.
pub proof fn lemma_bits_of_value(data: Seq<u8>, start: int, len: nat, v: nat)
    requires
        forall|k: int|
            start <= k < start + len ==> #[trigger] bit(data, k) == value_bit(
                v,
                (start + len - 1 - k) as nat,
            ),
    ensures
        bits(data, start, len) == v % pow2(len),
    decreases len,
{
    if len == 0 {
        lemma2_to64();
    } else {
        let shorter = (len - 1) as nat;
        assert forall|k: int| start <= k < start + shorter implies #[trigger] bit(data, k)
            == value_bit(v / 2, (start + shorter - 1 - k) as nat) by {
            lemma_value_bit_half(v, (start + shorter - 1 - k) as nat);
        }
        lemma_bits_of_value(data, start, shorter, v / 2);
        lemma_mod_pow2_step(v, len);
        lemma2_to64();
        assert(bit(data, start + len - 1) == value_bit(v, 0));
    }
}

/// Each bit of a run is the digit of the number that the run reads as.
pub proof fn lemma_value_of_bits(data: Seq<u8>, start: int, len: nat, k: int)
    requires
        start <= k < start + len,
    ensures
        value_bit(bits(data, start, len), (start + len - 1 - k) as nat) == bit(data, k),
    decreases len,
{
    let v = bits(data, start, len);
    let shorter = (len - 1) as nat;
    assert(v / 2 == bits(data, start, shorter));
    if k == start + len - 1 {
        lemma2_to64();
        assert(v / pow2(0) == v);
    } else {
        let i = (start + shorter - 1 - k) as nat;
        lemma_value_of_bits(data, start, shorter, k);
        lemma_value_bit_half(v, i);
        assert(i + 1 == (start + len - 1 - k) as nat);
    }
}

/// Runs that agree bit by bit read as the same number.
pub proof fn lemma_bits_same(a: Seq<u8>, b: Seq<u8>, start: int, len: nat)
    requires
        forall|k: int| start <= k < start + len ==> #[trigger] bit(a, k) == bit(b, k),
    ensures
        bits(a, start, len) == bits(b, start, len),
    decreases len,
{
    if len > 0 {
        lemma_bits_same(a, b, start, (len - 1) as nat);
        assert(bit(a, start + len - 1) == bit(b, start + len - 1));
    }
}

/// Byte sequences of one length that agree on every bit are equal.
pub proof fn lemma_same_bits_equal(a: Seq<u8>, b: Seq<u8>)
    requires
        a.len() == b.len(),
        forall|k: int| 0 <= k < 8 * a.len() ==> #[trigger] bit(a, k) == bit(b, k),
    ensures
        a == b,
{
    assert forall|i: int| 0 <= i < a.len() implies a[i] == b[i] by {
        lemma_bits_same(a, b, 8 * i, 8);
        lemma_bits_in_byte(a, 8 * i, 8);
        lemma_bits_in_byte(b, 8 * i, 8);
        lemma2_to64();
    }
    assert(a =~= b);
}

/// Shifting right by `s` moves every digit down by `s`.
pub proof fn lemma_value_bit_shr(v: nat, s: nat, i: nat)
    ensures
        value_bit(v / pow2(s), i) == value_bit(v, i + s),
{
    lemma_pow2_pos(s);
    lemma_pow2_pos(i);
    lemma_div_denominator(v as int, pow2(s) as int, pow2(i) as int);
    lemma_pow2_adds(s, i);
}

/// Reducing to `w` digits keeps the digits below `w`.
pub proof fn lemma_value_bit_mod(v: nat, w: nat, i: nat)
    requires
        i < w,
    ensures
        value_bit(v % pow2(w), i) == value_bit(v, i),
    decreases i,
{
    lemma_mod_pow2_step(v, w);
    lemma_pow2_pos((w - 1) as nat);
    let r = v % pow2(w);
    let q = (v / 2) % pow2((w - 1) as nat);
    assert(r == 2 * q + v % 2);
    assert(r % 2 == v % 2 && r / 2 == q);
    if i == 0 {
        lemma2_to64();
        assert(r / pow2(0) == r && v / pow2(0) == v);
    } else {
        let j = (i - 1) as nat;
        lemma_value_bit_mod(v / 2, (w - 1) as nat, j);
        lemma_value_bit_half(v, j);
        lemma_value_bit_half(r, j);
    }
}

/// Shifting left by `s` moves every digit up by `s`.
pub proof fn lemma_value_bit_shl(v: nat, s: nat, i: nat)
    requires
        s <= i,
    ensures
        value_bit(v * pow2(s), i) == value_bit(v, (i - s) as nat),
{
    let rest = (i - s) as nat;
    lemma_pow2_adds(s, rest);
    lemma_pow2_pos(s);
    lemma_pow2_pos(rest);
    lemma_div_denominator((v * pow2(s)) as int, pow2(s) as int, pow2(rest) as int);
    lemma_div_by_multiple(v as int, pow2(s) as int);
}

/// The digit of a machine number, as a shift and a mask.
pub proof fn lemma_value_bit_u64(v: u64, i: u64)
    requires
        i < 64,
    ensures
        value_bit(v as nat, i as nat) == ((v >> i) & 1 == 1),
{
    lemma_u64_shr_is_div(v, i);
    let x = v >> i;
    assert((x & 1 == 1) == (x % 2 == 1)) by (bit_vector);
}

/// The mask of the `len` bits that begin at bit `offset` of a byte, counted from the most
/// significant one.
pub open spec fn byte_mask(offset: u8, len: u8) -> u8 {
    (0xFFu8 >> ((8 - len) as u8)) << ((8 - len - offset) as u8)
}

/// What a byte holds after the bits under `mask` were taken from `source`.
pub open spec fn merged_byte(byte: u8, mask: u8, source: u8) -> u8 {
    (byte & !mask) | (source & mask)
}

/// A merged byte takes its bits from the source inside the mask and keeps its own outside.
pub proof fn lemma_merged_byte(byte: u8, offset: u8, len: u8, source: u8, i: u8)
    requires
        1 <= len,
        offset + len <= 8,
        i < 8,
    ensures
        value_bit(merged_byte(byte, byte_mask(offset, len), source) as nat, i as nat) == (if 8
            - offset - len <= i < 8 - offset {
            value_bit(source as nat, i as nat)
        } else {
            value_bit(byte as nat, i as nat)
        }),
{
    let up = (8 - len) as u8;
    let down = (8 - len - offset) as u8;
    let merged = merged_byte(byte, byte_mask(offset, len), source);
    let j = i as u64;
    lemma_value_bit_u64(merged as u64, j);
    lemma_value_bit_u64(source as u64, j);
    lemma_value_bit_u64(byte as u64, j);
    assert(((merged as u64) >> (i as u64)) & 1 == (if down <= i && i < 8 - offset {
        ((source as u64) >> (i as u64)) & 1
    } else {
        ((byte as u64) >> (i as u64)) & 1
    })) by (bit_vector)
        requires
            merged == (byte & !((0xFFu8 >> up) << down)) | (source & ((0xFFu8 >> up) << down)),
            1 <= len,
            offset + len <= 8,
            up == 8 - len,
            down == 8 - len - offset,
            i < 8,
    ;
}

} // verus!
