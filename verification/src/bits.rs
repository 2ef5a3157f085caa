//! Powers of two and single bits of a basis index.
//!
//! A basis index is read as a row of binary digits. The functions here take
//! one digit out of such a row, put one in, or turn one over, and the lemmas
//! say how these operations undo each other.
use vstd::arithmetic::div_mod::{
    lemma_div_denominator, lemma_fundamental_div_mod, lemma_fundamental_div_mod_converse,
    lemma_mod_breakdown,
};
use vstd::arithmetic::power2::{
    lemma2_to64, lemma_pow2_adds, lemma_pow2_pos, lemma_pow2_strictly_increases,
    lemma_pow2_unfold, pow2,
};
use vstd::prelude::*;

verus! {

/// The bit of `value` at position `index`: 0 or 1.
pub open spec fn bit(value: nat, index: nat) -> nat {
    (value / pow2(index)) % 2
}

/// `value` with a zero bit put in at position `index`: the bits below
/// `index` stay, the bits from `index` upwards move up by one place.
pub open spec fn insert_zero(value: nat, index: nat) -> nat {
    (value / pow2(index)) * pow2(index + 1) + value % pow2(index)
}

/// `value` with the bit at position `index` taken out: the bits below
/// `index` stay, the bits above it move down by one place.
pub open spec fn remove_bit(value: nat, index: nat) -> nat {
    (value / pow2(index + 1)) * pow2(index) + value % pow2(index)
}

/// `value` with the bit at position `index` turned over.
pub open spec fn flip_bit(value: nat, index: nat) -> nat {
    if bit(value, index) == 0 {
        value + pow2(index)
    } else {
        (value - pow2(index)) as nat
    }
}

/// Two to the power `power`.
pub fn exp2(power: usize) -> (r: usize)
    requires
        power < usize::BITS,
    ensures
        r == pow2(power as nat),
{
    proof {
        vstd::bits::lemma_usize_pow2_no_overflow(power as nat);
        vstd::bits::lemma_usize_shl_is_mul(1usize, power);
    }
    1usize << power
}

/// The bit of `value` at position `index`.
pub fn check_bit(value: usize, index: usize) -> (r: usize)
    requires
        index < usize::BITS,
    ensures
        r == bit(value as nat, index as nat),
{
    proof {
        let shifted: usize = value >> index;
        assert((value & (1usize << index)) >> index == (value >> index) & 1usize) by (bit_vector)
            requires
                index < usize::BITS,
        ;
        assert(shifted & 1usize == shifted % 2usize) by (bit_vector);
        vstd::bits::lemma_usize_shr_is_div(value, index);
    }
    (value & (1usize << index)) >> index
}

/// A mask with the single bit `index` set selects exactly that bit.
pub proof fn lemma_mask_selects_bit(value: usize, mask: usize, index: usize)
    requires
        index < usize::BITS,
        mask == pow2(index as nat),
    ensures
        (value & mask != 0) <==> bit(value as nat, index as nat) == 1,
        (value & mask == 0) <==> bit(value as nat, index as nat) == 0,
{
    vstd::bits::lemma_usize_pow2_no_overflow(index as nat);
    vstd::bits::lemma_usize_shl_is_mul(1usize, index);
    let shifted: usize = value >> index;
    assert((value & (1usize << index) != 0) <==> ((value >> index) & 1usize) == 1usize)
        by (bit_vector)
        requires
            index < usize::BITS,
    ;
    assert(shifted & 1usize == shifted % 2usize) by (bit_vector);
    vstd::bits::lemma_usize_shr_is_div(value, index);
}

/// Doubling a power of two gives the next one.
pub proof fn lemma_pow2_next(index: nat)
    ensures
        pow2(index + 1) == 2 * pow2(index),
        pow2(index) > 0,
{
    lemma_pow2_unfold(index + 1);
    lemma_pow2_pos(index);
}

/// A power of two that fits in a machine word has an exponent below the
/// number of bits of the word.
pub proof fn lemma_pow2_fits(power: nat)
    requires
        pow2(power) <= usize::MAX,
    ensures
        power < usize::BITS,
{
    if power >= usize::BITS {
        lemma2_to64();
        assert(pow2(usize::BITS as nat) > usize::MAX);
        if power > usize::BITS {
            lemma_pow2_strictly_increases(usize::BITS as nat, power);
        }
    }
}

/// What division by `p` and by `2 * p` make of `q * 2p + b * p + r`.
proof fn lemma_digits(q: int, b: int, r: int, p: int)
    requires
        0 <= q,
        0 <= b <= 1,
        0 <= r < p,
    ensures
        (q * (2 * p) + b * p + r) / (2 * p) == q,
        (q * (2 * p) + b * p + r) % (2 * p) == b * p + r,
        (q * (2 * p) + b * p + r) / p == 2 * q + b,
        (q * (2 * p) + b * p + r) % p == r,
        (q * p + r) / p == q,
        (q * p + r) % p == r,
{
    let x = q * (2 * p) + b * p + r;
    assert(0 <= b * p + r < 2 * p) by (nonlinear_arith)
        requires
            0 <= b <= 1,
            0 <= r < p,
    ;
    lemma_fundamental_div_mod_converse(x, 2 * p, q, b * p + r);
    assert(x == (2 * q + b) * p + r) by (nonlinear_arith)
        requires
            x == q * (2 * p) + b * p + r,
    ;
    lemma_fundamental_div_mod_converse(x, p, 2 * q + b, r);
    lemma_fundamental_div_mod_converse(q * p + r, p, q, r);
}

/// Every number is its digits above `index`, its bit at `index` and its
/// digits below `index`, put together again.
pub proof fn lemma_split_at(value: nat, index: nat)
    ensures
        value == (value / pow2(index + 1)) * pow2(index + 1) + bit(value, index) * pow2(index)
            + value % pow2(index),
        bit(value, index) <= 1,
        value % pow2(index) < pow2(index),
{
    let p = pow2(index) as int;
    lemma_pow2_next(index);
    lemma_fundamental_div_mod(value as int, 2 * p);
    lemma_mod_breakdown(value as int, p, 2);
    assert(p * 2 == 2 * p);
    assert((2 * p) * (value as int / (2 * p)) == (value as int / (2 * p)) * (2 * p))
        by (nonlinear_arith);
    assert(p * ((value as int / p) % 2) == ((value as int / p) % 2) * p) by (nonlinear_arith);
}

/// Putting a bit in at `index` and taking the bit at `index` out again
/// gives the number back, and the bit that was put in is the bit found there.
pub proof fn lemma_insert_then_remove(value: nat, index: nat, b: nat)
    requires
        b <= 1,
    ensures
        remove_bit(insert_zero(value, index) + b * pow2(index), index) == value,
        bit(insert_zero(value, index) + b * pow2(index), index) == b,
{
    let p = pow2(index) as int;
    lemma_pow2_next(index);
    let q = value as int / p;
    let r = value as int % p;
    lemma_fundamental_div_mod(value as int, p);
    lemma_digits(q, b as int, r, p);
    assert(p * q == q * p) by (nonlinear_arith);
}

/// Taking the bit at `index` out and putting it back gives the number back.
pub proof fn lemma_remove_then_insert(value: nat, index: nat)
    ensures
        insert_zero(remove_bit(value, index), index) + bit(value, index) * pow2(index) == value,
        bit(value, index) <= 1,
{
    let p = pow2(index) as int;
    lemma_pow2_next(index);
    lemma_split_at(value, index);
    let q = value as int / (2 * p);
    let r = value as int % p;
    lemma_digits(q, 0, r, p);
}

/// A number below `2^index` has no digits from `index` upwards, so a zero
/// put in at `index` changes nothing.
pub proof fn lemma_insert_zero_small(value: nat, index: nat)
    requires
        value < pow2(index),
    ensures
        insert_zero(value, index) == value,
{
    lemma_pow2_next(index);
    lemma_digits(0, 0, value as int, pow2(index) as int);
}

/// A bit added at position `high`, at or above `index`, lands one place
/// higher once a zero is put in at `index`.
pub proof fn lemma_insert_zero_above(value: nat, index: nat, high: nat, b: nat)
    requires
        index <= high,
    ensures
        insert_zero(value + b * pow2(high), index) == insert_zero(value, index) + b * pow2(
            high + 1,
        ),
{
    let p = pow2(index) as int;
    let e = pow2((high - index) as nat) as int;
    lemma_pow2_next(index);
    lemma_pow2_adds((high - index) as nat, index);
    lemma_pow2_adds((high - index) as nat, index + 1);
    assert(high - index + index == high);
    assert(high - index + (index + 1) == high + 1);
    let q = value as int / p;
    let r = value as int % p;
    lemma_fundamental_div_mod(value as int, p);
    let x = value as int + b * pow2(high);
    assert(x == (q + b * e) * p + r) by (nonlinear_arith)
        requires
            value as int == p * q + r,
            x == value as int + b * pow2(high),
            pow2(high) == e * p,
    ;
    lemma_fundamental_div_mod_converse(x, p, q + b * e, r);
    assert((q + b * e) * pow2(index + 1) == q * pow2(index + 1) + b * pow2(high + 1))
        by (nonlinear_arith)
        requires
            pow2(high + 1) == e * pow2(index + 1),
    ;
}

/// With `width` digits and a place `index` among them, a bit put in at
/// `index` gives a number of `width + 1` digits.
pub proof fn lemma_insert_bound(value: nat, index: nat, width: nat, b: nat)
    requires
        value < pow2(width),
        index <= width,
        b <= 1,
    ensures
        insert_zero(value, index) + b * pow2(index) < pow2(width + 1),
{
    let p = pow2(index) as int;
    let e = pow2((width - index) as nat) as int;
    lemma_pow2_next(index);
    lemma_pow2_adds((width - index) as nat, index);
    lemma_pow2_adds((width - index) as nat, index + 1);
    assert(width - index + index == width);
    assert(width - index + (index + 1) == width + 1);
    let q = value as int / p;
    let r = value as int % p;
    lemma_fundamental_div_mod(value as int, p);
    assert(q < e) by (nonlinear_arith)
        requires
            value as int == p * q + r,
            0 <= r,
            value < e * p,
            p > 0,
    ;
    assert(q * (2 * p) + b * p + r < e * (2 * p)) by (nonlinear_arith)
        requires
            q + 1 <= e,
            0 <= r < p,
            b <= 1,
    ;
}

/// With `width + 1` digits and a place `index` among them, taking the bit
/// at `index` out leaves a number of `width` digits.
pub proof fn lemma_remove_bound(value: nat, index: nat, width: nat)
    requires
        value < pow2(width + 1),
        index <= width,
    ensures
        remove_bit(value, index) < pow2(width),
{
    let p = pow2(index) as int;
    let e = pow2((width - index) as nat) as int;
    lemma_pow2_next(index);
    lemma_pow2_adds((width - index) as nat, index);
    lemma_pow2_adds((width - index) as nat, index + 1);
    assert(width - index + index == width);
    assert(width - index + (index + 1) == width + 1);
    let q = value as int / (2 * p);
    let r = value as int % p;
    lemma_split_at(value, index);
    assert(q < e) by (nonlinear_arith)
        requires
            value as int >= q * (2 * p),
            value < e * (2 * p),
            p > 0,
    ;
    assert(q * p + r < e * p) by (nonlinear_arith)
        requires
            q + 1 <= e,
            0 <= r < p,
    ;
}

/// The digits of a number below `index + 1`, from those below `index`.
pub proof fn lemma_low_digits_next(value: nat, index: nat)
    ensures
        value % pow2(index + 1) == value % pow2(index) + bit(value, index) * pow2(index),
        bit(value, index) <= 1,
        value % pow2(index) < pow2(index),
{
    let p = pow2(index) as int;
    lemma_pow2_next(index);
    lemma_mod_breakdown(value as int, p, 2);
    assert(p * 2 == 2 * p);
    assert(p * ((value as int / p) % 2) == ((value as int / p) % 2) * p) by (nonlinear_arith);
}

/// A bit below `index` is already a bit of the digits below `index`.
pub proof fn lemma_bit_of_low_digits(value: nat, low: nat, index: nat)
    requires
        low < index,
    ensures
        bit(value, low) == bit(value % pow2(index), low),
{
    let l = pow2(low) as int;
    let p = pow2(index) as int;
    let e = pow2((index - low - 1) as nat) as int;
    lemma_pow2_next(low);
    lemma_pow2_pos(index);
    lemma_pow2_adds((index - low - 1) as nat, low + 1);
    assert(index - low - 1 + (low + 1) == index);
    let a = value as int / p;
    let r = value as int % p;
    lemma_fundamental_div_mod(value as int, p);
    let c = r / l;
    let d = r % l;
    lemma_fundamental_div_mod(r, l);
    assert(value as int == (a * (2 * e) + c) * l + d) by (nonlinear_arith)
        requires
            value as int == p * a + r,
            r == l * c + d,
            p == e * (2 * l),
    ;
    lemma_fundamental_div_mod_converse(value as int, l, a * (2 * e) + c, d);
    lemma_fundamental_div_mod(c, 2);
    assert(a * (2 * e) + c == (a * e + c / 2) * 2 + c % 2) by (nonlinear_arith)
        requires
            c == 2 * (c / 2) + c % 2,
    ;
    lemma_fundamental_div_mod_converse(a * (2 * e) + c, 2, a * e + c / 2, c % 2);
}

/// The other bits of a number into which a bit was put at `index`: those
/// below `index` are where they were.
pub proof fn lemma_insert_keeps_low_bits(value: nat, index: nat, b: nat, low: nat)
    requires
        b <= 1,
        low < index,
    ensures
        bit(insert_zero(value, index) + b * pow2(index), low) == bit(value, low),
{
    let p = pow2(index) as int;
    lemma_pow2_next(index);
    let q = value as int / p;
    let r = value as int % p;
    lemma_fundamental_div_mod(value as int, p);
    lemma_digits(q, b as int, r, p);
    let x = insert_zero(value, index) + b * pow2(index);
    assert(x % pow2(index) == value % pow2(index));
    lemma_bit_of_low_digits(x, low, index);
    lemma_bit_of_low_digits(value, low, index);
}

/// The other bits of a number into which a bit was put at `index`: those
/// from `index` upwards are one place higher.
pub proof fn lemma_insert_moves_high_bits(value: nat, index: nat, b: nat, high: nat)
    requires
        b <= 1,
        index <= high,
    ensures
        bit(insert_zero(value, index) + b * pow2(index), high + 1) == bit(value, high),
{
    let p = pow2(index) as int;
    let e = pow2((high - index) as nat) as int;
    lemma_pow2_next(index);
    lemma_pow2_pos((high - index) as nat);
    lemma_pow2_adds((high - index) as nat, index);
    lemma_pow2_adds((high - index) as nat, index + 1);
    assert(high - index + index == high);
    assert(high - index + (index + 1) == high + 1);
    let q = value as int / p;
    let r = value as int % p;
    lemma_fundamental_div_mod(value as int, p);
    lemma_digits(q, b as int, r, p);
    let x = (insert_zero(value, index) + b * pow2(index)) as int;
    assert(x / (2 * p) == q);
    lemma_div_denominator(x, 2 * p, e);
    lemma_div_denominator(value as int, p, e);
    assert((2 * p) * e == e * (2 * p)) by (nonlinear_arith);
    assert(p * e == e * p) by (nonlinear_arith);
}

/// Setting a bit that is clear does not disturb a zero put in above it.
pub proof fn lemma_insert_zero_commutes(value: nat, low: nat, index: nat)
    requires
        low < index,
        bit(value, low) == 0,
    ensures
        insert_zero(value + pow2(low), index) == insert_zero(value, index) + pow2(low),
{
    let l = pow2(low) as int;
    let p = pow2(index) as int;
    let e = pow2((index - low - 1) as nat) as int;
    lemma_pow2_next(low);
    lemma_pow2_next(index);
    lemma_pow2_adds((index - low - 1) as nat, low + 1);
    assert(index - low - 1 + (low + 1) == index);
    let a = value as int / p;
    let low_digits = value % pow2(index);
    let r = low_digits as int;
    lemma_fundamental_div_mod(value as int, p);
    lemma_bit_of_low_digits(value, low, index);
    lemma_split_at(low_digits, low);
    let c = r / (2 * l);
    let d = r % l;
    assert(bit(low_digits, low) == 0);
    assert(bit(low_digits, low) * pow2(low) == 0) by (nonlinear_arith)
        requires
            bit(low_digits, low) == 0,
    ;
    assert(c < e) by (nonlinear_arith)
        requires
            r >= c * (2 * l),
            r < e * (2 * l),
            l > 0,
    ;
    assert(r + l < p) by (nonlinear_arith)
        requires
            r == c * (2 * l) + d,
            0 <= d < l,
            c + 1 <= e,
            p == e * (2 * l),
    ;
    assert(p * a == a * p) by (nonlinear_arith);
    lemma_fundamental_div_mod_converse(value as int + l, p, a, r + l);
}

/// Turning a bit over is putting the opposite bit where it was.
pub proof fn lemma_flip_as_insert(value: nat, index: nat)
    ensures
        bit(value, index) <= 1,
        flip_bit(value, index) == insert_zero(remove_bit(value, index), index) + (1 - bit(
            value,
            index,
        )) * pow2(index),
{
    lemma_remove_then_insert(value, index);
    lemma_pow2_pos(index);
    let b = bit(value, index);
    assert(b * pow2(index) == if b == 0 {
        0
    } else {
        pow2(index)
    }) by (nonlinear_arith)
        requires
            b <= 1,
    ;
    assert((1 - b) * pow2(index) == if b == 0 {
        pow2(index) as int
    } else {
        0
    }) by (nonlinear_arith)
        requires
            b <= 1,
    ;
}

/// A bit turned over has the opposite value, the number without that bit
/// is the same, and turning it over once more gives the number back.
pub proof fn lemma_flip_bit(value: nat, index: nat)
    ensures
        bit(value, index) <= 1,
        bit(flip_bit(value, index), index) == 1 - bit(value, index),
        remove_bit(flip_bit(value, index), index) == remove_bit(value, index),
        flip_bit(flip_bit(value, index), index) == value,
{
    lemma_flip_as_insert(value, index);
    let b = bit(value, index);
    let rest = remove_bit(value, index);
    lemma_insert_then_remove(rest, index, (1 - b) as nat);
    let flipped = flip_bit(value, index);
    lemma_flip_as_insert(flipped, index);
    lemma_remove_then_insert(value, index);
}

/// Turning the bit at `index` over leaves every other bit as it was.
pub proof fn lemma_flip_keeps_other_bits(value: nat, index: nat, other: nat)
    requires
        other != index,
    ensures
        bit(flip_bit(value, index), other) == bit(value, other),
{
    lemma_flip_as_insert(value, index);
    lemma_remove_then_insert(value, index);
    let b = bit(value, index);
    let rest = remove_bit(value, index);
    if other < index {
        lemma_insert_keeps_low_bits(rest, index, b, other);
        lemma_insert_keeps_low_bits(rest, index, (1 - b) as nat, other);
    } else {
        lemma_insert_moves_high_bits(rest, index, b, (other - 1) as nat);
        lemma_insert_moves_high_bits(rest, index, (1 - b) as nat, (other - 1) as nat);
    }
}

/// Turning over one of the `width` lowest bits of a number of `width`
/// digits gives a number of `width` digits.
pub proof fn lemma_flip_bound(value: nat, index: nat, width: nat)
    requires
        value < pow2(width),
        index < width,
    ensures
        flip_bit(value, index) < pow2(width),
{
    lemma_flip_as_insert(value, index);
    assert((width - 1) as nat + 1 == width);
    lemma_remove_bound(value, index, (width - 1) as nat);
    lemma_insert_bound(
        remove_bit(value, index),
        index,
        (width - 1) as nat,
        (1 - bit(value, index)) as nat,
    );
}

} // verus!
