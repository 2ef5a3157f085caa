//! Numbers written in binary.
use crate::bits::lemma_pow2_next;
use vstd::arithmetic::power2::{lemma2_to64, lemma2_to64_rest, pow2};
use vstd::prelude::*;

verus! {

/// The character of one binary digit.
pub open spec fn binary_digit(digit: nat) -> char {
    if digit == 0 {
        '0'
    } else {
        '1'
    }
}

/// The binary digits of `value`, the highest first, without leading zeros;
/// the single digit 0 for zero.
pub open spec fn binary_digits(value: nat) -> Seq<char>
    decreases value,
{
    if value < 2 {
        seq![binary_digit(value)]
    } else {
        binary_digits(value / 2).push(binary_digit(value % 2))
    }
}

/// The binary digits of `value`, with zeros in front up to `width` digits
/// where it has fewer.
pub open spec fn padded_binary(value: nat, width: nat) -> Seq<char> {
    let digits = binary_digits(value);
    if digits.len() < width {
        Seq::new((width - digits.len()) as nat, |i: int| '0') + digits
    } else {
        digits
    }
}

/// The number of binary digits of `value`.
pub fn binary_length(value: u64) -> (r: usize)
    ensures
        r == binary_digits(value as nat).len(),
        1 <= r <= 64,
{
    let mut rest: u64 = value;
    let mut length: usize = 1;
    proof {
        lemma2_to64();
        let unit = pow2(0);
        assert(rest as nat * unit == rest) by (nonlinear_arith)
            requires
                unit == 1,
        ;
    }
    while rest >= 2
        invariant
            1 <= length <= 64,
            binary_digits(value as nat).len() == binary_digits(rest as nat).len() + length - 1,
            rest as nat * pow2((length - 1) as nat) <= value,
        decreases rest,
    {
        proof {
            let p = pow2((length - 1) as nat);
            lemma_pow2_next((length - 1) as nat);
            assert((rest / 2) as nat * (2 * p) <= rest as nat * p) by (nonlinear_arith)
                requires
                    p > 0,
            ;
            if length == 64 {
                lemma2_to64();
                lemma2_to64_rest();
                assert(rest as nat * p >= 2 * p) by (nonlinear_arith)
                    requires
                        rest >= 2,
                        p > 0,
                ;
            }
        }
        rest = rest / 2;
        length += 1;
    }
    length
}

/// Write the binary digits of `value` at the end of `out`.
pub fn push_binary(out: &mut String, value: u64)
    ensures
        final(out)@ == old(out)@ + binary_digits(value as nat),
    decreases value,
{
    if value >= 2 {
        push_binary(out, value / 2);
    }
    let ghost so_far = out@;
    if value % 2 == 0 {
        proof {
            reveal_strlit("0");
        }
        out.append("0");
        assert(out@ =~= so_far.push('0'));
    } else {
        proof {
            reveal_strlit("1");
        }
        out.append("1");
        assert(out@ =~= so_far.push('1'));
    }
    assert(out@ =~= old(out)@ + binary_digits(value as nat));
}

/// Write the binary digits of `value` at the end of `out`, with zeros in
/// front up to `width` digits.
pub fn push_padded_binary(out: &mut String, value: u64, width: usize)
    ensures
        final(out)@ == old(out)@ + padded_binary(value as nat, width as nat),
{
    let length: usize = binary_length(value);
    let ghost start = out@;
    let mut zeros: usize = 0;
    if length < width {
        let missing: usize = width - length;
        while zeros < missing
            invariant
                zeros <= missing,
                out@ == start + Seq::new(zeros as nat, |i: int| '0'),
            decreases missing - zeros,
        {
            let ghost so_far = out@;
            proof {
                reveal_strlit("0");
            }
            out.append("0");
            zeros += 1;
            assert(out@ =~= start + Seq::new(zeros as nat, |i: int| '0'));
        }
    } else {
        assert(out@ =~= start + Seq::new(0nat, |i: int| '0'));
    }
    push_binary(out, value);
    assert(out@ =~= start + padded_binary(value as nat, width as nat));
}

} // verus!
