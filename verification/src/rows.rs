//! The pairs of basis indices that a gate works on.
//!
//! A gate on one qubit combines the two amplitudes whose indices differ in
//! that qubit's bit alone; a controlled gate does so only where the control
//! bit is set. The pairs are numbered by the bits that are left once the
//! gate's own bits are taken out of the index.
use crate::bits::{
    bit, exp2, flip_bit, insert_zero, lemma_insert_bound, lemma_insert_keeps_low_bits,
    lemma_insert_then_remove, lemma_insert_zero_above, lemma_insert_zero_commutes,
    lemma_insert_zero_small, lemma_low_digits_next, lemma_mask_selects_bit, lemma_pow2_next,
    lemma_remove_bound, lemma_remove_then_insert, remove_bit,
};
use vstd::arithmetic::div_mod::{lemma_mod_bound, lemma_small_mod};
use vstd::arithmetic::power2::{lemma2_to64, lemma_pow2_pos, pow2};
use vstd::bits::{lemma_usize_pow2_no_overflow, lemma_usize_shl_is_mul};
use vstd::prelude::*;

verus! {

/// The `n`-th pair of indices that differ in bit `t` alone: the index with
/// bit `t` clear, then the one with bit `t` set. The other bits are those of
/// `n`, in their order.
pub open spec fn target_row(n: nat, t: nat) -> (nat, nat) {
    let base = insert_zero(n, t);
    (base, base + pow2(t))
}

/// The `n`-th pair of indices that have bit `c` set and differ in bit `t`
/// alone: the index with bit `t` clear, then the one with bit `t` set. The
/// other bits are those of `n`, in their order.
pub open spec fn exchangeable_row(n: nat, c: nat, t: nat) -> (nat, nat) {
    let low = if c < t {
        c
    } else {
        t
    };
    let high = if c < t {
        t
    } else {
        c
    };
    let base = insert_zero(insert_zero(n, low), high);
    (base + pow2(c), base + pow2(c) + pow2(t))
}

/// The pairs of indices that a rotation of qubit `t` combines in a register
/// of `width` qubits, in order.
pub open spec fn target_rows(width: nat, t: nat) -> Seq<(usize, usize)> {
    Seq::new(
        pow2((width - 1) as nat),
        |n: int| (target_row(n as nat, t).0 as usize, target_row(n as nat, t).1 as usize),
    )
}

/// The pairs of indices that a controlled not with control `c` and target
/// `t` exchanges in a register of `width` qubits, in order.
pub open spec fn exchangeable_rows(width: nat, c: nat, t: nat) -> Seq<(usize, usize)> {
    Seq::new(
        pow2((width - 2) as nat),
        |n: int|
            (
                exchangeable_row(n as nat, c, t).0 as usize,
                exchangeable_row(n as nat, c, t).1 as usize,
            ),
    )
}

/// What the lowest `i` places of the first index of `target_row(n, t)` hold.
spec fn target_prefix(n: nat, t: nat, i: nat) -> nat {
    if i > t {
        insert_zero(n % pow2((i - 1) as nat), t)
    } else {
        n % pow2(i)
    }
}

/// What the lowest `i` places of `exchangeable_row(n, c, t)` hold, with
/// the places of control and target left clear.
spec fn exchangeable_prefix(n: nat, low: nat, high: nat, i: nat) -> nat {
    if i > high {
        insert_zero(insert_zero(n % pow2((i - 2) as nat), low), high)
    } else if i > low {
        insert_zero(n % pow2((i - 1) as nat), low)
    } else {
        n % pow2(i)
    }
}

/// One place further in `target_prefix`, at a place other than `t`.
proof fn lemma_target_prefix_next(n: nat, t: nat, i: nat)
    requires
        i != t,
    ensures
        target_prefix(n, t, i + 1) == target_prefix(n, t, i) + bit(
            n,
            if i > t {
                (i - 1) as nat
            } else {
                i
            },
        ) * pow2(i),
{
    if i > t {
        let k = (i - 1) as nat;
        assert(k + 1 == i);
        lemma_low_digits_next(n, k);
        lemma_insert_zero_above(n % pow2(k), t, k, bit(n, k));
    } else {
        lemma_low_digits_next(n, i);
    }
}

/// One place further in `exchangeable_prefix`, at a place that is neither
/// control nor target.
proof fn lemma_exchangeable_prefix_next(n: nat, low: nat, high: nat, i: nat)
    requires
        low < high,
        i != low,
        i != high,
    ensures
        exchangeable_prefix(n, low, high, i + 1) == exchangeable_prefix(n, low, high, i) + bit(
            n,
            if i > high {
                (i - 2) as nat
            } else if i > low {
                (i - 1) as nat
            } else {
                i
            },
        ) * pow2(i),
{
    if i > high {
        let k = (i - 2) as nat;
        assert(k + 1 == i - 1);
        assert(k + 1 + 1 == i);
        lemma_low_digits_next(n, k);
        lemma_insert_zero_above(n % pow2(k), low, k, bit(n, k));
        lemma_insert_zero_above(insert_zero(n % pow2(k), low), high, k + 1, bit(n, k));
    } else if i > low {
        let k = (i - 1) as nat;
        assert(k + 1 == i);
        lemma_low_digits_next(n, k);
        lemma_insert_zero_above(n % pow2(k), low, k, bit(n, k));
    } else {
        lemma_low_digits_next(n, i);
    }
}

/// The pairs of indices that a rotation of qubit `t` combines, in a register
/// of `qubit_width` qubits: `target_row(n, t)` for every `n` below
/// `2^(qubit_width - 1)`, in order.
pub fn find_target_rows(qubit_width: usize, t: usize) -> (out: Vec<(usize, usize)>)
    requires
        t < qubit_width < usize::BITS,
    ensures
        out@ == target_rows(qubit_width as nat, t as nat),
        out@.len() == pow2((qubit_width - 1) as nat),
        forall|n: int|
            0 <= n < out@.len() ==> (#[trigger] out@[n].0 as nat, out@[n].1 as nat) == target_row(
                n as nat,
                t as nat,
            ),
{
    let context_range: usize = exp2(qubit_width - 1);
    let mut out: Vec<(usize, usize)> = Vec::with_capacity(context_range);
    let mut n: usize = 0;
    while n < context_range
        invariant
            t < qubit_width < usize::BITS,
            context_range == pow2((qubit_width - 1) as nat),
            n <= context_range,
            out@.len() == n,
            forall|j: int|
                0 <= j < n ==> (#[trigger] out@[j].0 as nat, out@[j].1 as nat) == target_row(
                    j as nat,
                    t as nat,
                ),
        decreases context_range - n,
    {
        let mut mask: usize = 1;
        let mut index_0: usize = 0;
        let mut index_1: usize = 0;
        let mut i: usize = 0;
        proof {
            lemma2_to64();
        }
        while i < qubit_width
            invariant
                t < qubit_width < usize::BITS,
                n < pow2((qubit_width - 1) as nat),
                i <= qubit_width,
                mask == pow2(
                    if i > t {
                        (i - 1) as nat
                    } else {
                        i as nat
                    },
                ),
                index_0 == target_prefix(n as nat, t as nat, i as nat),
                index_1 == index_0 + if i > t {
                    pow2(t as nat)
                } else {
                    0
                },
                index_1 < pow2(i as nat),
            decreases qubit_width - i,
        {
            proof {
                lemma_pow2_next(i as nat);
                lemma_usize_pow2_no_overflow(i as nat);
                if i + 1 < usize::BITS {
                    lemma_usize_pow2_no_overflow((i + 1) as nat);
                }
            }
            if i == t {
                index_1 += exp2(t);
                proof {
                    lemma_insert_zero_small((n as nat) % pow2(t as nat), t as nat);
                    lemma_pow2_pos(t as nat);
                    lemma_mod_bound(n as int, pow2(t as nat) as int);
                }
            } else {
                let ghost k: usize = if i > t {
                    (i - 1) as usize
                } else {
                    i
                };
                proof {
                    lemma_mask_selects_bit(n, mask, k);
                    lemma_target_prefix_next(n as nat, t as nat, i as nat);
                    lemma2_to64();
                    lemma_pow2_next(k as nat);
                    lemma_usize_pow2_no_overflow((k + 1) as nat);
                    lemma_usize_shl_is_mul(mask, 1usize);
                }
                let bit: usize = if (n & mask) != 0 {
                    1
                } else {
                    0
                };
                let weight: usize = exp2(i);
                proof {
                    assert(bit * weight <= weight) by (nonlinear_arith)
                        requires
                            bit <= 1,
                    ;
                }
                index_0 += bit * weight;
                index_1 += bit * weight;
                mask <<= 1;
            }
            i += 1;
        }
        proof {
            lemma_small_mod(n as nat, pow2((qubit_width - 1) as nat));
        }
        out.push((index_0, index_1));
        n += 1;
    }
    proof {
        let rows = target_rows(qubit_width as nat, t as nat);
        assert forall|m: int| 0 <= m < out@.len() implies out@[m] == rows[m] by {
            assert((out@[m].0 as nat, out@[m].1 as nat) == target_row(m as nat, t as nat));
        }
        assert(out@ =~= rows);
    }
    out
}

/// The pairs of indices that a controlled not with control `c` and target
/// `t` exchanges, in a register of `qubit_width` qubits:
/// `exchangeable_row(n, c, t)` for every `n` below `2^(qubit_width - 2)`, in
/// order.
pub fn find_exchangeable_rows(qubit_width: usize, c: usize, t: usize) -> (out: Vec<
    (usize, usize),
>)
    requires
        qubit_width < usize::BITS,
        c < qubit_width,
        t < qubit_width,
        c != t,
    ensures
        out@ == exchangeable_rows(qubit_width as nat, c as nat, t as nat),
        out@.len() == pow2((qubit_width - 2) as nat),
        forall|n: int|
            0 <= n < out@.len() ==> (#[trigger] out@[n].0 as nat, out@[n].1 as nat)
                == exchangeable_row(n as nat, c as nat, t as nat),
{
    let ghost low: nat = if c < t {
        c as nat
    } else {
        t as nat
    };
    let ghost high: nat = if c < t {
        t as nat
    } else {
        c as nat
    };
    let context_range: usize = exp2(qubit_width - 2);
    let mut out: Vec<(usize, usize)> = Vec::with_capacity(context_range);
    let mut n: usize = 0;
    while n < context_range
        invariant
            qubit_width < usize::BITS,
            c < qubit_width,
            t < qubit_width,
            c != t,
            low == if c < t {
                c as nat
            } else {
                t as nat
            },
            high == if c < t {
                t as nat
            } else {
                c as nat
            },
            context_range == pow2((qubit_width - 2) as nat),
            n <= context_range,
            out@.len() == n,
            forall|j: int|
                0 <= j < n ==> (#[trigger] out@[j].0 as nat, out@[j].1 as nat) == exchangeable_row(
                    j as nat,
                    c as nat,
                    t as nat,
                ),
        decreases context_range - n,
    {
        let mut mask: usize = 1;
        let mut index_10: usize = 0;
        let mut index_11: usize = 0;
        let mut i: usize = 0;
        proof {
            lemma2_to64();
        }
        while i < qubit_width
            invariant
                qubit_width < usize::BITS,
                c < qubit_width,
                t < qubit_width,
                low < high,
                (low == c && high == t) || (low == t && high == c),
                n < pow2((qubit_width - 2) as nat),
                i <= qubit_width,
                mask == pow2(
                    if i > high {
                        (i - 2) as nat
                    } else if i > low {
                        (i - 1) as nat
                    } else {
                        i as nat
                    },
                ),
                index_10 == exchangeable_prefix(n as nat, low, high, i as nat) + if i > c {
                    pow2(c as nat)
                } else {
                    0
                },
                index_11 == index_10 + if i > t {
                    pow2(t as nat)
                } else {
                    0
                },
                index_11 < pow2(i as nat),
            decreases qubit_width - i,
        {
            proof {
                lemma_pow2_next(i as nat);
                lemma_usize_pow2_no_overflow(i as nat);
                if i + 1 < usize::BITS {
                    lemma_usize_pow2_no_overflow((i + 1) as nat);
                }
                if i == low {
                    lemma_insert_zero_small((n as nat) % pow2(low), low);
                    lemma_pow2_pos(low);
                    lemma_mod_bound(n as int, pow2(low) as int);
                } else if i == high {
                    let rest = (n as nat) % pow2((high - 1) as nat);
                    lemma_pow2_pos((high - 1) as nat);
                    lemma_mod_bound(
                        n as int,
                        pow2((high - 1) as nat) as int,
                    );
                    assert((high - 1) as nat + 1 == high);
                    lemma_insert_bound(rest, low, (high - 1) as nat, 0);
                    lemma_insert_zero_small(insert_zero(rest, low), high);
                }
            }
            if i == t {
                index_11 += exp2(t);
            } else if i == c {
                index_10 += exp2(c);
                index_11 += exp2(c);
            } else {
                let ghost k: usize = if i > high {
                    (i - 2) as usize
                } else if i > low {
                    (i - 1) as usize
                } else {
                    i
                };
                proof {
                    lemma2_to64();
                    lemma_mask_selects_bit(n, mask, k);
                    lemma_exchangeable_prefix_next(n as nat, low, high, i as nat);
                    lemma_pow2_next(k as nat);
                    lemma_usize_pow2_no_overflow((k + 1) as nat);
                    lemma_usize_shl_is_mul(mask, 1usize);
                }
                let bit: usize = if (n & mask) != 0 {
                    1
                } else {
                    0
                };
                let weight: usize = exp2(i);
                proof {
                    assert(bit * weight <= weight) by (nonlinear_arith)
                        requires
                            bit <= 1,
                    ;
                }
                index_10 += bit * weight;
                index_11 += bit * weight;
                mask <<= 1;
            }
            i += 1;
        }
        proof {
            lemma_small_mod(n as nat, pow2((qubit_width - 2) as nat));
        }
        out.push((index_10, index_11));
        n += 1;
    }
    proof {
        let rows = exchangeable_rows(qubit_width as nat, c as nat, t as nat);
        assert forall|m: int| 0 <= m < out@.len() implies out@[m] == rows[m] by {
            assert((out@[m].0 as nat, out@[m].1 as nat) == exchangeable_row(
                m as nat,
                c as nat,
                t as nat,
            ));
        }
        assert(out@ =~= rows);
    }
    out
}

/// The number of the pair of `find_target_rows` that holds index `j`: the
/// bits of `j` without bit `t`.
pub open spec fn target_rank(j: nat, t: nat) -> nat {
    remove_bit(j, t)
}

/// The number of the pair of `find_exchangeable_rows` that holds index `j`,
/// where `j` has bit `c` set: the bits of `j` without bits `c` and `t`.
pub open spec fn exchangeable_rank(j: nat, c: nat, t: nat) -> nat {
    let low = if c < t {
        c
    } else {
        t
    };
    let high = if c < t {
        t
    } else {
        c
    };
    remove_bit(remove_bit(j, high), low)
}

/// The two indices of a target row lie in the register, differ in bit `t`
/// alone, and carry the row's number.
pub proof fn lemma_target_row(n: nat, t: nat, width: nat)
    requires
        t < width,
        n < pow2((width - 1) as nat),
    ensures
        target_row(n, t).0 < target_row(n, t).1 < pow2(width),
        bit(target_row(n, t).0, t) == 0,
        bit(target_row(n, t).1, t) == 1,
        target_rank(target_row(n, t).0, t) == n,
        target_rank(target_row(n, t).1, t) == n,
        flip_bit(target_row(n, t).0, t) == target_row(n, t).1,
        flip_bit(target_row(n, t).1, t) == target_row(n, t).0,
{
    lemma_pow2_pos(t);
    lemma_insert_then_remove(n, t, 0);
    lemma_insert_then_remove(n, t, 1);
    assert((width - 1) as nat + 1 == width);
    lemma_insert_bound(n, t, (width - 1) as nat, 1);
}

/// Every index of the register stands in the target row of its rank, first
/// if its bit `t` is clear and second if it is set.
pub proof fn lemma_target_row_of(j: nat, t: nat, width: nat)
    requires
        t < width,
        j < pow2(width),
    ensures
        target_rank(j, t) < pow2((width - 1) as nat),
        bit(j, t) == 0 ==> target_row(target_rank(j, t), t).0 == j,
        bit(j, t) != 0 ==> target_row(target_rank(j, t), t).1 == j,
{
    assert((width - 1) as nat + 1 == width);
    lemma_remove_bound(j, t, (width - 1) as nat);
    lemma_remove_then_insert(j, t);
}

/// A number into which two bits were put: what it holds at the two places,
/// and what is left without them.
proof fn lemma_two_bits(n: nat, low: nat, high: nat, b_low: nat, b_high: nat)
    requires
        low < high,
        b_low <= 1,
        b_high <= 1,
    ensures
        ({
            let x = insert_zero(insert_zero(n, low), high) + b_low * pow2(low) + b_high * pow2(
                high,
            );
            &&& bit(x, low) == b_low
            &&& bit(x, high) == b_high
            &&& remove_bit(x, high) == insert_zero(n, low) + b_low * pow2(low)
            &&& remove_bit(remove_bit(x, high), low) == n
            &&& x == insert_zero(insert_zero(n, low) + b_low * pow2(low), high) + b_high * pow2(
                high,
            )
        }),
{
    let inner = insert_zero(n, low);
    lemma_insert_then_remove(n, low, 0);
    lemma_insert_then_remove(n, low, b_low);
    let y = inner + b_low * pow2(low);
    if b_low == 1 {
        lemma_insert_zero_commutes(inner, low, high);
        assert(insert_zero(y, high) == insert_zero(inner, high) + pow2(low));
    } else {
        assert(b_low * pow2(low) == 0) by (nonlinear_arith)
            requires
                b_low == 0,
        ;
    }
    assert(insert_zero(y, high) == insert_zero(inner, high) + b_low * pow2(low));
    lemma_insert_then_remove(y, high, b_high);
    lemma_insert_keeps_low_bits(y, high, b_high, low);
}

/// The two indices of an exchangeable row lie in the register, have bit `c`
/// set, differ in bit `t` alone, and carry the row's number.
pub proof fn lemma_exchangeable_row(n: nat, c: nat, t: nat, width: nat)
    requires
        c != t,
        c < width,
        t < width,
        n < pow2((width - 2) as nat),
    ensures
        exchangeable_row(n, c, t).0 < exchangeable_row(n, c, t).1 < pow2(width),
        bit(exchangeable_row(n, c, t).0, c) == 1,
        bit(exchangeable_row(n, c, t).1, c) == 1,
        bit(exchangeable_row(n, c, t).0, t) == 0,
        bit(exchangeable_row(n, c, t).1, t) == 1,
        exchangeable_rank(exchangeable_row(n, c, t).0, c, t) == n,
        exchangeable_rank(exchangeable_row(n, c, t).1, c, t) == n,
        flip_bit(exchangeable_row(n, c, t).0, t) == exchangeable_row(n, c, t).1,
        flip_bit(exchangeable_row(n, c, t).1, t) == exchangeable_row(n, c, t).0,
{
    let low = if c < t {
        c
    } else {
        t
    };
    let high = if c < t {
        t
    } else {
        c
    };
    let b_low_0: nat = if c < t {
        1
    } else {
        0
    };
    let b_high_0: nat = if c < t {
        0
    } else {
        1
    };
    lemma_pow2_pos(c);
    lemma_pow2_pos(t);
    lemma_two_bits(n, low, high, b_low_0, b_high_0);
    lemma_two_bits(n, low, high, 1, 1);
    assert((width - 2) as nat + 1 == width - 1);
    assert((width - 1) as nat + 1 == width);
    lemma_insert_bound(n, low, (width - 2) as nat, 1);
    lemma_insert_bound(insert_zero(n, low) + 1 * pow2(low), high, (width - 1) as nat, 1);
    assert(0 * pow2(low) == 0);
    assert(0 * pow2(high) == 0);
    assert(1 * pow2(low) == pow2(low));
    assert(1 * pow2(high) == pow2(high));
}

/// Every index of the register that has bit `c` set stands in the
/// exchangeable row of its rank, first if its bit `t` is clear and second if
/// it is set.
pub proof fn lemma_exchangeable_row_of(j: nat, c: nat, t: nat, width: nat)
    requires
        c != t,
        c < width,
        t < width,
        j < pow2(width),
        bit(j, c) == 1,
    ensures
        exchangeable_rank(j, c, t) < pow2((width - 2) as nat),
        bit(j, t) == 0 ==> exchangeable_row(exchangeable_rank(j, c, t), c, t).0 == j,
        bit(j, t) != 0 ==> exchangeable_row(exchangeable_rank(j, c, t), c, t).1 == j,
{
    let low = if c < t {
        c
    } else {
        t
    };
    let high = if c < t {
        t
    } else {
        c
    };
    let y = remove_bit(j, high);
    let n = remove_bit(y, low);
    assert((width - 2) as nat + 1 == width - 1);
    assert((width - 1) as nat + 1 == width);
    lemma_remove_bound(j, high, (width - 1) as nat);
    lemma_remove_bound(y, low, (width - 2) as nat);
    lemma_remove_then_insert(j, high);
    lemma_remove_then_insert(y, low);
    lemma_insert_keeps_low_bits(y, high, bit(j, high), low);
    assert(bit(j, low) == bit(y, low));
    lemma_two_bits(n, low, high, bit(j, low), bit(j, high));
    assert(0 * pow2(t) == 0);
    assert(1 * pow2(t) == pow2(t));
    assert(1 * pow2(c) == pow2(c));
}

/// The entries of `target_rows` are the target rows, as they stand.
pub proof fn lemma_target_rows(width: nat, t: nat)
    requires
        t < width,
        pow2(width) <= usize::MAX,
    ensures
        target_rows(width, t).len() == pow2((width - 1) as nat),
        forall|n: int|
            0 <= n < target_rows(width, t).len() ==> (
            #[trigger] target_rows(width, t)[n].0 as nat,
            target_rows(width, t)[n].1 as nat,
            ) == target_row(n as nat, t),
{
    assert forall|n: int| 0 <= n < target_rows(width, t).len() implies (
    #[trigger] target_rows(width, t)[n].0 as nat,
    target_rows(width, t)[n].1 as nat,
    ) == target_row(n as nat, t) by {
        lemma_target_row(n as nat, t, width);
    }
}

/// The entries of `exchangeable_rows` are the exchangeable rows, as they
/// stand.
pub proof fn lemma_exchangeable_rows(width: nat, c: nat, t: nat)
    requires
        c != t,
        c < width,
        t < width,
        pow2(width) <= usize::MAX,
    ensures
        exchangeable_rows(width, c, t).len() == pow2((width - 2) as nat),
        forall|n: int|
            0 <= n < exchangeable_rows(width, c, t).len() ==> (
            #[trigger] exchangeable_rows(width, c, t)[n].0 as nat,
            exchangeable_rows(width, c, t)[n].1 as nat,
            ) == exchangeable_row(n as nat, c, t),
{
    assert forall|n: int| 0 <= n < exchangeable_rows(width, c, t).len() implies (
    #[trigger] exchangeable_rows(width, c, t)[n].0 as nat,
    exchangeable_rows(width, c, t)[n].1 as nat,
    ) == exchangeable_row(n as nat, c, t) by {
        lemma_exchangeable_row(n as nat, c, t, width);
    }
}

} // verus!
