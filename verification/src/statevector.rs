//! The state vector of a register of qubits.
use crate::bits::{
    bit, check_bit, exp2, flip_bit, lemma_flip_bit, lemma_flip_bound,
    lemma_flip_keeps_other_bits, lemma_pow2_fits, lemma_pow2_next, lemma_split_at,
};
use crate::cache::{spec_build_u_key, BuildUKey, MatrixCache, RowCache};
use crate::complex::{Complex, UMatrix, ONE_BITS, ZERO_BITS};
use crate::ieee::{ge, spec_ge, spec_in_unit_interval, spec_lt};
use crate::rows::{
    exchangeable_rank, exchangeable_row, lemma_exchangeable_row, lemma_exchangeable_row_of,
    lemma_exchangeable_rows, lemma_target_row, lemma_target_row_of, lemma_target_rows,
    target_rank, target_row,
};
use vstd::arithmetic::power2::{lemma_pow2_pos, lemma_pow2_strictly_increases, pow2};
use vstd::prelude::*;

verus! {

/// Whether `width` is the number of qubits that `len` amplitudes stand for:
/// the greatest `width` with `2^width <= len`, and 0 where there is no
/// amplitude at all.
pub open spec fn is_width_of(width: nat, len: nat) -> bool {
    if len == 0 {
        width == 0
    } else {
        pow2(width) <= len < pow2(width + 1)
    }
}

/// The state in which all the amplitude is on the index 0.
pub open spec fn ground_state(len: nat) -> Seq<Complex> {
    Seq::new(
        len,
        |j: int|
            if j == 0 {
                Complex::one()
            } else {
                Complex::zero()
            },
    )
}

/// The index whose amplitude a controlled not moves to index `j`: `j` with
/// bit `t` turned over where `j` lies in the register and has bit `c` set,
/// and `j` itself elsewhere.
pub open spec fn cnot_source(j: nat, width: nat, c: nat, t: nat) -> nat {
    if j < pow2(width) && bit(j, c) == 1 {
        flip_bit(j, t)
    } else {
        j
    }
}

/// The amplitudes after a controlled not with control `c` and target `t`
/// on a register of `width` qubits.
pub open spec fn cnot_amplitudes<A>(amplitudes: Seq<A>, width: nat, c: nat, t: nat) -> Seq<A> {
    Seq::new(amplitudes.len(), |j: int| amplitudes[cnot_source(j as nat, width, c, t) as int])
}

/// Whether `after` is what a rotation of qubit `target` by `matrix` leaves
/// of `before`, in a register of `width` qubits: the two amplitudes of
/// every pair of indices that differ in bit `target` alone are what
/// `rotate` makes of the two that stood there, and what lies beyond the
/// register is as it was.
pub open spec fn rotated<R: Fn(UMatrix, Complex, Complex) -> (Complex, Complex)>(
    rotate: R,
    matrix: UMatrix,
    before: Seq<Complex>,
    width: nat,
    target: nat,
    after: Seq<Complex>,
) -> bool {
    &&& after.len() == before.len()
    &&& forall|n: nat|
        n < pow2((width - 1) as nat) ==> call_ensures(
            rotate,
            (
                matrix,
                before[(#[trigger] target_row(n, target)).0 as int],
                before[target_row(n, target).1 as int],
            ),
            (after[target_row(n, target).0 as int], after[target_row(n, target).1 as int]),
        )
    &&& forall|j: int| pow2(width) <= j < before.len() ==> after[j] == before[j]
}

/// Whether `chances` are what `norm_sqr` makes of the amplitudes, index by
/// index.
pub open spec fn chances_of<N: Fn(Complex) -> u64>(
    norm_sqr: N,
    amplitudes: Seq<Complex>,
    chances: Seq<u64>,
) -> bool {
    &&& chances.len() == amplitudes.len()
    &&& forall|j: int|
        0 <= j < amplitudes.len() ==> call_ensures(
            norm_sqr,
            (amplitudes[j],),
            #[trigger] chances[j],
        )
}

/// Whether `sums` are the sums that come about when `step` takes in the
/// chances index by index, starting from zero, each with the word whether
/// bit `qubit` of its index is set: `sums[j]` is the sum before index `j`,
/// and the last of them is the sum of all.
pub open spec fn signed_sums<S: Fn(u64, u64, bool) -> u64>(
    step: S,
    chances: Seq<u64>,
    qubit: nat,
    sums: Seq<u64>,
) -> bool {
    &&& sums.len() == chances.len() + 1
    &&& sums[0] == ZERO_BITS
    &&& forall|j: int|
        0 <= j < chances.len() ==> call_ensures(
            step,
            (sums[j], #[trigger] chances[j], bit(j as nat, qubit) == 1),
            sums[j + 1],
        )
}

/// Whether `value` is the expectation value of qubit `qubit`: what `clamp`
/// makes of the last of `sums`, the sums that `step` makes of the chances.
pub open spec fn expectation_of<S: Fn(u64, u64, bool) -> u64, C: Fn(u64) -> u64>(
    step: S,
    clamp: C,
    chances: Seq<u64>,
    qubit: nat,
    sums: Seq<u64>,
    value: u64,
) -> bool {
    signed_sums(step, chances, qubit, sums) && call_ensures(clamp, (sums.last(),), value)
}

/// Whether `sums` are the sums that come about when `add_norm` takes in,
/// index by index and starting from zero, the amplitudes whose bit `target`
/// is clear: `sums[j]` is the sum before index `j`, and the last of them is
/// the sum of all.
pub open spec fn sums_of_zero_branch<A: Fn(u64, Complex) -> u64>(
    add_norm: A,
    amplitudes: Seq<Complex>,
    target: nat,
    sums: Seq<u64>,
) -> bool {
    &&& sums.len() == amplitudes.len() + 1
    &&& sums[0] == ZERO_BITS
    &&& forall|j: int|
        0 <= j < amplitudes.len() ==> if bit(j as nat, target) == 0 {
            call_ensures(add_norm, (sums[j], #[trigger] amplitudes[j]), sums[j + 1])
        } else {
            sums[j + 1] == sums[j]
        }
}

/// Whether `after` is what a measurement with the given outcome leaves of
/// `before`: every amplitude whose bit `target` agrees with the outcome is
/// rescaled, and every other is zero.
pub open spec fn collapsed<R: Fn(u64, bool, Complex) -> Complex>(
    rescale: R,
    before: Seq<Complex>,
    target: nat,
    chance: u64,
    outcome: bool,
    after: Seq<Complex>,
) -> bool {
    &&& after.len() == before.len()
    &&& forall|j: int|
        0 <= j < before.len() ==> if (bit(j as nat, target) == 1) == outcome {
            call_ensures(rescale, (chance, outcome, before[j]), #[trigger] after[j])
        } else {
            after[j] == Complex::zero()
        }
}

/// Whether `approx_ne` finds neither the real parts nor the imaginary parts
/// of the two amplitudes apart.
pub open spec fn near<N: Fn(u64, u64) -> bool>(approx_ne: N, left: Complex, right: Complex)
    -> bool {
    call_ensures(approx_ne, (left.re, right.re), false) && call_ensures(
        approx_ne,
        (left.im, right.im),
        false,
    )
}

/// Whether `approx_ne` finds the real parts or the imaginary parts of the
/// two amplitudes apart.
pub open spec fn apart<N: Fn(u64, u64) -> bool>(approx_ne: N, left: Complex, right: Complex)
    -> bool {
    call_ensures(approx_ne, (left.re, right.re), true) || call_ensures(
        approx_ne,
        (left.im, right.im),
        true,
    )
}

/// The state in which all the amplitude is on the index `k`.
pub open spec fn basis_state(len: nat, k: nat) -> Seq<Complex> {
    Seq::new(
        len,
        |j: int|
            if j == k {
                Complex::one()
            } else {
                Complex::zero()
            },
    )
}

/// The source of index `j` once the first `n` exchangeable rows have been
/// exchanged.
spec fn cnot_source_so_far(j: nat, width: nat, c: nat, t: nat, n: nat) -> nat {
    if j < pow2(width) && bit(j, c) == 1 && exchangeable_rank(j, c, t) < n {
        flip_bit(j, t)
    } else {
        j
    }
}

/// The state vector of a quantum register: one amplitude for each basis
/// index. It keeps the pairings of the gates that were applied to it, for
/// the next time that they are applied.
#[derive(Debug)]
pub struct StateVector {
    bases: Vec<Complex>,
    qubit_width: usize,
    rows: RowCache,
}

impl View for StateVector {
    type V = Seq<Complex>;

    /// The amplitudes, by basis index.
    closed spec fn view(&self) -> Seq<Complex> {
        self.bases@
    }
}

impl Clone for StateVector {
    /// A state vector with the same amplitudes.
    fn clone(&self) -> (r: Self)
        ensures
            r@ == self@,
            r.width() == self.width(),
    {
        proof {
            use_type_invariant(self);
        }
        let bases: Vec<Complex> = self.bases.clone();
        assert(bases@ =~= self.bases@);
        StateVector { bases, qubit_width: self.qubit_width, rows: RowCache::new() }
    }
}

impl PartialEq for StateVector {
    /// Whether the two state vectors hold the same amplitudes.
    fn eq(&self, other: &Self) -> (r: bool) {
        if self.qubit_width != other.qubit_width || self.bases.len() != other.bases.len() {
            return false;
        }
        let mut index: usize = 0;
        while index < self.bases.len()
            invariant
                index <= self.bases@.len(),
                self.bases@.len() == other.bases@.len(),
                forall|j: int| 0 <= j < index ==> self.bases@[j] == other.bases@[j],
            decreases self.bases@.len() - index,
        {
            if self.bases[index] != other.bases[index] {
                return false;
            }
            index += 1;
        }
        assert(self.bases@ =~= other.bases@);
        true
    }
}

impl vstd::std_specs::cmp::PartialEqSpecImpl for StateVector {
    open spec fn obeys_eq_spec() -> bool {
        true
    }

    open spec fn eq_spec(&self, other: &Self) -> bool {
        self@ == other@ && self.width() == other.width()
    }
}

impl StateVector {
    /// The number of qubits of the register.
    pub closed spec fn width(&self) -> nat {
        self.qubit_width as nat
    }

    /// The width is the one that belongs to the number of amplitudes.
    #[verifier::type_invariant]
    closed spec fn well_formed(&self) -> bool {
        is_width_of(self.qubit_width as nat, self.bases@.len())
    }

    /// Create a state vector of `2^qubit_width` amplitudes, in the ground
    /// state.
    pub fn new(qubit_width: usize) -> (r: Self)
        requires
            qubit_width < usize::BITS,
        ensures
            r.width() == qubit_width,
            r@ == ground_state(pow2(qubit_width as nat)),
    {
        let len: usize = exp2(qubit_width);
        let mut bases: Vec<Complex> = Vec::with_capacity(len);
        let mut j: usize = 0;
        while j < len
            invariant
                j <= len,
                bases@.len() == j,
                forall|k: int| 0 <= k < j ==> bases@[k] == Complex::zero(),
            decreases len - j,
        {
            bases.push(Complex::zero());
            j += 1;
        }
        proof {
            lemma_pow2_pos(qubit_width as nat);
            lemma_pow2_strictly_increases(qubit_width as nat, (qubit_width + 1) as nat);
        }
        let mut statevector = StateVector { bases, qubit_width, rows: RowCache::new() };
        statevector.reset();
        statevector
    }

    /// Return the amplitudes, by basis index.
    pub fn as_complex_bases(&self) -> (r: &[Complex])
        ensures
            r@ == self@,
    {
        self.bases.as_slice()
    }

    /// Return the number of qubits of the register.
    pub fn qubit_width(&self) -> (r: usize)
        ensures
            r == self.width(),
            is_width_of(self.width(), self@.len()),
    {
        proof {
            use_type_invariant(self);
        }
        self.qubit_width
    }

    /// Create a state vector from amplitudes. Neither that their number is a
    /// power of two nor that they have norm 1 is checked; the width is the
    /// greatest whose register the amplitudes fill.
    pub fn from_complex_bases(bases: Vec<Complex>) -> (r: Self)
        ensures
            r@ == bases@,
            is_width_of(r.width(), bases@.len()),
    {
        let len: usize = bases.len();
        let mut qubit_width: usize = 0;
        let mut reach: usize = 1;
        proof {
            vstd::arithmetic::power2::lemma2_to64();
        }
        while len > 0 && reach <= len / 2
            invariant
                len == bases@.len(),
                len > 0 ==> reach <= len,
                len == 0 ==> qubit_width == 0,
                reach == pow2(qubit_width as nat),
                qubit_width < usize::BITS,
            decreases len - reach,
        {
            proof {
                lemma_pow2_next(qubit_width as nat);
                lemma_pow2_fits((qubit_width + 1) as nat);
            }
            reach = reach * 2;
            qubit_width += 1;
        }
        proof {
            lemma_pow2_next(qubit_width as nat);
        }
        StateVector { bases, qubit_width, rows: RowCache::new() }
    }

    /// Get the number of amplitudes.
    pub fn len(&self) -> (r: usize)
        ensures
            r == self@.len(),
    {
        self.bases.len()
    }

    /// Check whether there is no amplitude at all.
    pub fn is_empty(&self) -> (r: bool)
        ensures
            r == (self@.len() == 0),
    {
        self.bases.len() == 0
    }

    /// Reset the state vector to the ground state.
    pub fn reset(&mut self)
        requires
            old(self)@.len() > 0,
        ensures
            final(self).width() == old(self).width(),
            final(self)@ == ground_state(old(self)@.len()),
    {
        proof {
            use_type_invariant(&*self);
        }
        let len: usize = self.bases.len();
        let mut j: usize = 0;
        while j < len
            invariant
                j <= len,
                self.bases@.len() == len,
                self.qubit_width == old(self).qubit_width,
                is_width_of(self.qubit_width as nat, len as nat),
                forall|k: int| 0 <= k < j ==> self.bases@[k] == Complex::zero(),
            decreases len - j,
        {
            self.bases[j] = Complex::zero();
            j += 1;
        }
        self.bases[0] = Complex::one();
        assert(self.bases@ =~= ground_state(len as nat));
    }

    /// Apply a controlled not: exchange the two amplitudes of every pair of
    /// indices that have bit `control` set and differ in bit `target` alone.
    pub fn cnot(&mut self, control: usize, target: usize)
        requires
            control != target,
            control < old(self).width(),
            target < old(self).width(),
        ensures
            final(self).width() == old(self).width(),
            final(self)@ == cnot_amplitudes(
                old(self)@,
                old(self).width(),
                control as nat,
                target as nat,
            ),
            final(self)@.to_multiset() == old(self)@.to_multiset(),
    {
        let len: usize = self.bases.len();
        proof {
            use_type_invariant(&*self);
            assert(pow2(self.qubit_width as nat) <= len);
            lemma_pow2_fits(self.qubit_width as nat);
        }
        let ghost before = self.bases@;
        let ghost width = self.qubit_width as nat;
        let ghost c = control as nat;
        let ghost t = target as nat;
        let mut rows = RowCache::new();
        std::mem::swap(&mut rows, &mut self.rows);
        let exchangeable_rows = rows.find_exchangeable_rows(self.qubit_width, control, target);
        self.rows = rows;
        proof {
            lemma_exchangeable_rows(width, c, t);
        }
        let count: usize = exchangeable_rows.len();
        let mut n: usize = 0;
        while n < count
            invariant
                c != t,
                c < width,
                t < width,
                n <= count,
                count == exchangeable_rows@.len(),
                count == pow2((width - 2) as nat),
                forall|m: int|
                    0 <= m < count ==> (
                    #[trigger] exchangeable_rows@[m].0 as nat,
                    exchangeable_rows@[m].1 as nat,
                    ) == exchangeable_row(m as nat, c, t),
                self.qubit_width == width,
                self.bases@.len() == before.len(),
                is_width_of(width, before.len()),
                self.bases@.to_multiset() == before.to_multiset(),
                forall|j: int|
                    0 <= j < before.len() ==> #[trigger] self.bases@[j] == before[cnot_source_so_far(
                        j as nat,
                        width,
                        c,
                        t,
                        n as nat,
                    ) as int],
            decreases count - n,
        {
            let index_a: usize = exchangeable_rows[n].0;
            let index_b: usize = exchangeable_rows[n].1;
            let ghost current = self.bases@;
            proof {
                lemma_exchangeable_row(n as nat, c, t, width);
                assert((exchangeable_rows@[n as int].0 as nat, exchangeable_rows@[n as int].1 as nat)
                    == exchangeable_row(n as nat, c, t));
            }
            let amplitude_a: Complex = self.bases[index_a];
            let amplitude_b: Complex = self.bases[index_b];
            self.bases[index_a] = amplitude_b;
            self.bases[index_b] = amplitude_a;
            proof {
                let half = current.update(index_a as int, amplitude_b);
                vstd::seq_lib::to_multiset_update(current, index_a as int, amplitude_b);
                vstd::seq_lib::to_multiset_update(half, index_b as int, amplitude_a);
                assert(self.bases@ == half.update(index_b as int, amplitude_a));
                assert(self.bases@.to_multiset() =~= current.to_multiset()) by {
                    broadcast use vstd::multiset::group_multiset_properties;
                    broadcast use vstd::multiset::group_multiset_axioms;
                    broadcast use vstd::seq_lib::to_multiset_contains;

                    assert(current.contains(amplitude_a));
                    assert(current.contains(amplitude_b));
                }
                assert forall|j: int| 0 <= j < before.len() implies #[trigger] self.bases@[j]
                    == before[cnot_source_so_far(j as nat, width, c, t, (n + 1) as nat) as int] by {
                    if j != index_a && j != index_b {
                        assert(self.bases@[j] == current[j]);
                        if j < pow2(width) && bit(j as nat, c) == 1 {
                            lemma_exchangeable_row_of(j as nat, c, t, width);
                        }
                    } else {
                        assert(current[index_a as int] == before[index_a as int]);
                        assert(current[index_b as int] == before[index_b as int]);
                    }
                }
            }
            n += 1;
        }
        proof {
            assert forall|j: int| 0 <= j < before.len() implies #[trigger] self.bases@[j]
                == before[cnot_source(j as nat, width, c, t) as int] by {
                if j < pow2(width) && bit(j as nat, c) == 1 {
                    lemma_exchangeable_row_of(j as nat, c, t, width);
                }
            }
            assert(self.bases@ =~= cnot_amplitudes(before, width, c, t));
        }
    }

    /// The chance of finding qubit `target` clear: the sum that `add_norm`
    /// makes of zero and the amplitudes whose bit `target` is clear, taken
    /// in by rising index.
    fn chance_of_zero<A: Fn(u64, Complex) -> u64>(&self, target: usize, add_norm: A) -> (chance:
        u64)
        requires
            target < self.width(),
            forall|sum: u64, amplitude: Complex| call_requires(add_norm, (sum, amplitude)),
        ensures
            exists|sums: Seq<u64>|
                sums_of_zero_branch(add_norm, self@, target as nat, sums) && chance
                    == sums.last(),
    {
        let len: usize = self.bases.len();
        proof {
            use_type_invariant(self);
            assert(pow2(self.qubit_width as nat) <= len);
            lemma_pow2_fits(self.qubit_width as nat);
        }
        let mut chance: u64 = ZERO_BITS;
        let ghost mut sums: Seq<u64> = seq![ZERO_BITS];
        let mut index: usize = 0;
        while index < len
            invariant
                index <= len,
                len == self.bases@.len(),
                target < usize::BITS,
                forall|sum: u64, amplitude: Complex| call_requires(add_norm, (sum, amplitude)),
                sums.len() == index + 1,
                sums[0] == ZERO_BITS,
                sums.last() == chance,
                forall|j: int|
                    0 <= j < index ==> if bit(j as nat, target as nat) == 0 {
                        call_ensures(add_norm, (sums[j], #[trigger] self.bases@[j]), sums[j + 1])
                    } else {
                        sums[j + 1] == sums[j]
                    },
            decreases len - index,
        {
            let ghost so_far = sums;
            if check_bit(index, target) == 0 {
                chance = add_norm(chance, self.bases[index]);
            }
            proof {
                sums = so_far.push(chance);
                assert forall|j: int| 0 <= j < index + 1 implies if bit(j as nat, target as nat)
                    == 0 {
                    call_ensures(add_norm, (sums[j], #[trigger] self.bases@[j]), sums[j + 1])
                } else {
                    sums[j + 1] == sums[j]
                } by {
                    if j < index {
                        assert(sums[j] == so_far[j]);
                        assert(sums[j + 1] == so_far[j + 1]);
                    }
                }
            }
            index += 1;
        }
        proof {
            assert(sums_of_zero_branch(add_norm, self@, target as nat, sums));
        }
        chance
    }

    /// Leave of the state what agrees with the outcome of a measurement of
    /// qubit `target`: every amplitude whose bit `target` agrees with
    /// `outcome` becomes what `rescale` makes of it, given the chance of
    /// finding the qubit clear, and every other amplitude becomes zero.
    fn project<R: Fn(u64, bool, Complex) -> Complex>(
        &mut self,
        target: usize,
        chance: u64,
        outcome: bool,
        rescale: R,
    )
        requires
            target < old(self).width(),
            forall|amplitude: Complex| call_requires(rescale, (chance, outcome, amplitude)),
        ensures
            final(self).width() == old(self).width(),
            collapsed(rescale, old(self)@, target as nat, chance, outcome, final(self)@),
    {
        let len: usize = self.bases.len();
        proof {
            use_type_invariant(&*self);
            assert(pow2(self.qubit_width as nat) <= len);
            lemma_pow2_fits(self.qubit_width as nat);
        }
        let ghost before = self.bases@;
        let mut index: usize = 0;
        while index < len
            invariant
                index <= len,
                len == before.len(),
                self.bases@.len() == len,
                self.qubit_width == old(self).qubit_width,
                is_width_of(self.qubit_width as nat, len as nat),
                target < usize::BITS,
                forall|amplitude: Complex| call_requires(rescale, (chance, outcome, amplitude)),
                forall|j: int| index <= j < len ==> self.bases@[j] == before[j],
                forall|j: int|
                    0 <= j < index ==> if (bit(j as nat, target as nat) == 1) == outcome {
                        call_ensures(rescale, (chance, outcome, before[j]), #[trigger] self.bases@[j])
                    } else {
                        self.bases@[j] == Complex::zero()
                    },
            decreases len - index,
        {
            if (check_bit(index, target) == 1) == outcome {
                let rescaled: Complex = rescale(chance, outcome, self.bases[index]);
                self.bases[index] = rescaled;
            } else {
                self.bases[index] = Complex::zero();
            }
            index += 1;
        }
    }

    /// Measure qubit `target`: look at the state, and collapse it. The
    /// sample `fate`, a number from 0 up to 1, decides the outcome: the
    /// qubit is found set exactly if `fate` is at least the chance of
    /// finding it clear.
    pub fn measure<A: Fn(u64, Complex) -> u64, R: Fn(u64, bool, Complex) -> Complex>(
        &mut self,
        target: usize,
        fate: u64,
        add_norm: A,
        rescale: R,
    ) -> (outcome: bool)
        requires
            target < old(self).width(),
            spec_in_unit_interval(fate),
            forall|sum: u64, amplitude: Complex| call_requires(add_norm, (sum, amplitude)),
            forall|chance: u64, outcome: bool, amplitude: Complex|
                call_requires(rescale, (chance, outcome, amplitude)),
        ensures
            final(self).width() == old(self).width(),
            exists|sums: Seq<u64>|
                sums_of_zero_branch(add_norm, old(self)@, target as nat, sums) && outcome
                    == spec_ge(fate, sums.last()) && collapsed(
                    rescale,
                    old(self)@,
                    target as nat,
                    sums.last(),
                    outcome,
                    final(self)@,
                ),
    {
        let measurement = Measurement::new(&*self, target, add_norm);
        measurement.collapse(self, fate, rescale)
    }

    /// Apply a rotation to qubit `target`. The rotation is given by its
    /// three angles; `build` makes its matrix of them, unless `matrices`
    /// holds it already, and `rotate` applies the matrix to the two
    /// amplitudes of a pair of indices that differ in bit `target` alone.
    /// Every such pair of the register is rotated once. Afterwards
    /// `matrices` holds the matrix that was applied, under the key of the
    /// angles.
    pub fn u<
        B: Fn(u64, u64, u64) -> UMatrix,
        R: Fn(UMatrix, Complex, Complex) -> (Complex, Complex),
    >(
        &mut self,
        theta: u64,
        phi: u64,
        lambda: u64,
        target: usize,
        matrices: &mut MatrixCache,
        build: B,
        rotate: R,
    )
        requires
            target < old(self).width(),
            old(matrices).built_by(build),
            call_requires(build, (theta, phi, lambda)),
            forall|matrix: UMatrix, first: Complex, second: Complex|
                call_requires(rotate, (matrix, first, second)),
        ensures
            final(self).width() == old(self).width(),
            final(matrices).built_by(build),
            final(matrices).limit() == old(matrices).limit(),
            old(matrices).bounded() ==> final(matrices).bounded(),
            final(matrices).entries().contains_key(spec_build_u_key(theta, phi, lambda)),
            old(matrices).entries().contains_key(spec_build_u_key(theta, phi, lambda)) ==> final(matrices).entries() == old(matrices).entries(),
            forall|other: BuildUKey|
                other != spec_build_u_key(theta, phi, lambda) && #[trigger] final(matrices).entries().contains_key(other) ==> old(matrices).entries().contains_key(other)
                    && final(matrices).entries()[other] == old(matrices).entries()[other],
            call_ensures(
                build,
                (theta, phi, lambda),
                final(matrices).entries()[spec_build_u_key(theta, phi, lambda)],
            ),
            rotated(
                rotate,
                final(matrices).entries()[spec_build_u_key(theta, phi, lambda)],
                old(self)@,
                old(self).width(),
                target as nat,
                final(self)@,
            ),
    {
        let len: usize = self.bases.len();
        proof {
            use_type_invariant(&*self);
            assert(pow2(self.qubit_width as nat) <= len);
            lemma_pow2_fits(self.qubit_width as nat);
        }
        let ghost before = self.bases@;
        let ghost width = self.qubit_width as nat;
        let ghost t = target as nat;
        let mut rows = RowCache::new();
        std::mem::swap(&mut rows, &mut self.rows);
        let target_rows = rows.find_target_rows(self.qubit_width, target);
        self.rows = rows;
        proof {
            lemma_target_rows(width, t);
        }
        let u_matrix: UMatrix = matrices.build_u(theta, phi, lambda, build);
        let count: usize = target_rows.len();
        let mut n: usize = 0;
        while n < count
            invariant
                t < width,
                n <= count,
                count == target_rows@.len(),
                count == pow2((width - 1) as nat),
                forall|m: int|
                    0 <= m < count ==> (
                    #[trigger] target_rows@[m].0 as nat,
                    target_rows@[m].1 as nat,
                    ) == target_row(m as nat, t),
                forall|matrix: UMatrix, first: Complex, second: Complex|
                    call_requires(rotate, (matrix, first, second)),
                self.qubit_width == width,
                self.bases@.len() == before.len(),
                is_width_of(width, before.len()),
                forall|j: int|
                    0 <= j < before.len() && (j >= pow2(width) || target_rank(j as nat, t) >= n)
                        ==> #[trigger] self.bases@[j] == before[j],
                forall|m: nat|
                    m < n ==> call_ensures(
                        rotate,
                        (
                            u_matrix,
                            before[(#[trigger] target_row(m, t)).0 as int],
                            before[target_row(m, t).1 as int],
                        ),
                        (
                            self.bases@[target_row(m, t).0 as int],
                            self.bases@[target_row(m, t).1 as int],
                        ),
                    ),
            decreases count - n,
        {
            let index_0: usize = target_rows[n].0;
            let index_1: usize = target_rows[n].1;
            let ghost current = self.bases@;
            proof {
                lemma_target_row(n as nat, t, width);
                assert((target_rows@[n as int].0 as nat, target_rows@[n as int].1 as nat)
                    == target_row(n as nat, t));
                assert(current[index_0 as int] == before[index_0 as int]);
                assert(current[index_1 as int] == before[index_1 as int]);
            }
            let selected: (Complex, Complex) = (self.bases[index_0], self.bases[index_1]);
            let turned: (Complex, Complex) = rotate(u_matrix, selected.0, selected.1);
            self.bases[index_0] = turned.0;
            self.bases[index_1] = turned.1;
            proof {
                assert forall|m: nat| m < n + 1 implies call_ensures(
                    rotate,
                    (
                        u_matrix,
                        before[(#[trigger] target_row(m, t)).0 as int],
                        before[target_row(m, t).1 as int],
                    ),
                    (
                        self.bases@[target_row(m, t).0 as int],
                        self.bases@[target_row(m, t).1 as int],
                    ),
                ) by {
                    if m < n {
                        lemma_target_row(m, t, width);
                        assert(self.bases@[target_row(m, t).0 as int] == current[target_row(
                            m,
                            t,
                        ).0 as int]);
                        assert(self.bases@[target_row(m, t).1 as int] == current[target_row(
                            m,
                            t,
                        ).1 as int]);
                    }
                }
            }
            n += 1;
        }
        proof {
            assert(call_ensures(build, (theta, phi, lambda), u_matrix));
            assert(rotated(
                rotate,
                u_matrix,
                old(self)@,
                old(self).width(),
                target as nat,
                self@,
            ));
        }
    }

    /// Return what `norm_sqr` makes of each amplitude, by basis index: the
    /// probabilities of the basis states.
    pub fn probabilities<N: Fn(Complex) -> u64>(&self, norm_sqr: N) -> (r: Vec<u64>)
        requires
            forall|amplitude: Complex| call_requires(norm_sqr, (amplitude,)),
        ensures
            chances_of(norm_sqr, self@, r@),
    {
        let len: usize = self.bases.len();
        let mut chances: Vec<u64> = Vec::with_capacity(len);
        let mut index: usize = 0;
        while index < len
            invariant
                index <= len,
                len == self.bases@.len(),
                chances@.len() == index,
                forall|amplitude: Complex| call_requires(norm_sqr, (amplitude,)),
                forall|j: int|
                    0 <= j < index ==> call_ensures(
                        norm_sqr,
                        (self.bases@[j],),
                        #[trigger] chances@[j],
                    ),
            decreases len - index,
        {
            chances.push(norm_sqr(self.bases[index]));
            index += 1;
        }
        chances
    }

    /// Return the expectation value of each qubit. For qubit `q`, `step`
    /// takes in the probability of every basis index, with the word whether
    /// the index has bit `q` set, and `clamp` brings the sum into range.
    #[verifier::loop_isolation(false)]
    pub fn expectation_values<
        N: Fn(Complex) -> u64,
        S: Fn(u64, u64, bool) -> u64,
        C: Fn(u64) -> u64,
    >(&self, norm_sqr: N, step: S, clamp: C) -> (r: Vec<u64>)
        requires
            forall|amplitude: Complex| call_requires(norm_sqr, (amplitude,)),
            forall|sum: u64, chance: u64, set: bool| call_requires(step, (sum, chance, set)),
            forall|sum: u64| call_requires(clamp, (sum,)),
        ensures
            r@.len() == self.width(),
            exists|chances: Seq<u64>, sums: Seq<Seq<u64>>|
                chances_of(norm_sqr, self@, chances) && sums.len() == self.width() && forall|
                    q: int,
                |
                    0 <= q < self.width() ==> #[trigger] expectation_of(
                        step,
                        clamp,
                        chances,
                        q as nat,
                        sums[q],
                        r@[q],
                    ),
    {
        let probabilities: Vec<u64> = self.probabilities(norm_sqr);
        let len: usize = probabilities.len();
        proof {
            use_type_invariant(self);
            if self.qubit_width > 0 {
                assert(pow2(self.qubit_width as nat) <= len);
                lemma_pow2_fits(self.qubit_width as nat);
            }
        }
        let mut expectation_values: Vec<u64> = Vec::with_capacity(self.qubit_width);
        let ghost mut all_sums: Seq<Seq<u64>> = Seq::empty();
        let mut qubit: usize = 0;
        while qubit < self.qubit_width
            invariant
                qubit <= self.qubit_width,
                self.qubit_width < usize::BITS,
                len == probabilities@.len(),
                forall|sum: u64, chance: u64, set: bool| call_requires(step, (sum, chance, set)),
                forall|sum: u64| call_requires(clamp, (sum,)),
                expectation_values@.len() == qubit,
                all_sums.len() == qubit,
                forall|q: int|
                    0 <= q < qubit ==> #[trigger] expectation_of(
                        step,
                        clamp,
                        probabilities@,
                        q as nat,
                        all_sums[q],
                        expectation_values@[q],
                    ),
            decreases self.qubit_width - qubit,
        {
            let mut sum: u64 = ZERO_BITS;
            let ghost mut sums: Seq<u64> = seq![ZERO_BITS];
            let mut index: usize = 0;
            while index < len
                invariant
                    index <= len,
                    qubit < usize::BITS,
                    len == probabilities@.len(),
                    forall|sum: u64, chance: u64, set: bool|
                        call_requires(step, (sum, chance, set)),
                    sums.len() == index + 1,
                    sums[0] == ZERO_BITS,
                    sums.last() == sum,
                    forall|j: int|
                        0 <= j < index ==> call_ensures(
                            step,
                            (sums[j], #[trigger] probabilities@[j], bit(j as nat, qubit as nat) == 1),
                            sums[j + 1],
                        ),
                decreases len - index,
            {
                let ghost so_far = sums;
                let set: bool = check_bit(index, qubit) != 0;
                proof {
                    lemma_split_at(index as nat, qubit as nat);
                }
                sum = step(sum, probabilities[index], set);
                proof {
                    sums = so_far.push(sum);
                    assert forall|j: int| 0 <= j < index + 1 implies call_ensures(
                        step,
                        (sums[j], #[trigger] probabilities@[j], bit(j as nat, qubit as nat) == 1),
                        sums[j + 1],
                    ) by {
                        if j < index {
                            assert(sums[j] == so_far[j]);
                            assert(sums[j + 1] == so_far[j + 1]);
                        }
                    }
                }
                index += 1;
            }
            let ghost previous = all_sums;
            let ghost values_so_far = expectation_values@;
            let clamped: u64 = clamp(sum);
            expectation_values.push(clamped);
            proof {
                all_sums = previous.push(sums);
                assert forall|q: int| 0 <= q < qubit + 1 implies #[trigger] expectation_of(
                    step,
                    clamp,
                    probabilities@,
                    q as nat,
                    all_sums[q],
                    expectation_values@[q],
                ) by {
                    if q < qubit {
                        assert(all_sums[q] == previous[q]);
                        assert(expectation_values@[q] == values_so_far[q]);
                        assert(expectation_of(
                            step,
                            clamp,
                            probabilities@,
                            q as nat,
                            previous[q],
                            values_so_far[q],
                        ));
                    }
                }
            }
            qubit += 1;
        }
        proof {
            assert(chances_of(norm_sqr, self@, probabilities@));
        }
        expectation_values
    }

    /// Whether the two state vectors are nearly the same: `true` unless
    /// `approx_ne` finds, at an index that both have, the real parts or the
    /// imaginary parts of the two amplitudes apart.
    pub fn approx_eq<N: Fn(u64, u64) -> bool>(&self, other: &StateVector, approx_ne: N) -> (r:
        bool)
        requires
            forall|left: u64, right: u64| call_requires(approx_ne, (left, right)),
        ensures
            r ==> forall|j: int|
                0 <= j < self@.len() && j < other@.len() ==> #[trigger] near(
                    approx_ne,
                    self@[j],
                    other@[j],
                ),
            !r ==> exists|j: int|
                0 <= j < self@.len() && j < other@.len() && #[trigger] apart(
                    approx_ne,
                    self@[j],
                    other@[j],
                ),
    {
        let len: usize = if self.bases.len() < other.bases.len() {
            self.bases.len()
        } else {
            other.bases.len()
        };
        let mut index: usize = 0;
        while index < len
            invariant
                index <= len,
                len <= self.bases@.len(),
                len <= other.bases@.len(),
                len == self.bases@.len() || len == other.bases@.len(),
                forall|left: u64, right: u64| call_requires(approx_ne, (left, right)),
                forall|j: int|
                    0 <= j < index ==> #[trigger] near(approx_ne, self.bases@[j], other.bases@[j]),
            decreases len - index,
        {
            let c1: Complex = self.bases[index];
            let c2: Complex = other.bases[index];
            if approx_ne(c1.re, c2.re) || approx_ne(c1.im, c2.im) {
                assert(apart(approx_ne, self@[index as int], other@[index as int]));
                return false;
            }
            index += 1;
        }
        true
    }
}

/// Take it that the two state vectors are nearly the same: the caller owes
/// that `approx_ne` finds, at no index that both have, the real parts or the
/// imaginary parts of the two amplitudes apart.
pub fn assert_approx_eq<N: Fn(u64, u64) -> bool>(v1: &StateVector, v2: &StateVector, approx_ne: N)
    requires
        forall|left: u64, right: u64| call_requires(approx_ne, (left, right)),
        forall|j: int|
            0 <= j < v1@.len() && j < v2@.len() ==> !#[trigger] apart(approx_ne, v1@[j], v2@[j]),
{
    if !v1.approx_eq(v2, approx_ne) {
        unreached::<()>();
    }
}

/// One measurement of a qubit, between the look at the state and the
/// collapse of the state. It holds the chance of finding the qubit clear, and
/// is used up by the collapse.
pub struct Measurement {
    chance: u64,
    target: usize,
    measured: Ghost<Seq<Complex>>,
}

impl Measurement {
    /// The chance of finding the qubit clear, as a bit pattern.
    pub closed spec fn chance(&self) -> u64 {
        self.chance
    }

    /// The qubit that is measured.
    pub closed spec fn target(&self) -> nat {
        self.target as nat
    }

    /// The amplitudes that the chance was taken from.
    pub closed spec fn measured(&self) -> Seq<Complex> {
        self.measured@
    }

    /// Look at the state: the chance of finding qubit `target` clear is the
    /// sum that `add_norm` makes of zero and the amplitudes whose bit
    /// `target` is clear, taken in by rising index.
    pub fn new<A: Fn(u64, Complex) -> u64>(bases: &StateVector, target: usize, add_norm: A) -> (r:
        Self)
        requires
            target < bases.width(),
            forall|sum: u64, amplitude: Complex| call_requires(add_norm, (sum, amplitude)),
        ensures
            r.target() == target,
            r.measured() == bases@,
            exists|sums: Seq<u64>|
                sums_of_zero_branch(add_norm, bases@, target as nat, sums) && r.chance()
                    == sums.last(),
    {
        let chance: u64 = bases.chance_of_zero(target, add_norm);
        Measurement { chance, target, measured: Ghost(bases@) }
    }

    /// Collapse the state that was looked at. The sample `fate`, a number
    /// from 0 up to 1, decides the outcome: the qubit is found set exactly
    /// if `fate` is at least the chance of finding it clear. Every
    /// amplitude whose bit agrees with the outcome becomes what `rescale`
    /// makes of it, and every other becomes zero.
    pub fn collapse<R: Fn(u64, bool, Complex) -> Complex>(
        self,
        bases: &mut StateVector,
        fate: u64,
        rescale: R,
    ) -> (outcome: bool)
        requires
            old(bases)@ == self.measured(),
            self.target() < old(bases).width(),
            spec_in_unit_interval(fate),
            forall|chance: u64, outcome: bool, amplitude: Complex|
                call_requires(rescale, (chance, outcome, amplitude)),
        ensures
            final(bases).width() == old(bases).width(),
            outcome == spec_ge(fate, self.chance()),
            collapsed(
                rescale,
                old(bases)@,
                self.target(),
                self.chance(),
                outcome,
                final(bases)@,
            ),
    {
        let outcome: bool = ge(fate, self.chance);
        bases.project(self.target, self.chance, outcome, rescale);
        outcome
    }
}

/// A number of amplitudes has one width only.
pub proof fn lemma_width_is_unique(width: nat, other: nat, len: nat)
    requires
        is_width_of(width, len),
        is_width_of(other, len),
    ensures
        width == other,
{
    if len > 0 {
        if width < other {
            if width + 1 < other {
                lemma_pow2_strictly_increases(width + 1, other);
            }
        } else if other < width {
            if other + 1 < width {
                lemma_pow2_strictly_increases(other + 1, width);
            }
        }
    }
}

/// The source of an index of the register lies in the register, and its
/// own source is that index.
pub proof fn lemma_cnot_source(j: nat, width: nat, c: nat, t: nat)
    requires
        c != t,
        c < width,
        t < width,
    ensures
        j < pow2(width) ==> cnot_source(j, width, c, t) < pow2(width),
        j >= pow2(width) ==> cnot_source(j, width, c, t) == j,
        cnot_source(cnot_source(j, width, c, t), width, c, t) == j,
{
    if j < pow2(width) && bit(j, c) == 1 {
        lemma_flip_bound(j, t, width);
        lemma_flip_keeps_other_bits(j, t, c);
        lemma_flip_bit(j, t);
    }
}

/// A controlled not applied twice gives every amplitude back.
pub proof fn lemma_cnot_twice<A>(amplitudes: Seq<A>, width: nat, c: nat, t: nat)
    requires
        is_width_of(width, amplitudes.len()),
        c != t,
        c < width,
        t < width,
    ensures
        cnot_amplitudes(cnot_amplitudes(amplitudes, width, c, t), width, c, t) == amplitudes,
{
    let once = cnot_amplitudes(amplitudes, width, c, t);
    let twice = cnot_amplitudes(once, width, c, t);
    assert forall|j: int| 0 <= j < amplitudes.len() implies twice[j] == amplitudes[j] by {
        lemma_cnot_source(j as nat, width, c, t);
    }
    assert(twice =~= amplitudes);
}

/// A rotation whose matrix leaves every pair as it is leaves the state as
/// it is.
pub proof fn lemma_rotation_by_identity<R: Fn(UMatrix, Complex, Complex) -> (Complex, Complex)>(
    rotate: R,
    matrix: UMatrix,
    before: Seq<Complex>,
    width: nat,
    target: nat,
    after: Seq<Complex>,
)
    requires
        is_width_of(width, before.len()),
        target < width,
        rotated(rotate, matrix, before, width, target, after),
        forall|first: Complex, second: Complex, turned: (Complex, Complex)|
            call_ensures(rotate, (matrix, first, second), turned) ==> turned == (first, second),
    ensures
        after == before,
{
    assert forall|j: int| 0 <= j < before.len() implies after[j] == before[j] by {
        if j < pow2(width) {
            let n = target_rank(j as nat, target);
            lemma_target_row_of(j as nat, target, width);
            lemma_target_row(n, target, width);
            let row = target_row(n, target);
            assert(call_ensures(
                rotate,
                (matrix, before[row.0 as int], before[row.1 as int]),
                (after[row.0 as int], after[row.1 as int]),
            ));
        }
    }
    assert(after =~= before);
}

/// The chances of the ground state are one at the index 0 and zero at every
/// other, if only the norm of one is one and the norm of zero is zero.
pub proof fn lemma_chances_of_ground_state<N: Fn(Complex) -> u64>(
    norm_sqr: N,
    len: nat,
    chances: Seq<u64>,
)
    requires
        chances_of(norm_sqr, ground_state(len), chances),
        forall|chance: u64| call_ensures(norm_sqr, (Complex::one(),), chance) ==> chance == ONE_BITS,
        forall|chance: u64|
            call_ensures(norm_sqr, (Complex::zero(),), chance) ==> chance == ZERO_BITS,
    ensures
        chances == Seq::new(
            len,
            |j: int|
                if j == 0 {
                    ONE_BITS
                } else {
                    ZERO_BITS
                },
        ),
{
    let expected = Seq::new(
        len,
        |j: int|
            if j == 0 {
                ONE_BITS
            } else {
                ZERO_BITS
            },
    );
    assert forall|j: int| 0 <= j < len implies chances[j] == expected[j] by {
        assert(call_ensures(norm_sqr, (ground_state(len)[j],), chances[j]));
    }
    assert(chances =~= expected);
}

/// The sample zero finds the qubit clear wherever the chance of that is
/// above zero. The collapse then leaves of every amplitude whose bit
/// `target` is clear what `rescale` makes of it and that chance, and of
/// every amplitude whose bit `target` is set exactly zero.
pub proof fn lemma_collapse_at_sample_zero<R: Fn(u64, bool, Complex) -> Complex>(
    rescale: R,
    before: Seq<Complex>,
    target: nat,
    chance: u64,
    outcome: bool,
    after: Seq<Complex>,
)
    requires
        spec_lt(ZERO_BITS, chance),
        outcome == spec_ge(ZERO_BITS, chance),
        collapsed(rescale, before, target, chance, outcome, after),
    ensures
        !outcome,
        after.len() == before.len(),
        forall|j: int|
            0 <= j < before.len() ==> if bit(j as nat, target) == 1 {
                #[trigger] after[j] == Complex::zero()
            } else {
                call_ensures(rescale, (chance, false, before[j]), after[j])
            },
{
}

/// The sums over a basis state: zero up to the index that holds the
/// amplitude, and from there on one if its bit `target` is clear, and still
/// zero if it is set.
proof fn lemma_sums_of_basis_state<A: Fn(u64, Complex) -> u64>(
    add_norm: A,
    len: nat,
    k: nat,
    target: nat,
    sums: Seq<u64>,
    upto: nat,
)
    requires
        k < len,
        upto <= len,
        sums_of_zero_branch(add_norm, basis_state(len, k), target, sums),
        forall|sum: u64|
            call_ensures(add_norm, (ZERO_BITS, Complex::zero()), sum) ==> sum == ZERO_BITS,
        forall|sum: u64|
            call_ensures(add_norm, (ONE_BITS, Complex::zero()), sum) ==> sum == ONE_BITS,
        forall|sum: u64| call_ensures(add_norm, (ZERO_BITS, Complex::one()), sum) ==> sum == ONE_BITS,
    ensures
        sums[upto as int] == if upto > k && bit(k, target) == 0 {
            ONE_BITS
        } else {
            ZERO_BITS
        },
    decreases upto,
{
    if upto > 0 {
        let j = (upto - 1) as int;
        lemma_sums_of_basis_state(add_norm, len, k, target, sums, (upto - 1) as nat);
        let before = basis_state(len, k);
        assert(before[j] == if j == k {
            Complex::one()
        } else {
            Complex::zero()
        });
        if bit(j as nat, target) == 0 {
            assert(call_ensures(add_norm, (sums[j], before[j]), sums[j + 1]));
        } else {
            assert(sums[j + 1] == sums[j]);
        }
    }
}

/// A measurement of a basis state finds the qubit as the bit of the index
/// says and leaves the state as it is, whatever the sample, if only the
/// arithmetic does with zero and one what is expected of it: adding the
/// norm of zero changes neither the sum zero nor the sum one, adding the
/// norm of one to zero gives one, and rescaling for a certain outcome
/// changes neither zero nor one.
pub proof fn lemma_measure_basis_state<
    A: Fn(u64, Complex) -> u64,
    R: Fn(u64, bool, Complex) -> Complex,
>(
    add_norm: A,
    rescale: R,
    len: nat,
    k: nat,
    target: nat,
    fate: u64,
    sums: Seq<u64>,
    outcome: bool,
    after: Seq<Complex>,
)
    requires
        k < len,
        spec_in_unit_interval(fate),
        sums_of_zero_branch(add_norm, basis_state(len, k), target, sums),
        outcome == spec_ge(fate, sums.last()),
        collapsed(rescale, basis_state(len, k), target, sums.last(), outcome, after),
        forall|sum: u64|
            call_ensures(add_norm, (ZERO_BITS, Complex::zero()), sum) ==> sum == ZERO_BITS,
        forall|sum: u64|
            call_ensures(add_norm, (ONE_BITS, Complex::zero()), sum) ==> sum == ONE_BITS,
        forall|sum: u64| call_ensures(add_norm, (ZERO_BITS, Complex::one()), sum) ==> sum == ONE_BITS,
        forall|amplitude: Complex, scaled: Complex|
            (amplitude == Complex::zero() || amplitude == Complex::one()) && call_ensures(
                rescale,
                (ONE_BITS, false, amplitude),
                scaled,
            ) ==> scaled == amplitude,
        forall|amplitude: Complex, scaled: Complex|
            (amplitude == Complex::zero() || amplitude == Complex::one()) && call_ensures(
                rescale,
                (ZERO_BITS, true, amplitude),
                scaled,
            ) ==> scaled == amplitude,
    ensures
        outcome == (bit(k, target) == 1),
        after == basis_state(len, k),
{
    let before = basis_state(len, k);
    let set = bit(k, target) == 1;
    lemma_split_at(k, target);
    lemma_sums_of_basis_state(add_norm, len, k, target, sums, len);
    assert(sums.last() == sums[len as int]);
    let chance = sums.last();
    assert(chance == if set {
        ZERO_BITS
    } else {
        ONE_BITS
    });
    assert(outcome == set);
    assert forall|j: int| 0 <= j < len implies after[j] == before[j] by {
        lemma_split_at(j as nat, target);
        if (bit(j as nat, target) == 1) == outcome {
            assert(call_ensures(rescale, (chance, outcome, before[j]), after[j]));
        } else {
            assert(j != k);
        }
    }
    assert(after =~= before);
}

} // verus!
