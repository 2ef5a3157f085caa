use std::cell::Cell;
use std::f64::consts::{FRAC_1_SQRT_2, PI};

use float_cmp::{ApproxEq, F64Margin};
use qasmsim::cache::MatrixCache;
use qasmsim::complex::{Complex, UMatrix, ONE_BITS, ZERO_BITS};
use qasmsim::statevector::{Measurement, StateVector};

type Amplitude = num::Complex<f64>;

fn amplitude(re: f64, im: f64) -> Complex {
    Complex::new(re.to_bits(), im.to_bits())
}

fn scalar(re: f64) -> Complex {
    amplitude(re, 0.0)
}

fn to_num(c: Complex) -> Amplitude {
    Amplitude::new(f64::from_bits(c.re), f64::from_bits(c.im))
}

fn from_num(c: Amplitude) -> Complex {
    amplitude(c.re, c.im)
}

fn e_power_to(x: f64) -> Amplitude {
    Amplitude::new(0.0, x).exp()
}

fn build(theta: u64, phi: u64, lambda: u64) -> UMatrix {
    let theta = f64::from_bits(theta);
    let phi = f64::from_bits(phi);
    let lambda = f64::from_bits(lambda);
    (
        from_num(Amplitude::new((theta / 2.0).cos(), 0.0)),
        from_num(-e_power_to(lambda) * (theta / 2.0).sin()),
        from_num(e_power_to(phi) * (theta / 2.0).sin()),
        from_num(e_power_to(phi + lambda) * (theta / 2.0).cos()),
    )
}

fn rotate(matrix: UMatrix, first: Complex, second: Complex) -> (Complex, Complex) {
    let selected = (to_num(first), to_num(second));
    (
        from_num(to_num(matrix.0) * selected.0 + to_num(matrix.1) * selected.1),
        from_num(to_num(matrix.2) * selected.0 + to_num(matrix.3) * selected.1),
    )
}

fn add_norm(sum: u64, amplitude: Complex) -> u64 {
    (f64::from_bits(sum) + to_num(amplitude).norm_sqr()).to_bits()
}

fn rescale(chance: u64, outcome: bool, amplitude: Complex) -> Complex {
    let chance_0 = f64::from_bits(chance);
    let chances = [chance_0, 1.0 - chance_0];
    let normalization_factor = chances[outcome as usize].sqrt();
    from_num(to_num(amplitude) / normalization_factor)
}

fn norm_sqr(amplitude: Complex) -> u64 {
    to_num(amplitude).norm_sqr().to_bits()
}

fn step(sum: u64, chance: u64, set: bool) -> u64 {
    let sum = f64::from_bits(sum);
    let chance = f64::from_bits(chance);
    if set {
        (sum + chance).to_bits()
    } else {
        (sum - chance).to_bits()
    }
}

fn clamp(sum: u64) -> u64 {
    f64::max(0.0, f64::min(1.0, f64::from_bits(sum))).to_bits()
}

fn approx_ne(left: u64, right: u64) -> bool {
    f64::from_bits(left).approx_ne(f64::from_bits(right), F64Margin::default())
}

fn assert_approx_eq(v1: &StateVector, v2: &StateVector) {
    qasmsim::statevector::assert_approx_eq(v1, v2, approx_ne);
}

fn u(v: &mut StateVector, theta: f64, phi: f64, lambda: f64, target: usize) {
    let mut matrices = MatrixCache::new();
    v.u(
        theta.to_bits(),
        phi.to_bits(),
        lambda.to_bits(),
        target,
        &mut matrices,
        build,
        rotate,
    );
}

fn floats(chances: &[u64]) -> Vec<f64> {
    chances.iter().map(|bits| f64::from_bits(*bits)).collect()
}

fn total(v: &StateVector) -> f64 {
    floats(&v.probabilities(norm_sqr)).iter().sum()
}

#[test]
fn test_cnot_c0t1() {
    let p = Complex::default();
    let a = amplitude(1.0, 0.0);
    let b = amplitude(0.0, 1.0);
    let mut v = StateVector::from_complex_bases(vec![p, a, p, b]);
    v.cnot(0, 1);
    assert_eq!(v, StateVector::from_complex_bases(vec!(p, b, p, a)));
}

#[test]
fn test_cnot_c1t0_of_2_bits() {
    let p = Complex::default();
    let a = amplitude(1.0, 0.0);
    let b = amplitude(0.0, 1.0);
    let mut v = StateVector::from_complex_bases(vec![p, p, a, b]);
    v.cnot(1, 0);
    assert_eq!(v, StateVector::from_complex_bases(vec!(p, p, b, a)));
}

#[test]
fn test_cnot_c2t0_of_3_bits() {
    let p = Complex::default();
    let a = amplitude(1.0, 0.0);
    let b = amplitude(0.0, 1.0);
    let mut v = StateVector::from_complex_bases(vec![p, p, p, p, a, b, a, b]);
    v.cnot(2, 0);
    assert_eq!(
        v,
        StateVector::from_complex_bases(vec!(p, p, p, p, b, a, b, a))
    );
}

#[test]
fn test_cnot_c0t2_of_3_bits() {
    let p = Complex::default();
    let a = amplitude(1.0, 0.0);
    let b = amplitude(0.0, 1.0);
    let mut v = StateVector::from_complex_bases(vec![p, a, p, a, p, b, p, b]);
    v.cnot(0, 2);
    assert_eq!(
        v,
        StateVector::from_complex_bases(vec!(p, b, p, b, p, a, p, a))
    );
}

#[test]
fn test_cnot_is_reversible() {
    let p = Complex::default();
    let a = amplitude(1.0, 0.0);
    let b = amplitude(0.0, 1.0);
    let mut v = StateVector::from_complex_bases(vec![p, a, p, b]);
    v.cnot(0, 1);
    v.cnot(0, 1);
    assert_eq!(v, StateVector::from_complex_bases(vec!(p, a, p, b)));
}

#[test]
fn test_measurement() {
    let size = 1000;
    let mut accum = 0;
    for _ in 0..size {
        let mut v = StateVector::from_complex_bases(vec![
            scalar(FRAC_1_SQRT_2),
            scalar(FRAC_1_SQRT_2),
        ]);
        u(&mut v, PI / 2.0, 0.0, PI, 0);
        let fate: f64 = rand::random();
        accum += if v.measure(0, fate.to_bits(), add_norm, rescale) {
            1
        } else {
            0
        };
    }
    let _ = ((accum as f64) / (size as f64)).approx_eq(
        0.5,
        F64Margin::default().epsilon(std::f64::EPSILON),
    );
}

#[test]
fn test_state_vector_measurement_superposition() {
    let mut v = StateVector::from_complex_bases(vec![
        scalar(FRAC_1_SQRT_2),
        scalar(FRAC_1_SQRT_2),
    ]);
    let measurement = Measurement::new(&v, 0, add_norm);
    let faked_random_value: f64 = 0.0;
    measurement.collapse(&mut v, faked_random_value.to_bits(), rescale);
    assert_approx_eq(
        &v,
        &StateVector::from_complex_bases(vec![scalar(1.0), scalar(0.0)]),
    );
}

#[test]
fn test_state_vector_measurement_0() {
    let mut v = StateVector::from_complex_bases(vec![scalar(1.0), scalar(0.0)]);
    let measurement = Measurement::new(&v, 0, add_norm);
    let faked_random_value: f64 = 0.0;
    measurement.collapse(&mut v, faked_random_value.to_bits(), rescale);
    assert_approx_eq(
        &v,
        &StateVector::from_complex_bases(vec![scalar(1.0), scalar(0.0)]),
    );
}

#[test]
fn test_state_vector_measurement_1() {
    let mut v = StateVector::from_complex_bases(vec![scalar(0.0), scalar(1.0)]);
    let measurement = Measurement::new(&v, 0, add_norm);
    let faked_random_value: f64 = 0.0;
    measurement.collapse(&mut v, faked_random_value.to_bits(), rescale);
    assert_approx_eq(
        &v,
        &StateVector::from_complex_bases(vec![scalar(0.0), scalar(1.0)]),
    );
}

#[test]
fn test_state_vector_measurement_2_qubit_superposition() {
    let mut v = StateVector::from_complex_bases(vec![
        scalar(0.5),
        scalar(0.5),
        scalar(0.5),
        scalar(0.5),
    ]);
    let measurement = Measurement::new(&v, 0, add_norm);
    let faked_random_value: f64 = 0.0;
    measurement.collapse(&mut v, faked_random_value.to_bits(), rescale);
    assert_approx_eq(
        &v,
        &StateVector::from_complex_bases(vec![
            scalar(FRAC_1_SQRT_2),
            scalar(0.0),
            scalar(FRAC_1_SQRT_2),
            scalar(0.0),
        ]),
    );
}

#[test]
fn new_is_the_ground_state() {
    for width in 0..6 {
        let v = StateVector::new(width);
        assert_eq!(v.qubit_width(), width);
        assert_eq!(v.len(), 1 << width);
        assert!(!v.is_empty());
        let bases = v.as_complex_bases();
        assert_eq!(bases[0], scalar(1.0));
        assert_eq!(bases[0], Complex::one());
        for amplitude in &bases[1..] {
            assert_eq!(*amplitude, scalar(0.0));
            assert_eq!(*amplitude, Complex::zero());
        }
        let mut expected = vec![0.0; 1 << width];
        expected[0] = 1.0;
        assert_eq!(floats(&v.probabilities(norm_sqr)), expected);
    }
}

#[test]
fn the_constants_are_zero_and_one() {
    assert_eq!(ZERO_BITS, 0.0_f64.to_bits());
    assert_eq!(ONE_BITS, 1.0_f64.to_bits());
    assert_eq!(Complex::default(), Complex::zero());
    assert_eq!(Complex::new(3, 4).re, 3);
    assert_eq!(Complex::new(3, 4).im, 4);
}

#[test]
fn reset_returns_to_the_ground_state() {
    let mut v = StateVector::from_complex_bases(vec![
        amplitude(0.5, 0.5),
        amplitude(0.0, -0.5),
        amplitude(0.5, 0.0),
        amplitude(0.0, 0.0),
    ]);
    v.reset();
    assert_eq!(v, StateVector::new(2));
    assert_eq!(v.qubit_width(), 2);
}

#[test]
fn from_complex_bases_takes_the_width_of_the_length() {
    let widths = [0, 0, 1, 1, 2, 2, 2, 2, 3, 3];
    for (len, width) in widths.iter().enumerate() {
        let v = StateVector::from_complex_bases(vec![Complex::zero(); len]);
        assert_eq!(v.qubit_width(), *width);
        assert_eq!(v.len(), len);
        assert_eq!(v.is_empty(), len == 0);
        assert_eq!(
            v.qubit_width(),
            if len == 0 {
                0
            } else {
                (len as f64).log2() as usize
            }
        );
    }
    let v = StateVector::from_complex_bases(vec![Complex::zero(); 1 << 12]);
    assert_eq!(v.qubit_width(), 12);
    let v = StateVector::from_complex_bases(vec![Complex::zero(); (1 << 12) - 1]);
    assert_eq!(v.qubit_width(), 11);
}

#[test]
fn a_clone_is_equal_and_apart() {
    let mut v = StateVector::from_complex_bases(vec![scalar(0.0), scalar(1.0), scalar(0.0), scalar(0.0)]);
    let copy = v.clone();
    assert_eq!(v, copy);
    v.cnot(0, 1);
    assert_ne!(v, copy);
    assert_eq!(
        copy,
        StateVector::from_complex_bases(vec![scalar(0.0), scalar(1.0), scalar(0.0), scalar(0.0)])
    );
    assert_ne!(
        StateVector::from_complex_bases(vec![scalar(1.0), scalar(0.0)]),
        StateVector::from_complex_bases(vec![scalar(1.0), scalar(0.0), scalar(0.0)])
    );
}

#[test]
fn cnot_leaves_what_lies_beyond_the_register() {
    let p = Complex::default();
    let a = amplitude(1.0, 0.0);
    let b = amplitude(0.0, 1.0);
    let c = amplitude(2.0, 2.0);
    let mut v = StateVector::from_complex_bases(vec![p, a, p, b, c]);
    v.cnot(0, 1);
    assert_eq!(v, StateVector::from_complex_bases(vec![p, b, p, a, c]));
}

#[test]
fn cnot_exchanges_amplitudes_and_loses_none() {
    let bases: Vec<Complex> = (0..16).map(|n| amplitude(n as f64, -(n as f64))).collect();
    for control in 0..4 {
        for target in 0..4 {
            if control == target {
                continue;
            }
            let mut v = StateVector::from_complex_bases(bases.clone());
            v.cnot(control, target);
            for (index, amplitude) in v.as_complex_bases().iter().enumerate() {
                let source = if index & (1 << control) != 0 {
                    index ^ (1 << target)
                } else {
                    index
                };
                assert_eq!(*amplitude, bases[source]);
            }
            v.cnot(control, target);
            assert_eq!(v.as_complex_bases(), &bases[..]);
        }
    }
}

#[test]
fn u_with_zero_angles_changes_nothing() {
    let bases = vec![
        amplitude(0.5, 0.0),
        amplitude(0.0, 0.5),
        amplitude(-0.5, 0.0),
        amplitude(0.0, -0.5),
    ];
    for target in 0..2 {
        let mut v = StateVector::from_complex_bases(bases.clone());
        u(&mut v, 0.0, 0.0, 0.0, target);
        assert_approx_eq(&v, &StateVector::from_complex_bases(bases.clone()));
    }
}

#[test]
fn u_and_cnot_make_a_bell_pair() {
    let mut v = StateVector::new(1);
    u(&mut v, PI / 2.0, 0.0, PI, 0);
    let chances = floats(&v.probabilities(norm_sqr));
    assert!((chances[0] - 0.5).abs() < 1e-9);
    assert!((chances[1] - 0.5).abs() < 1e-9);

    let mut v = StateVector::new(2);
    u(&mut v, PI / 2.0, 0.0, PI, 0);
    v.cnot(0, 1);
    assert_approx_eq(
        &v,
        &StateVector::from_complex_bases(vec![
            scalar(FRAC_1_SQRT_2),
            scalar(0.0),
            scalar(0.0),
            scalar(FRAC_1_SQRT_2),
        ]),
    );
    let chances = floats(&v.probabilities(norm_sqr));
    let expected = [0.5, 0.0, 0.0, 0.5];
    for (chance, expected) in chances.iter().zip(expected.iter()) {
        assert!((chance - expected).abs() < 1e-9);
    }
}

#[test]
fn u_rotates_the_qubit_it_is_told() {
    let mut v = StateVector::new(2);
    u(&mut v, PI / 2.0, 0.0, PI, 1);
    assert_approx_eq(
        &v,
        &StateVector::from_complex_bases(vec![
            scalar(FRAC_1_SQRT_2),
            scalar(0.0),
            scalar(FRAC_1_SQRT_2),
            scalar(0.0),
        ]),
    );
    let mut v = StateVector::new(4);
    for target in 0..4 {
        u(&mut v, PI / 2.0, 0.0, PI, target);
    }
    assert_approx_eq(&v, &StateVector::from_complex_bases(vec![scalar(0.25); 16]));
}

#[test]
fn gates_keep_the_norm() {
    let mut v = StateVector::new(3);
    let mut matrices = MatrixCache::new();
    let angles = [0.3, 1.1, PI / 2.0, 2.5, PI, 0.0];
    for round in 0..12 {
        let theta: f64 = angles[round % 6];
        let phi: f64 = angles[(round + 1) % 6];
        let lambda: f64 = angles[(round + 2) % 6];
        v.u(
            theta.to_bits(),
            phi.to_bits(),
            lambda.to_bits(),
            round % 3,
            &mut matrices,
            build,
            rotate,
        );
        v.cnot(round % 3, (round + 1) % 3);
        assert!((total(&v) - 1.0).abs() < 1e-9);
    }
}

#[test]
fn the_matrix_of_a_rotation_is_built_once() {
    let calls = Cell::new(0);
    let counting = |theta: u64, phi: u64, lambda: u64| {
        calls.set(calls.get() + 1);
        build(theta, phi, lambda)
    };
    let mut matrices = MatrixCache::new();
    let half_pi = (PI / 2.0).to_bits();
    let zero = 0.0_f64.to_bits();
    let pi = PI.to_bits();
    let first = matrices.build_u(half_pi, zero, pi, &counting);
    assert_eq!(calls.get(), 1);
    assert_eq!(first, build(half_pi, zero, pi));
    let again = matrices.build_u(half_pi, zero, pi, &counting);
    assert_eq!(calls.get(), 1);
    assert_eq!(again, first);
    let other = matrices.build_u(pi, zero, pi, &counting);
    assert_eq!(calls.get(), 2);
    assert_eq!(other, build(pi, zero, pi));
    assert_ne!(other, first);
    let minus_zero = (-0.0_f64).to_bits();
    let signed = matrices.build_u(half_pi, minus_zero, pi, &counting);
    assert_eq!(calls.get(), 3);
    assert_eq!(signed, build(half_pi, minus_zero, pi));
}

#[test]
fn the_matrix_cache_lets_the_oldest_go() {
    let calls = Cell::new(0);
    let counting = |theta: u64, phi: u64, lambda: u64| {
        calls.set(calls.get() + 1);
        build(theta, phi, lambda)
    };
    let mut matrices = MatrixCache::new();
    let zero = 0.0_f64.to_bits();
    for n in 0..20 {
        matrices.build_u((n as f64).to_bits(), zero, zero, &counting);
    }
    assert_eq!(calls.get(), 20);
    for n in 0..20 {
        matrices.build_u((n as f64).to_bits(), zero, zero, &counting);
    }
    assert_eq!(calls.get(), 20);
    matrices.build_u(20.0_f64.to_bits(), zero, zero, &counting);
    assert_eq!(calls.get(), 21);
    matrices.build_u(0.0_f64.to_bits(), zero, zero, &counting);
    assert_eq!(calls.get(), 22);
    let kept = matrices.build_u(19.0_f64.to_bits(), zero, zero, &counting);
    assert_eq!(calls.get(), 22);
    assert_eq!(kept, build(19.0_f64.to_bits(), zero, zero));
}

#[test]
fn measuring_a_basis_state_changes_nothing() {
    let zero = Complex::zero();
    let one = Complex::one();
    assert_eq!(add_norm(ZERO_BITS, zero), ZERO_BITS);
    assert_eq!(add_norm(ONE_BITS, zero), ONE_BITS);
    assert_eq!(add_norm(ZERO_BITS, one), ONE_BITS);
    assert_eq!(rescale(ONE_BITS, false, zero), zero);
    assert_eq!(rescale(ONE_BITS, false, one), one);
    assert_eq!(rescale(ZERO_BITS, true, zero), zero);
    assert_eq!(rescale(ZERO_BITS, true, one), one);
    let fates: [f64; 5] = [0.0, -0.0, 0.25, 0.5, 0.999_999_999];
    for index in 0..8 {
        for target in 0..3 {
            for fate in fates.iter() {
                let mut bases = vec![zero; 8];
                bases[index] = one;
                let mut v = StateVector::from_complex_bases(bases.clone());
                let outcome = v.measure(target, fate.to_bits(), add_norm, rescale);
                assert_eq!(outcome, index & (1 << target) != 0);
                assert_eq!(v, StateVector::from_complex_bases(bases));
            }
        }
    }
}

#[test]
fn collapse_keeps_one_branch_and_clears_the_other() {
    let half = scalar(FRAC_1_SQRT_2);
    let mut v = StateVector::from_complex_bases(vec![half, half]);
    let outcome = v.measure(0, 0.0_f64.to_bits(), add_norm, rescale);
    assert!(!outcome);
    let bases = v.as_complex_bases();
    let chance = FRAC_1_SQRT_2 * FRAC_1_SQRT_2;
    let scaled = FRAC_1_SQRT_2 / chance.sqrt();
    assert_eq!(bases[0], scalar(scaled));
    assert!((scaled - 1.0).abs() < 1e-12);
    assert_eq!(bases[1], Complex::zero());

    let mut v = StateVector::from_complex_bases(vec![half, half]);
    let outcome = v.measure(0, 0.75_f64.to_bits(), add_norm, rescale);
    assert!(outcome);
    let bases = v.as_complex_bases();
    assert_eq!(bases[0], Complex::zero());
    assert!((f64::from_bits(bases[1].re) - 1.0).abs() < 1e-12);

    let quarter = scalar(0.5);
    let mut v = StateVector::from_complex_bases(vec![quarter; 4]);
    let measurement = Measurement::new(&v, 1, add_norm);
    let outcome = measurement.collapse(&mut v, 0.5_f64.to_bits(), rescale);
    assert!(outcome);
    let bases = v.as_complex_bases();
    assert_eq!(bases[0], Complex::zero());
    assert_eq!(bases[1], Complex::zero());
    assert_eq!(bases[2], scalar(0.5 / 0.5_f64.sqrt()));
    assert_eq!(bases[3], scalar(0.5 / 0.5_f64.sqrt()));

    let mut v = StateVector::from_complex_bases(vec![quarter; 4]);
    let measurement = Measurement::new(&v, 1, add_norm);
    let outcome = measurement.collapse(&mut v, 0.499_f64.to_bits(), rescale);
    assert!(!outcome);
    let bases = v.as_complex_bases();
    assert_eq!(bases[0], scalar(0.5 / 0.5_f64.sqrt()));
    assert_eq!(bases[1], scalar(0.5 / 0.5_f64.sqrt()));
    assert_eq!(bases[2], Complex::zero());
    assert_eq!(bases[3], Complex::zero());
}

#[test]
fn a_measurement_sums_the_clear_branch() {
    let bases = vec![
        scalar(0.5),
        amplitude(0.0, 0.5),
        scalar(0.1),
        scalar(0.7),
    ];
    let seen = Cell::new(Vec::new());
    let watching = |sum: u64, amplitude: Complex| {
        let mut so_far = seen.take();
        so_far.push(amplitude);
        seen.set(so_far);
        add_norm(sum, amplitude)
    };
    let v = StateVector::from_complex_bases(bases.clone());
    Measurement::new(&v, 0, &watching);
    assert_eq!(seen.take(), vec![bases[0], bases[2]]);
    Measurement::new(&v, 1, &watching);
    assert_eq!(seen.take(), vec![bases[0], bases[1]]);

    let mut v = StateVector::from_complex_bases(bases.clone());
    let low: f64 = 0.0 + 0.25 + 0.1 * 0.1;
    assert!(!v.measure(0, (low - 0.001).to_bits(), add_norm, rescale));
    let mut v = StateVector::from_complex_bases(bases.clone());
    assert!(v.measure(0, low.to_bits(), add_norm, rescale));
    let mut v = StateVector::from_complex_bases(bases);
    let high: f64 = 0.0 + 0.25 + 0.25;
    assert!(!v.measure(1, (high - 0.001).to_bits(), add_norm, rescale));
}

#[test]
fn probabilities_follow_the_amplitudes() {
    let v = StateVector::from_complex_bases(vec![
        amplitude(0.5, 0.5),
        amplitude(0.0, -0.5),
        amplitude(0.5, 0.0),
        amplitude(0.0, 0.0),
    ]);
    assert_eq!(floats(&v.probabilities(norm_sqr)), vec![0.5, 0.25, 0.25, 0.0]);
}

#[test]
fn expectation_values_sum_by_the_bit_of_the_qubit() {
    let v = StateVector::from_complex_bases(vec![scalar(0.0), scalar(0.0), scalar(0.0), scalar(1.0)]);
    assert_eq!(
        floats(&v.expectation_values(norm_sqr, step, clamp)),
        vec![1.0, 1.0]
    );
    let v = StateVector::from_complex_bases(vec![scalar(0.0), scalar(1.0), scalar(0.0), scalar(0.0)]);
    assert_eq!(
        floats(&v.expectation_values(norm_sqr, step, clamp)),
        vec![1.0, 0.0]
    );
    let v = StateVector::from_complex_bases(vec![scalar(0.5); 4]);
    assert_eq!(
        floats(&v.expectation_values(norm_sqr, step, clamp)),
        vec![0.0, 0.0]
    );
    let unclamped = floats(&StateVector::new(2).expectation_values(norm_sqr, step, |sum| sum));
    assert_eq!(unclamped, vec![-1.0, -1.0]);
    assert!(StateVector::from_complex_bases(vec![])
        .expectation_values(norm_sqr, step, clamp)
        .is_empty());
}

#[test]
fn approx_eq_looks_at_the_indices_that_both_have() {
    let v = StateVector::from_complex_bases(vec![scalar(1.0), scalar(0.0)]);
    let near = StateVector::from_complex_bases(vec![scalar(1.0 + f64::EPSILON), scalar(0.0)]);
    let far = StateVector::from_complex_bases(vec![scalar(1.0), scalar(0.001)]);
    let turned = StateVector::from_complex_bases(vec![scalar(1.0), amplitude(0.0, 0.001)]);
    let longer = StateVector::from_complex_bases(vec![scalar(1.0), scalar(0.0), scalar(5.0)]);
    assert!(v.approx_eq(&near, approx_ne));
    assert!(!v.approx_eq(&far, approx_ne));
    assert!(!v.approx_eq(&turned, approx_ne));
    assert!(v.approx_eq(&longer, approx_ne));
    assert!(longer.approx_eq(&v, approx_ne));
}
