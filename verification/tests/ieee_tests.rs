use num::Float;
use qasmsim::cache::build_u_key;
use qasmsim::ieee::{ge, in_unit_interval, integer_decode, lt};

fn samples() -> Vec<f64> {
    vec![
        0.0,
        -0.0,
        1.0,
        -1.0,
        0.5,
        -0.5,
        0.999_999_999_999,
        1.000_000_000_001,
        f64::MIN_POSITIVE,
        -f64::MIN_POSITIVE,
        5e-324,
        -5e-324,
        f64::MAX,
        f64::MIN,
        f64::INFINITY,
        f64::NEG_INFINITY,
        f64::NAN,
        -f64::NAN,
        f64::from_bits(0x7FF0_0000_0000_0001),
        f64::from_bits(0xFFFF_FFFF_FFFF_FFFF),
        std::f64::consts::PI,
        std::f64::consts::FRAC_PI_2,
        2.5e10,
        -3.75e-7,
    ]
}

#[test]
fn ge_is_the_order_of_the_numbers() {
    for a in samples() {
        for b in samples() {
            assert_eq!(ge(a.to_bits(), b.to_bits()), a >= b);
        }
    }
}

#[test]
fn lt_is_the_order_of_the_numbers() {
    for a in samples() {
        for b in samples() {
            assert_eq!(lt(a.to_bits(), b.to_bits()), a < b);
        }
    }
}

#[test]
fn the_unit_interval_holds_zero_and_not_one() {
    for a in samples() {
        assert_eq!(in_unit_interval(a.to_bits()), (0.0..1.0).contains(&a));
    }
    assert!(in_unit_interval(0.0_f64.to_bits()));
    assert!(in_unit_interval((-0.0_f64).to_bits()));
    assert!(in_unit_interval(0.5_f64.to_bits()));
    assert!(!in_unit_interval(1.0_f64.to_bits()));
    assert!(!in_unit_interval((-0.5_f64).to_bits()));
    assert!(!in_unit_interval(f64::NAN.to_bits()));
}

#[test]
fn integer_decode_gives_mantissa_exponent_and_sign() {
    for a in samples() {
        assert_eq!(integer_decode(a.to_bits()), Float::integer_decode(a));
    }
    assert_eq!(integer_decode(1.0_f64.to_bits()), (1 << 52, -52, 1));
    assert_eq!(integer_decode((-2.0_f64).to_bits()), (1 << 52, -51, -1));
    assert_eq!(integer_decode(0.0_f64.to_bits()), (0, -1075, 1));
    assert_eq!(integer_decode((-0.0_f64).to_bits()), (0, -1075, -1));
}

#[test]
fn the_key_of_a_rotation_tells_the_angles_apart() {
    let angles = samples();
    let key = build_u_key(
        angles[2].to_bits(),
        angles[4].to_bits(),
        angles[20].to_bits(),
    );
    assert_eq!(
        key,
        (
            Float::integer_decode(1.0_f64),
            Float::integer_decode(0.5_f64),
            Float::integer_decode(std::f64::consts::PI)
        )
    );
    for a in samples() {
        for b in samples() {
            let same = a.to_bits() == b.to_bits();
            assert_eq!(
                build_u_key(a.to_bits(), 0, 0) == build_u_key(b.to_bits(), 0, 0),
                same
            );
            assert_eq!(
                build_u_key(0, 0, a.to_bits()) == build_u_key(0, 0, b.to_bits()),
                same
            );
        }
    }
}
