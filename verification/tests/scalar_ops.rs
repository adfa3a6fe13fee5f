use scalargrad::Scalar;
use scalargrad::SCALE;

fn to_f64(s: Scalar) -> f64 {
    match s {
        Scalar::Finite(v) => v as f64 / SCALE as f64,
        Scalar::Inf(neg) => {
            if neg {
                f64::NEG_INFINITY
            } else {
                f64::INFINITY
            }
        }
        Scalar::Nan => f64::NAN,
    }
}

#[test]
fn add_exact() {
    let a = Scalar::Finite(2 * SCALE);
    let b = Scalar::Finite(-3 * SCALE);
    assert_eq!(a.add(b), Scalar::Finite(-SCALE));
}

#[test]
fn sub_exact() {
    let a = Scalar::Finite(2 * SCALE);
    let b = Scalar::Finite(-3 * SCALE);
    assert_eq!(a.sub(b), Scalar::Finite(5 * SCALE));
}

#[test]
fn mul_exact() {
    let a = Scalar::Finite(3 * SCALE / 2);
    let b = Scalar::Finite(-2 * SCALE);
    assert_eq!(a.mul(b), Scalar::Finite(-3 * SCALE));
}

#[test]
fn div_exact() {
    let a = Scalar::Finite(3 * SCALE);
    let b = Scalar::Finite(2 * SCALE);
    assert_eq!(a.div(b), Scalar::Finite(3 * SCALE / 2));
}

#[test]
fn div_by_zero_is_signed_infinity() {
    let a = Scalar::Finite(3 * SCALE);
    let z = Scalar::Finite(0);
    assert_eq!(a.div(z), Scalar::Inf(false));
    let n = Scalar::Finite(-3 * SCALE);
    assert_eq!(n.div(z), Scalar::Inf(true));
}

#[test]
fn zero_over_zero_is_nan() {
    let z = Scalar::Finite(0);
    assert_eq!(z.div(z), Scalar::Nan);
}

#[test]
fn opposite_infinities_are_nan() {
    assert_eq!(Scalar::Inf(false).add(Scalar::Inf(true)), Scalar::Nan);
    assert_eq!(Scalar::Inf(false).sub(Scalar::Inf(false)), Scalar::Nan);
}

#[test]
fn nan_propagates() {
    let a = Scalar::Finite(SCALE);
    assert_eq!(a.add(Scalar::Nan), Scalar::Nan);
    assert_eq!(Scalar::Nan.mul(a), Scalar::Nan);
    assert_eq!(Scalar::Nan.div(a), Scalar::Nan);
}

#[test]
fn infinity_times_zero_is_nan() {
    assert_eq!(Scalar::Inf(false).mul(Scalar::Finite(0)), Scalar::Nan);
}

#[test]
fn overflow_saturates_to_infinity() {
    let big = Scalar::Finite(i64::MAX);
    assert_eq!(big.add(big), Scalar::Inf(false));
    let small = Scalar::Finite(i64::MIN);
    assert_eq!(small.add(small), Scalar::Inf(true));
    assert_eq!(big.mul(big), Scalar::Inf(false));
}

#[test]
fn pow_integer_exponent_exact() {
    let three = Scalar::Finite(3 * SCALE);
    assert_eq!(three.pow(Scalar::Finite(2 * SCALE)), Scalar::Finite(9 * SCALE));
    assert_eq!(three.pow(Scalar::Finite(0)), Scalar::Finite(SCALE));
    let two = Scalar::Finite(2 * SCALE);
    assert_eq!(two.pow(Scalar::Finite(-SCALE)), Scalar::Finite(SCALE / 2));
}

#[test]
fn pow_fractional_exponent_on_negative_base_is_nan() {
    let base = Scalar::Finite(-2 * SCALE);
    let half = Scalar::Finite(SCALE / 2);
    assert_eq!(base.pow(half), Scalar::Nan);
}

#[test]
fn pow_fractional_exponent_on_positive_base() {
    let four = Scalar::Finite(4 * SCALE);
    let half = Scalar::Finite(SCALE / 2);
    assert_eq!(four.pow(half), Scalar::Finite(2 * SCALE));
    let neg_half = Scalar::Finite(-SCALE / 2);
    assert_eq!(four.pow(neg_half), Scalar::Finite(SCALE / 2));
    let two = Scalar::Finite(2 * SCALE);
    let three_halves = Scalar::Finite(3 * SCALE / 2);
    match two.pow(three_halves) {
        Scalar::Finite(v) => {
            let got = v as f64 / SCALE as f64;
            let want = 2.0f64.powf(1.5);
            assert!((got - want).abs() < 1e-3, "got {got}, want {want}");
        }
        _ => panic!("a positive base with a fractional exponent must be finite"),
    }
}

#[test]
fn sqrt_of_zero_via_pow() {
    let zero = Scalar::Finite(0);
    let half = Scalar::Finite(SCALE / 2);
    assert_eq!(zero.pow(half), Scalar::Finite(0));
}

#[test]
fn pow_of_anything_to_zero_is_one() {
    assert_eq!(Scalar::Nan.pow(Scalar::Finite(0)), Scalar::Finite(SCALE));
    assert_eq!(Scalar::Inf(true).pow(Scalar::Finite(0)), Scalar::Finite(SCALE));
}

#[test]
fn relu_clamps() {
    assert_eq!(Scalar::Finite(-5 * SCALE).relu(), Scalar::Finite(0));
    assert_eq!(Scalar::Finite(5 * SCALE).relu(), Scalar::Finite(5 * SCALE));
    assert_eq!(Scalar::Inf(true).relu(), Scalar::Finite(0));
    assert_eq!(Scalar::Inf(false).relu(), Scalar::Inf(false));
    assert_eq!(Scalar::Nan.relu(), Scalar::Finite(0));
}

#[test]
fn tanh_at_zero_is_zero() {
    assert_eq!(Scalar::Finite(0).tanh(), Scalar::Finite(0));
}

#[test]
fn tanh_is_odd() {
    let x = Scalar::Finite(3 * SCALE / 4);
    let nx = Scalar::Finite(-3 * SCALE / 4);
    let t = x.tanh();
    let nt = nx.tanh();
    match (t, nt) {
        (Scalar::Finite(a), Scalar::Finite(b)) => assert_eq!(a, -b),
        _ => panic!("tanh of a finite value must be finite"),
    }
}

#[test]
fn tanh_matches_reference_values() {
    for &x in &[0.125f64, 0.5, 1.0, 2.0, 3.5, 7.0] {
        let payload = (x * SCALE as f64) as i64;
        let t = to_f64(Scalar::Finite(payload).tanh());
        let want = x.tanh();
        assert!((t - want).abs() < 1e-4, "tanh({x}): got {t}, want {want}");
    }
}

#[test]
fn tanh_saturates_far_out() {
    assert_eq!(Scalar::Finite(20 * SCALE).tanh(), Scalar::Finite(SCALE));
    assert_eq!(Scalar::Finite(-20 * SCALE).tanh(), Scalar::Finite(-SCALE));
    assert_eq!(Scalar::Inf(false).tanh(), Scalar::Finite(SCALE));
    assert_eq!(Scalar::Inf(true).tanh(), Scalar::Finite(-SCALE));
    assert_eq!(Scalar::Nan.tanh(), Scalar::Nan);
}
