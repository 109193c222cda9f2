use fixed_transcendental::consts::E_BITS;
use fixed_transcendental::{asin, cos, exp, ln, log2, pow, sin, sqrt, tan, Fixed, Format};

fn fmt(int_nbits: u32, frac_nbits: u32) -> Format {
    Format { int_nbits, frac_nbits }
}

fn scale(f: Format) -> f64 {
    2f64.powi(f.frac_nbits as i32)
}

fn num(v: f64, f: Format) -> Fixed {
    Fixed::from_bits((v * scale(f)).round() as i64, f)
}

fn whole(n: i64, f: Format) -> Fixed {
    Fixed::from_int(n, f).unwrap()
}

fn to_f64(x: Fixed) -> f64 {
    x.bits as f64 / scale(x.format)
}

#[test]
fn sqrt_rejects_negatives() {
    let d = fmt(9, 23);
    assert!(sqrt(whole(-1, d), d).is_err());
    assert!(sqrt(Fixed::from_bits(-1, d), d).is_err());
    assert!(sqrt(whole(-256, d), d).is_err());
}

#[test]
fn sqrt_squares_back_within_last_bit() {
    let d = fmt(9, 23);
    let lsb = 1.0 / scale(d);
    for x in [0.1, 10.0] {
        let input = num(x, d);
        let r = to_f64(sqrt(input, d).unwrap());
        assert!((r - to_f64(input).sqrt()).abs() <= lsb, "sqrt({}) = {}", x, r);
    }
}

#[test]
fn sqrt_of_one_is_exact() {
    let d = fmt(32, 32);
    assert_eq!(sqrt(whole(1, fmt(9, 23)), d).unwrap(), whole(1, d));
}

#[test]
fn sqrt_fails_when_reciprocal_overflows() {
    let d = fmt(9, 23);
    assert!(sqrt(Fixed::from_bits(1, d), d).is_err());
}

#[test]
fn sqrt_fails_when_value_does_not_fit_destination() {
    assert!(sqrt(whole(1000, fmt(32, 32)), fmt(9, 23)).is_err());
}

#[test]
fn log2_rejects_non_positive() {
    let d = fmt(32, 32);
    assert!(log2(whole(-3, fmt(9, 23)), d).is_err());
    assert!(log2(Fixed::from_bits(-1, fmt(9, 23)), d).is_err());
}

#[test]
fn log2_of_powers_of_two_is_exact() {
    let d = fmt(32, 32);
    assert_eq!(log2(whole(2, fmt(9, 23)), d).unwrap(), whole(1, d));
    assert_eq!(log2(whole(4, fmt(9, 23)), d).unwrap(), whole(2, d));
    assert_eq!(log2(whole(128, fmt(9, 23)), d).unwrap(), whole(7, d));
}

#[test]
fn log2_of_a_ninth() {
    let r = to_f64(log2(num(1.0 / 9.0, fmt(9, 23)), fmt(32, 32)).unwrap());
    assert!((r + 3.16993).abs() <= 1.0e-2);
}

#[test]
fn log2_precision_follows_fractional_bits() {
    for frac in [8u32, 16, 24, 32] {
        let d = fmt(32, frac);
        let r = to_f64(log2(whole(3, fmt(9, 23)), d).unwrap());
        let err = (r - 3f64.log2()).abs();
        assert!(err <= 4.0 / scale(d), "frac {}: error {}", frac, err);
    }
}

#[test]
fn exp_precision_follows_fractional_bits() {
    let coarse = to_f64(exp(num(0.5, fmt(9, 23)), fmt(32, 8)).unwrap());
    let fine = to_f64(exp(num(0.5, fmt(9, 23)), fmt(32, 32)).unwrap());
    let truth = 0.5f64.exp();
    assert!((fine - truth).abs() < (coarse - truth).abs() + 1.0e-12);
    assert!((fine - truth).abs() <= 1.0e-6);
}

#[test]
fn ln_rejects_non_positive() {
    let d = fmt(32, 32);
    assert!(ln(whole(0, fmt(9, 23)), d).is_err());
    assert!(ln(whole(-2, fmt(9, 23)), d).is_err());
}

#[test]
fn ln_of_e_and_ten() {
    let d = fmt(32, 32);
    let e = Fixed::from_bits(E_BITS, fmt(9, 23));
    assert!((to_f64(ln(e, d).unwrap()) - 1.0).abs() <= 1.0e-4);
    assert!((to_f64(ln(whole(10, fmt(9, 23)), d).unwrap()) - 2.30259).abs() <= 1.0e-4);
}

#[test]
fn exp_of_one_is_the_constant() {
    let d = fmt(9, 23);
    assert_eq!(exp(whole(1, d), d).unwrap().bits, E_BITS);
}

#[test]
fn exp_of_negative_is_reciprocal() {
    let r = to_f64(exp(whole(-1, fmt(9, 23)), fmt(32, 32)).unwrap());
    assert!((r - (-1f64).exp()).abs() <= 1.0e-4);
    let r = to_f64(exp(num(-2.5, fmt(9, 23)), fmt(32, 32)).unwrap());
    assert!((r - (-2.5f64).exp()).abs() <= 1.0e-4);
}

#[test]
fn exp_of_five() {
    let r = to_f64(exp(whole(5, fmt(9, 23)), fmt(32, 32)).unwrap());
    assert!((r - 148.413159).abs() <= 0.1);
}

#[test]
fn exp_fails_on_overflow() {
    let d = fmt(9, 23);
    assert!(exp(whole(10, d), d).is_err());
}

#[test]
fn pow_with_zero_exponent_returns_base() {
    let s = fmt(9, 23);
    let d = fmt(32, 32);
    let r = pow(num(2.5, s), whole(0, s), d).unwrap();
    assert_eq!(to_f64(r), 2.5);
}

#[test]
fn pow_with_negative_exponent_returns_zero() {
    let s = fmt(9, 23);
    let d = fmt(32, 32);
    assert_eq!(pow(whole(2, s), whole(-1, s), d).unwrap(), whole(0, d));
}

#[test]
fn pow_of_small_base() {
    let s = fmt(9, 23);
    let r = to_f64(pow(num(0.001, s), whole(2, s), fmt(32, 32)).unwrap());
    assert!((r - 1.0e-6).abs() <= 1.0e-2);
    let r = to_f64(pow(num(2.9, s), num(3.1, s), fmt(32, 32)).unwrap());
    assert!((r - 27.129).abs() <= 1.0e-2);
}

#[test]
fn sin_is_odd_on_representative_angles() {
    for v in [0.3, 1.0, 2.0, 2.5, 3.0, 4.0] {
        let a = num(v, fmt(9, 23));
        let b = num(-v, fmt(9, 23));
        let d = (to_f64(sin(a)) + to_f64(sin(b))).abs();
        assert!(d <= 1.0e-5, "sin({}) and sin(-{}) differ by {}", v, v, d);
    }
}

#[test]
fn sin_reduces_large_angles() {
    let a = to_f64(sin(num(1.0 + 6.0 * std::f64::consts::PI, fmt(9, 23))));
    assert!((a - 1f64.sin()).abs() <= 1.0e-4);
    let a = to_f64(sin(num(-1.0 - 10.0 * std::f64::consts::PI, fmt(9, 23))));
    assert!((a + 1f64.sin()).abs() <= 1.0e-4);
}

#[test]
fn cos_and_tan_at_zero() {
    let z = whole(0, fmt(9, 23));
    assert!((to_f64(cos(z)) - 1.0).abs() <= 1.0e-5);
    assert!(to_f64(tan(z)).abs() <= 1.0e-5);
}

#[test]
fn tan_of_one() {
    assert!((to_f64(tan(whole(1, fmt(9, 23)))) - 1.55741).abs() <= 1.0e-5);
}

#[test]
fn asin_returns_its_argument() {
    let a = num(0.01, fmt(9, 23));
    assert_eq!(asin(a), a);
}
