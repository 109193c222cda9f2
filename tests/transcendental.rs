use fixed_transcendental::consts::{E_BITS, FRAC_PI_2_BITS, FRAC_PI_4_BITS, PI_BITS, TWO_PI_BITS};
use fixed_transcendental::{asin, cos, exp, ln, log2, pow, rs, sin, sqrt, tan, Fixed, Format};

fn i9f23() -> Format {
    Format { int_nbits: 9, frac_nbits: 23 }
}

fn i32f32() -> Format {
    Format { int_nbits: 32, frac_nbits: 32 }
}

fn scale(f: Format) -> f64 {
    2f64.powi(f.frac_nbits as i32)
}

/// The value nearest to `v` in format `f`.
fn num(v: f64, f: Format) -> Fixed {
    Fixed::from_bits((v * scale(f)).round() as i64, f)
}

fn whole(n: i64, f: Format) -> Fixed {
    Fixed::from_int(n, f).unwrap()
}

fn c(bits: i64) -> Fixed {
    Fixed::from_bits(bits, i9f23())
}

fn neg(x: Fixed) -> Fixed {
    Fixed::from_bits(-x.bits, x.format)
}

fn add(a: Fixed, b: Fixed) -> Fixed {
    Fixed::from_bits(a.bits + b.bits, a.format)
}

fn to_f64(x: Fixed) -> f64 {
    x.bits as f64 / scale(x.format)
}

fn assert_close(actual: f64, expected: f64, epsilon: f64) {
    assert!(
        (actual - expected).abs() <= epsilon,
        "{} is not within {} of {}",
        actual,
        epsilon,
        expected
    );
}

#[test]
fn sqrt_works() {
    let d = i9f23();
    assert_eq!(sqrt(whole(4, d), d).unwrap(), whole(2, d));

    assert_close(to_f64(sqrt(whole(1, d), d).unwrap()), 1.0, 1.0e-6);
    assert_close(to_f64(sqrt(whole(0, d), d).unwrap()), 0.0, 1.0e-6);
    assert_close(to_f64(sqrt(num(0.1_f32 as f64, d), d).unwrap()), 0.316228, 1.0e-4);
    assert_close(to_f64(sqrt(whole(10, d), d).unwrap()), 3.16228, 1.0e-4);
}

#[test]
fn rs_works() {
    let d = i9f23();
    assert_eq!(to_f64(rs(whole(0, d))), 0.0);
    assert_eq!(to_f64(rs(whole(1, d))), 0.5);
    assert_eq!(to_f64(rs(whole(2, d))), 1.0);
    assert_eq!(to_f64(rs(whole(3, d))), 1.5);
    assert_eq!(to_f64(rs(whole(4, d))), 2.0);
    assert_eq!(to_f64(rs(whole(-1, d))), -0.5);
    assert_eq!(to_f64(rs(whole(-2, d))), -1.0);

    assert_eq!(rs(Fixed::from_bits(1, d)).to_bits(), 1);
    assert_eq!(rs(Fixed::from_bits(2, d)).to_bits(), 1);
    assert_eq!(rs(Fixed::from_bits(3, d)).to_bits(), 2);
    assert_eq!(rs(Fixed::from_bits(4, d)).to_bits(), 2);
}

#[test]
fn log2_works() {
    let s = i9f23();
    let d = i32f32();
    assert!(log2(whole(0, s), d).is_err());

    let one = log2(whole(1, s), d).unwrap();
    assert_eq!(one.bits, 0);
    assert_eq!(to_f64(one), 0.0);

    assert_close(to_f64(log2(whole(2, s), d).unwrap()), 1.0, 1.0e-6);
    assert_close(to_f64(log2(whole(4, s), d).unwrap()), 2.0, 1.0e-6);
    assert_close(to_f64(log2(num(3.33333, s), d).unwrap()), 1.73696, 1.0e-5);
    assert_close(to_f64(log2(num(0.11111, s), d).unwrap()), -3.16994, 1.0e-2);
}

#[test]
fn ln_works() {
    let s = i9f23();
    let d = i32f32();
    assert!(ln(whole(0, s), d).is_err());
    let one = ln(whole(1, s), d).unwrap();
    assert_eq!(one.bits, 0);
    assert_close(to_f64(ln(c(E_BITS), d).unwrap()), 1.0, 1.0e-4);
    assert_close(to_f64(ln(whole(10, s), d).unwrap()), 2.30259, 1.0e-4);
}

#[test]
fn exp_works() {
    let s = i9f23();
    let d = i32f32();
    assert_eq!(to_f64(exp(whole(0, s), d).unwrap()), 1.0);
    assert_close(to_f64(exp(whole(1, s), d).unwrap()), 2.718281828459045235_f64, 1.0e-4);
    assert_close(to_f64(exp(num(5.0, s), d).unwrap()), 148.413159, 1.0e-1);
}

#[test]
fn pow_works() {
    let s = i9f23();
    let d = i32f32();
    assert_eq!(to_f64(pow(whole(1, s), whole(2, s), d).unwrap()), 1.0);
    assert_close(to_f64(pow(whole(2, s), whole(2, s), d).unwrap()), 4.0, 1.0e-3);
    assert_close(to_f64(pow(whole(2, s), whole(3, s), d).unwrap()), 8.0, 1.0e-3);
    assert_close(to_f64(pow(num(2.9, s), num(3.1, s), d).unwrap()), 27.129, 1.0e-2);
    assert_close(to_f64(pow(num(0.001, s), whole(2, s), d).unwrap()), 0.000001, 1.0e-2);
}

#[test]
fn sin_works() {
    assert_close(to_f64(sin(whole(0, i9f23()))), 0.0, 1.0e-5);
    assert_close(to_f64(sin(c(FRAC_PI_2_BITS))), 1.0, 1.0e-5);
    assert_close(to_f64(sin(c(PI_BITS))), 0.0, 1.0e-5);
    assert_close(to_f64(sin(add(c(PI_BITS), c(FRAC_PI_2_BITS)))), -1.0, 1.0e-5);
    assert_close(to_f64(sin(c(TWO_PI_BITS))), 0.0, 1.0e-5);
    assert_close(to_f64(sin(c(FRAC_PI_4_BITS))), 0.707107, 1.0e-1);
    assert_close(to_f64(sin(neg(c(FRAC_PI_2_BITS)))), -1.0, 1.0e-1);
    assert_close(to_f64(sin(neg(c(FRAC_PI_4_BITS)))), -0.707107, 1.0e-1);
    assert_close(to_f64(sin(add(c(PI_BITS), c(FRAC_PI_4_BITS)))), -0.707107, 1.0e-1);
    assert_close(to_f64(sin(whole(2, i9f23()))), 0.909297, 1.0e-5);
    assert_close(to_f64(sin(neg(whole(2, i9f23())))), -0.909297, 1.0e-5);
}

#[test]
fn cos_works() {
    assert_close(to_f64(cos(whole(0, i9f23()))), 1.0, 1.0e-5);
}

#[test]
fn tan_works() {
    assert_close(to_f64(tan(whole(0, i9f23()))), 0.0, 1.0e-5);
    assert_close(to_f64(tan(whole(1, i9f23()))), 1.55741, 1.0e-5);
}
