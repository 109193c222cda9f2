//! Square root, logarithms, exponential, power and the trigonometric functions.
//!
//! Each public function is stated by a spec function over the bits of its
//! argument; the iterative kernels take exactly as many steps as the
//! destination format has fractional bits (the rotation kernel a fixed 24).
use vstd::prelude::*;
use vstd::arithmetic::power2::{
    pow2,
    lemma_pow2_pos,
    lemma_pow2_adds,
    lemma_pow2_unfold,
    lemma_pow2_strictly_increases,
    lemma2_to64,
    lemma2_to64_rest,
};
use vstd::arithmetic::div_mod::{
    lemma_fundamental_div_mod,
    lemma_fundamental_div_mod_converse,
    lemma_div_by_multiple,
    lemma_div_is_ordered,
};
use vstd::bits::lemma_u128_shr_is_div;
use crate::fixed::{Fixed, Format, lift, convert_spec, lemma_bounds, lemma_product_bound, shr_floor};
use crate::consts::{
    arctan_table,
    arctan_angle,
    E_BITS,
    LOG2_E_BITS,
    PI_BITS,
    TWO_PI_BITS,
    FRAC_PI_2_BITS,
    GAIN_INV_BITS,
};

verus! {

/// Whether `r` is the value that `s` describes in format `dst`, or the failure
/// when `s` is nothing.
pub open spec fn outcome(r: Result<Fixed, ()>, s: Option<int>, dst: Format) -> bool {
    match r {
        Ok(y) => s == Some(y.bits as int) && y.format == dst && y.wf(),
        Err(_) => s is None,
    }
}

/// Halving rounded half up: `v / 2` rounded to the nearest integer, ties
/// upward.
pub open spec fn rs_spec(v: int) -> int {
    (v + 1) / 2
}

/// Right shift by one with rounding: halves `operand` and rounds half a unit
/// in the last place upward.
pub fn rs(operand: Fixed) -> (r: Fixed)
    requires
        operand.wf(),
    ensures
        r.format == operand.format,
        r.bits == rs_spec(operand.bits as int),
        r.wf(),
{
    Fixed { bits: rs_bits(operand.bits), format: operand.format }
}

fn rs_bits(v: i64) -> (r: i64)
    ensures
        r == rs_spec(v as int),
{
    proof {
        lemma2_to64();
    }
    shr_floor(v as i128 + 1, 1) as i64
}

proof fn lemma_convert_zero(src: Format, dst: Format)
    requires
        dst.wf(),
    ensures
        convert_spec(src, dst, 0) == Some(0int),
{
    lemma_bounds(dst);
    if dst.frac_nbits < src.frac_nbits {
        lemma_pow2_pos((src.frac_nbits - dst.frac_nbits) as nat);
    }
}

proof fn lemma_reciprocal_nonneg(fmt: Format, v: int)
    requires
        fmt.wf(),
        v >= 0,
    ensures
        fmt.div_spec(fmt.one(), v) matches Some(w) ==> w >= 0,
{
    lemma_bounds(fmt);
    let o = fmt.one();
    assert(o * o >= 0) by (nonlinear_arith)
        requires
            o >= 1,
    ;
    if v > 0 {
        let n = o * o;
        assert(n / v >= 0) by (nonlinear_arith)
            requires
                n >= 0,
                v > 0,
        ;
    }
}

proof fn lemma_convert_nonneg(src: Format, dst: Format, x: int)
    requires
        x >= 0,
    ensures
        convert_spec(src, dst, x) matches Some(v) ==> v >= 0,
{
    if dst.frac_nbits >= src.frac_nbits {
        let p = pow2((dst.frac_nbits - src.frac_nbits) as nat) as int;
        assert(x * p >= 0) by (nonlinear_arith)
            requires
                x >= 0,
                p >= 0,
        ;
    } else {
        let p = (src.frac_nbits - dst.frac_nbits) as nat;
        lemma_pow2_pos(p);
        let d = pow2(p) as int;
        assert(x / d >= 0) by (nonlinear_arith)
            requires
                x >= 0,
                d > 0,
        ;
    }
}

proof fn lemma_convert_one(src: Format, dst: Format)
    requires
        src.wf(),
        dst.wf(),
    ensures
        convert_spec(src, dst, src.one()) == Some(dst.one()),
{
    lemma_bounds(dst);
    if dst.frac_nbits >= src.frac_nbits {
        lemma_pow2_adds(src.frac(), (dst.frac_nbits - src.frac_nbits) as nat);
    } else {
        let k = (src.frac_nbits - dst.frac_nbits) as nat;
        lemma_pow2_adds(dst.frac(), k);
        lemma_pow2_pos(k);
        lemma_div_by_multiple(dst.one(), pow2(k) as int);
    }
}

/// A 9.23 constant in `[1, 4)` reads as a value of at least one in every
/// format.
proof fn lemma_convert_constant(dst: Format, c: int)
    requires
        dst.wf(),
        0x80_0000 <= c < 0x200_0000,
    ensures
        convert_spec(Format::i9f23_spec(), dst, c) matches Some(v) && v >= 1,
{
    lemma_bounds(dst);
    lemma2_to64();
    let one = dst.one();
    if dst.frac_nbits >= 23 {
        let k = (dst.frac_nbits - 23) as nat;
        lemma_pow2_adds(23, k);
        lemma_pow2_pos(k);
        let p = pow2(k) as int;
        assert(one <= c * p < 4 * one) by (nonlinear_arith)
            requires
                one == 0x80_0000 * p,
                p >= 1,
                0x80_0000 <= c < 0x200_0000,
        ;
    } else {
        let k = (23 - dst.frac_nbits) as nat;
        lemma_pow2_adds(dst.frac(), k);
        lemma_pow2_pos(k);
        let p = pow2(k) as int;
        lemma_div_by_multiple(one, p);
        let q = 4 * one;
        assert(one * p == 0x80_0000);
        assert(q * p == 0x200_0000) by (nonlinear_arith)
            requires
                one * p == 0x80_0000,
                q == 4 * one,
        ;
        lemma_div_is_ordered(one * p, c, p);
        lemma_div_is_ordered(c, q * p - 1, p);
        assert(q * p - 1 == (q - 1) * p + (p - 1)) by (nonlinear_arith);
        lemma_fundamental_div_mod_converse(q * p - 1, p, q - 1, p - 1);
    }
}

// ---------------------------------------------------------------- square root

/// `n` Newton steps `l <- (l + w / l) / 2` toward the square root of `w`.
pub open spec fn newton_steps(fmt: Format, w: int, l: int, n: nat) -> Option<int>
    decreases n,
{
    if n == 0 {
        Some(l)
    } else {
        match fmt.div_spec(w, l) {
            None => None,
            Some(q) => match fmt.add_spec(l, q) {
                None => None,
                Some(s) => match fmt.div_spec(s, 2 * fmt.one()) {
                    None => None,
                    Some(l2) => newton_steps(fmt, w, l2, (n - 1) as nat),
                },
            },
        }
    }
}

/// Newton's method from `w / 2 + 1`, for `n` steps.
pub open spec fn newton_sqrt(fmt: Format, w: int, n: nat) -> Option<int> {
    match fmt.div_spec(w, 2 * fmt.one()) {
        None => None,
        Some(h) => match fmt.add_spec(h, fmt.one()) {
            None => None,
            Some(l0) => newton_steps(fmt, w, l0, n),
        },
    }
}

/// The square root of `x` (bits of `src`) in `dst`: zero and one as they are,
/// below one through the reciprocal, one Newton step per fractional bit of
/// `dst`.
pub open spec fn sqrt_spec(src: Format, x: int, dst: Format) -> Option<int> {
    if x < 0 {
        None
    } else {
        match convert_spec(src, dst, x) {
            None => None,
            Some(v) => if v == 0 || v == dst.one() {
                Some(v)
            } else if v < dst.one() {
                match dst.div_spec(dst.one(), v) {
                    None => None,
                    Some(w) => match newton_sqrt(dst, w, dst.frac()) {
                        None => None,
                        Some(l) => dst.div_spec(dst.one(), l),
                    },
                }
            } else {
                newton_sqrt(dst, v, dst.frac())
            },
        }
    }
}

fn newton_sqrt_bits(fmt: Format, w: i64) -> (r: Option<i64>)
    requires
        fmt.wf(),
    ensures
        lift(r) == newton_sqrt(fmt, w as int, fmt.frac()),
        r matches Some(l) ==> fmt.fits(l as int),
{
    proof {
        lemma_bounds(fmt);
    }
    let one = fmt.one_bits();
    let two = 2 * one;
    let h = match fmt.checked_div(w, two) {
        Some(h) => h,
        None => return None,
    };
    let mut l = match fmt.checked_add(h, one) {
        Some(l) => l,
        None => return None,
    };
    let n = fmt.frac_nbits();
    let mut i: u32 = 0;
    while i < n
        invariant
            fmt.wf(),
            two == 2 * fmt.one(),
            n == fmt.frac_nbits,
            i <= n,
            fmt.fits(l as int),
            newton_sqrt(fmt, w as int, fmt.frac()) == newton_steps(
                fmt,
                w as int,
                l as int,
                (n - i) as nat,
            ),
        decreases n - i,
    {
        let q = match fmt.checked_div(w, l) {
            Some(q) => q,
            None => return None,
        };
        let s = match fmt.checked_add(l, q) {
            Some(s) => s,
            None => return None,
        };
        l = match fmt.checked_div(s, two) {
            Some(l2) => l2,
            None => return None,
        };
        i = i + 1;
    }
    Some(l)
}

/// Square root of `operand`, computed in and returned in `dst`.
pub fn sqrt(operand: Fixed, dst: Format) -> (r: Result<Fixed, ()>)
    requires
        operand.wf(),
        dst.wf(),
    ensures
        outcome(r, sqrt_spec(operand.format, operand.bits as int, dst), dst),
        operand.bits < 0 ==> r is Err,
        operand.bits == 0 ==> r == Ok::<Fixed, ()>(Fixed { bits: 0, format: dst }),
        operand.bits == operand.format.one() ==> r == Ok::<Fixed, ()>(
            Fixed { bits: dst.one() as i64, format: dst },
        ),
{
    if operand.bits < 0 {
        return Err(());
    }
    proof {
        lemma_bounds(dst);
        lemma_convert_zero(operand.format, dst);
        lemma_convert_one(operand.format, dst);
    }
    let v = match dst.convert_from(operand.format, operand.bits) {
        Some(v) => v,
        None => return Err(()),
    };
    let one = dst.one_bits();
    if v == 0 || v == one {
        return Ok(Fixed { bits: v, format: dst });
    }
    let l = if v < one {
        let w = match dst.checked_div(one, v) {
            Some(w) => w,
            None => return Err(()),
        };
        let l = match newton_sqrt_bits(dst, w) {
            Some(l) => l,
            None => return Err(()),
        };
        match dst.checked_div(one, l) {
            Some(l) => l,
            None => return Err(()),
        }
    } else {
        match newton_sqrt_bits(dst, v) {
            Some(l) => l,
            None => return Err(()),
        }
    };
    Ok(Fixed { bits: l, format: dst })
}

// ---------------------------------------------------------------- logarithm

/// Halves `x` (rounding half up) while it is at least `two`, counting the
/// halvings on top of `k`; returns the count and what is left of `x`.
pub open spec fn halvings(x: int, two: int, k: nat) -> (nat, int)
    decreases x,
{
    if x >= two && x >= 2 {
        halvings(rs_spec(x), two, k + 1)
    } else {
        (k, x)
    }
}

/// `n` steps of the binary logarithm by squaring: each squares `x` and appends
/// one bit to `r`, set (and `x` halved) when the square reaches two.
pub open spec fn log2_frac_steps(fmt: Format, x: int, r: int, n: nat) -> Option<int>
    decreases n,
{
    if n == 0 {
        Some(r)
    } else {
        match fmt.mul_spec(x, x) {
            None => None,
            Some(sq) => if sq >= 2 * fmt.one() {
                match fmt.checked(2 * r + 1) {
                    None => None,
                    Some(r2) => log2_frac_steps(fmt, rs_spec(sq), r2, (n - 1) as nat),
                }
            } else {
                match fmt.checked(2 * r) {
                    None => None,
                    Some(r2) => log2_frac_steps(fmt, sq, r2, (n - 1) as nat),
                }
            },
        }
    }
}

/// Base-2 logarithm of `v >= 1`: the integer part by halving, then `n`
/// fractional bits.
pub open spec fn log2_inner_spec(fmt: Format, v: int, n: nat) -> Option<int> {
    let (k, x) = halvings(v, 2 * fmt.one(), 0);
    if x == fmt.one() {
        fmt.checked(k * fmt.one())
    } else {
        log2_frac_steps(fmt, x, k as int, n)
    }
}

/// Base-2 logarithm of `x` (bits of `src`) in `dst`, with one fractional bit
/// refined per fractional bit of `dst`; below one as `-log2(1 / x)`.
pub open spec fn log2_spec(src: Format, x: int, dst: Format) -> Option<int> {
    if x <= 0 {
        None
    } else {
        match convert_spec(src, dst, x) {
            None => None,
            Some(v) => if v < dst.one() {
                match dst.div_spec(dst.one(), v) {
                    None => None,
                    Some(w) => match log2_inner_spec(dst, w, dst.frac()) {
                        None => None,
                        Some(l) => dst.checked(-l),
                    },
                }
            } else {
                log2_inner_spec(dst, v, dst.frac())
            },
        }
    }
}

fn log2_inner(fmt: Format, v: i64) -> (r: Option<i64>)
    requires
        fmt.wf(),
        fmt.fits(v as int),
        v >= 0,
    ensures
        lift(r) == log2_inner_spec(fmt, v as int, fmt.frac()),
        r matches Some(l) ==> fmt.fits(l as int),
{
    proof {
        lemma_bounds(fmt);
    }
    let one = fmt.one_bits();
    let two = 2 * one;
    let mut x = v;
    let mut k: i64 = 0;
    while x >= two && x >= 2
        invariant
            fmt.wf(),
            two == 2 * fmt.one(),
            0 <= k,
            0 <= x,
            k + x <= v,
            fmt.fits(x as int),
            halvings(v as int, two as int, 0) == halvings(x as int, two as int, k as nat),
        decreases x,
    {
        x = rs_bits(x);
        k = k + 1;
    }
    if x == one {
        proof {
            lemma_product_bound(k as int, one as int);
        }
        return fmt.check_range(k as i128 * one as i128);
    }
    let mut r: i64 = k;
    let n = fmt.frac_nbits();
    let mut i: u32 = 0;
    while i < n
        invariant
            fmt.wf(),
            two == 2 * fmt.one(),
            n == fmt.frac_nbits,
            i <= n,
            fmt.fits(x as int),
            fmt.fits(r as int),
            log2_inner_spec(fmt, v as int, fmt.frac()) == log2_frac_steps(
                fmt,
                x as int,
                r as int,
                (n - i) as nat,
            ),
        decreases n - i,
    {
        let sq = match fmt.checked_mul(x, x) {
            Some(sq) => sq,
            None => return None,
        };
        if sq >= two {
            r = match fmt.check_range(2 * r as i128 + 1) {
                Some(r2) => r2,
                None => return None,
            };
            x = rs_bits(sq);
        } else {
            r = match fmt.check_range(2 * r as i128) {
                Some(r2) => r2,
                None => return None,
            };
            x = sq;
        }
        i = i + 1;
    }
    Some(r)
}

/// Base-2 logarithm of `operand`, computed in and returned in `dst`. Fails
/// for `operand <= 0`.
pub fn log2(operand: Fixed, dst: Format) -> (r: Result<Fixed, ()>)
    requires
        operand.wf(),
        dst.wf(),
    ensures
        outcome(r, log2_spec(operand.format, operand.bits as int, dst), dst),
        operand.bits <= 0 ==> r is Err,
        operand.bits == operand.format.one() ==> r == Ok::<Fixed, ()>(
            Fixed { bits: 0, format: dst },
        ),
{
    proof {
        lemma_bounds(operand.format);
    }
    if operand.bits <= 0 {
        return Err(());
    }
    proof {
        lemma_bounds(dst);
        assert(0 * dst.one() == 0);
        lemma_convert_one(operand.format, dst);
        assert(halvings(dst.one(), 2 * dst.one(), 0) == (0nat, dst.one()));
        lemma_convert_nonneg(operand.format, dst, operand.bits as int);
    }
    let v = match dst.convert_from(operand.format, operand.bits) {
        Some(v) => v,
        None => return Err(()),
    };
    let one = dst.one_bits();
    let l = if v < one {
        let w = match dst.checked_div(one, v) {
            Some(w) => w,
            None => return Err(()),
        };
        proof {
            lemma_reciprocal_nonneg(dst, v as int);
        }
        let l = match log2_inner(dst, w) {
            Some(l) => l,
            None => return Err(()),
        };
        match dst.checked_sub(0, l) {
            Some(l) => l,
            None => return Err(()),
        }
    } else {
        match log2_inner(dst, v) {
            Some(l) => l,
            None => return Err(()),
        }
    };
    Ok(Fixed { bits: l, format: dst })
}

/// Natural logarithm of `x` (bits of `src`) in `dst`: `log2(x) / log2(e)`.
pub open spec fn ln_spec(src: Format, x: int, dst: Format) -> Option<int> {
    match log2_spec(src, x, dst) {
        None => None,
        Some(l) => match convert_spec(Format::i9f23_spec(), dst, LOG2_E_BITS as int) {
            None => None,
            Some(c) => dst.div_spec(l, c),
        },
    }
}

/// Natural logarithm of `operand`, computed in and returned in `dst`. Fails
/// for `operand <= 0`.
pub fn ln(operand: Fixed, dst: Format) -> (r: Result<Fixed, ()>)
    requires
        operand.wf(),
        dst.wf(),
    ensures
        outcome(r, ln_spec(operand.format, operand.bits as int, dst), dst),
        operand.bits <= 0 ==> r is Err,
        operand.bits == operand.format.one() ==> r == Ok::<Fixed, ()>(
            Fixed { bits: 0, format: dst },
        ),
{
    proof {
        lemma_convert_constant(dst, LOG2_E_BITS as int);
    }
    let l = match log2(operand, dst) {
        Ok(l) => l,
        Err(()) => return Err(()),
    };
    let c = match dst.convert_from(Format::i9f23(), LOG2_E_BITS) {
        Some(c) => c,
        None => return Err(()),
    };
    match dst.checked_div(l.bits, c) {
        Some(b) => Ok(Fixed { bits: b, format: dst }),
        None => Err(()),
    }
}

// ---------------------------------------------------------------- exponential

/// Taylor terms `i` up to `n - 1` of `exp(v)`: each term is the previous one
/// times `v / i`, added to `sum`.
pub open spec fn taylor_steps(fmt: Format, v: int, term: int, sum: int, i: nat, n: nat) -> Option<int>
    decreases n - i,
{
    if i >= n {
        Some(sum)
    } else {
        match fmt.mul_spec(term, v) {
            None => None,
            Some(t1) => match fmt.checked(i * fmt.one()) {
                None => None,
                Some(iv) => match fmt.div_spec(t1, iv) {
                    None => None,
                    Some(t2) => match fmt.add_spec(sum, t2) {
                        None => None,
                        Some(s2) => taylor_steps(fmt, v, t2, s2, i + 1, n),
                    },
                },
            },
        }
    }
}

/// `exp(v)` for `v >= 0` as the first `n` terms of its Taylor series.
pub open spec fn taylor_exp(fmt: Format, v: int, n: nat) -> Option<int> {
    match fmt.add_spec(v, fmt.one()) {
        None => None,
        Some(s0) => taylor_steps(fmt, v, v, s0, 2, n),
    }
}

/// `e^x` for `x` (bits of `src`) in `dst`: one for zero, the constant e for
/// one, a Taylor series of as many terms as `dst` has fractional bits, and the
/// reciprocal for negative `x`.
pub open spec fn exp_spec(src: Format, x: int, dst: Format) -> Option<int> {
    if x == 0 {
        Some(dst.one())
    } else if x == src.one() {
        convert_spec(Format::i9f23_spec(), dst, E_BITS as int)
    } else {
        match src.checked(if x < 0 { -x } else { x }) {
            None => None,
            Some(a) => match convert_spec(src, dst, a) {
                None => None,
                Some(v) => match taylor_exp(dst, v, dst.frac()) {
                    None => None,
                    Some(s) => if x < 0 {
                        dst.div_spec(dst.one(), s)
                    } else {
                        Some(s)
                    },
                },
            },
        }
    }
}

fn taylor_exp_bits(fmt: Format, v: i64) -> (r: Option<i64>)
    requires
        fmt.wf(),
    ensures
        lift(r) == taylor_exp(fmt, v as int, fmt.frac()),
        r matches Some(s) ==> fmt.fits(s as int),
{
    proof {
        lemma_bounds(fmt);
    }
    let one = fmt.one_bits();
    let mut sum = match fmt.checked_add(v, one) {
        Some(s) => s,
        None => return None,
    };
    let mut term = v;
    let n = fmt.frac_nbits();
    let mut i: u32 = 2;
    while i < n
        invariant
            fmt.wf(),
            n == fmt.frac_nbits,
            2 <= i,
            fmt.fits(sum as int),
            taylor_exp(fmt, v as int, fmt.frac()) == taylor_steps(
                fmt,
                v as int,
                term as int,
                sum as int,
                i as nat,
                n as nat,
            ),
        decreases n - i,
    {
        let t1 = match fmt.checked_mul(term, v) {
            Some(t) => t,
            None => return None,
        };
        let iv = match fmt.int_bits(i as i64) {
            Some(iv) => iv,
            None => return None,
        };
        let t2 = match fmt.checked_div(t1, iv) {
            Some(t) => t,
            None => return None,
        };
        sum = match fmt.checked_add(sum, t2) {
            Some(s) => s,
            None => return None,
        };
        term = t2;
        i = i + 1;
    }
    Some(sum)
}

fn exp_bits(src: Format, x: i64, dst: Format) -> (r: Option<i64>)
    requires
        src.wf(),
        dst.wf(),
    ensures
        lift(r) == exp_spec(src, x as int, dst),
        r matches Some(s) ==> dst.fits(s as int),
{
    proof {
        lemma_bounds(dst);
    }
    let one = dst.one_bits();
    if x == 0 {
        return Some(one);
    }
    if x == src.one_bits() {
        return dst.convert_from(Format::i9f23(), E_BITS);
    }
    let neg = x < 0;
    let a = if neg {
        match src.checked_sub(0, x) {
            Some(a) => a,
            None => return None,
        }
    } else {
        match src.check_range(x as i128) {
            Some(a) => a,
            None => return None,
        }
    };
    let v = match dst.convert_from(src, a) {
        Some(v) => v,
        None => return None,
    };
    let s = match taylor_exp_bits(dst, v) {
        Some(s) => s,
        None => return None,
    };
    if neg {
        dst.checked_div(one, s)
    } else {
        Some(s)
    }
}

/// `e^operand`, computed in and returned in `dst`.
pub fn exp(operand: Fixed, dst: Format) -> (r: Result<Fixed, ()>)
    requires
        operand.wf(),
        dst.wf(),
    ensures
        outcome(r, exp_spec(operand.format, operand.bits as int, dst), dst),
        operand.bits == 0 ==> r == Ok::<Fixed, ()>(Fixed { bits: dst.one() as i64, format: dst }),
        operand.bits == operand.format.one() ==> outcome(
            r,
            convert_spec(Format::i9f23_spec(), dst, E_BITS as int),
            dst,
        ),
        operand.bits == operand.format.one() ==> r is Ok,
{
    proof {
        lemma_bounds(operand.format);
        lemma_convert_constant(dst, E_BITS as int);
    }
    match exp_bits(operand.format, operand.bits, dst) {
        Some(b) => Ok(Fixed { bits: b, format: dst }),
        None => Err(()),
    }
}

// ---------------------------------------------------------------- power

/// `x^e` for `x` and `e` (bits of `src`) in `dst`, as `exp(e * ln(x))`; a
/// zero exponent gives `x` itself and a negative one gives zero.
pub open spec fn pow_spec(src: Format, x: int, e: int, dst: Format) -> Option<int> {
    if e == 0 {
        convert_spec(src, dst, x)
    } else if e < 0 {
        Some(0)
    } else {
        match ln_spec(src, x, dst) {
            None => None,
            Some(l) => match convert_spec(src, dst, e) {
                None => None,
                Some(ed) => match dst.mul_spec(l, ed) {
                    None => None,
                    Some(p) => exp_spec(dst, p, dst),
                },
            },
        }
    }
}

/// `operand` to the power `exponent`, computed in and returned in `dst`.
///
/// The exponent must be positive for a power to be taken: a zero exponent
/// returns `operand` (in `dst`) and a negative one returns zero.
pub fn pow(operand: Fixed, exponent: Fixed, dst: Format) -> (r: Result<Fixed, ()>)
    requires
        operand.wf(),
        exponent.wf(),
        exponent.format == operand.format,
        dst.wf(),
    ensures
        outcome(r, pow_spec(operand.format, operand.bits as int, exponent.bits as int, dst), dst),
        exponent.bits == 0 ==> outcome(r, convert_spec(operand.format, dst, operand.bits as int), dst),
        exponent.bits < 0 ==> r == Ok::<Fixed, ()>(Fixed { bits: 0, format: dst }),
{
    proof {
        lemma_bounds(dst);
    }
    if exponent.bits == 0 {
        return match dst.convert_from(operand.format, operand.bits) {
            Some(b) => Ok(Fixed { bits: b, format: dst }),
            None => Err(()),
        };
    }
    if exponent.bits < 0 {
        return Ok(Fixed { bits: 0, format: dst });
    }
    let l = match ln(operand, dst) {
        Ok(l) => l,
        Err(()) => return Err(()),
    };
    let ed = match dst.convert_from(exponent.format, exponent.bits) {
        Some(ed) => ed,
        None => return Err(()),
    };
    let p = match dst.checked_mul(l.bits, ed) {
        Some(p) => p,
        None => return Err(()),
    };
    match exp_bits(dst, p, dst) {
        Some(b) => Ok(Fixed { bits: b, format: dst }),
        None => Err(()),
    }
}

// ---------------------------------------------------------------- step counts

proof fn lemma_convert_nonpos(src: Format, dst: Format, x: int)
    requires
        x <= 0,
    ensures
        convert_spec(src, dst, x) matches Some(v) ==> v <= 0,
{
    if dst.frac_nbits >= src.frac_nbits {
        let p = pow2((dst.frac_nbits - src.frac_nbits) as nat) as int;
        assert(x * p <= 0) by (nonlinear_arith)
            requires
                x <= 0,
                p >= 0,
        ;
    } else {
        let p = (src.frac_nbits - dst.frac_nbits) as nat;
        lemma_pow2_pos(p);
        let d = pow2(p) as int;
        assert(x / d <= 0) by (nonlinear_arith)
            requires
                x <= 0,
                d > 0,
        ;
    }
}

/// The refining kernels take as many steps as the destination format has
/// fractional bits. For an argument `x` (bits of `src`) that is above one
/// once read in `dst`, where `F` is `dst`'s fractional width: the square root
/// is `F` Newton steps, the base-2 logarithm refines `F` fractional bits, and
/// the exponential (for `x` other than one) sums `F` Taylor terms.
pub proof fn lemma_steps_follow_format(src: Format, x: int, dst: Format)
    requires
        src.wf(),
        dst.wf(),
        src.fits(x),
        convert_spec(src, dst, x) matches Some(v) && v > dst.one(),
    ensures
        sqrt_spec(src, x, dst) == newton_sqrt(
            dst,
            convert_spec(src, dst, x)->Some_0,
            dst.frac_nbits as nat,
        ),
        log2_spec(src, x, dst) == log2_inner_spec(
            dst,
            convert_spec(src, dst, x)->Some_0,
            dst.frac_nbits as nat,
        ),
        x != src.one() ==> exp_spec(src, x, dst) == taylor_exp(
            dst,
            convert_spec(src, dst, x)->Some_0,
            dst.frac_nbits as nat,
        ),
{
    lemma_bounds(dst);
    if x <= 0 {
        lemma_convert_nonpos(src, dst, x);
    }
}

// ---------------------------------------------------------------- trigonometry

/// Steps of the rotation kernel; the later entries of the arctangent table
/// are not consulted.
pub const CORDIC_STEPS: u32 = 24;

/// Entry `i` of the arctangent table narrowed to the 9.23 format.
pub open spec fn narrow_angle(i: u32) -> int {
    arctan_table(i) as int / pow2(105) as int
}

/// Rotation from step `i` on: rotate `(x, y)` by `-+arctan(2^-i)` toward a
/// residual angle `z` of zero.
pub open spec fn cordic(x: int, y: int, z: int, i: nat) -> (int, int)
    decreases CORDIC_STEPS - i,
{
    if i >= CORDIC_STEPS {
        (x, y)
    } else {
        let xs = x / pow2(i) as int;
        let ys = y / pow2(i) as int;
        if z < 0 {
            cordic(x + ys, y - xs, z + narrow_angle(i as u32), i + 1)
        } else {
            cordic(x - ys, y + xs, z - narrow_angle(i as u32), i + 1)
        }
    }
}

/// Subtracts `2 pi` while the angle is above `pi`.
pub open spec fn wrap_down(a: int) -> int
    decreases a + PI_BITS,
{
    if a > PI_BITS {
        wrap_down(a - TWO_PI_BITS)
    } else {
        a
    }
}

/// Adds `2 pi` while the angle is below `-pi`.
pub open spec fn wrap_up(a: int) -> int
    decreases PI_BITS - a,
{
    if a < -PI_BITS {
        wrap_up(a + TWO_PI_BITS)
    } else {
        a
    }
}

/// Reflects an angle of `[-pi, pi]` into `[-pi/2, pi/2]` about `pi/2` or
/// `-pi/2`.
pub open spec fn mirror(a: int) -> int {
    let b = if a > FRAC_PI_2_BITS {
        FRAC_PI_2_BITS - (a - FRAC_PI_2_BITS)
    } else {
        a
    };
    if b < -FRAC_PI_2_BITS {
        -FRAC_PI_2_BITS - (b + FRAC_PI_2_BITS)
    } else {
        b
    }
}

/// The sine of angle bits `a` (9.23 format): the angle brought into
/// `[-pi/2, pi/2]`, then rotated from `(1 / gain, 0)`; the result is held to
/// the format's bounds.
pub open spec fn sin_spec(a: int) -> int {
    Format::i9f23_spec().saturate(cordic(GAIN_INV_BITS as int, 0, mirror(wrap_up(wrap_down(a))), 0).1)
}

/// `cos(a) = sin(a + pi/2)`.
pub open spec fn cos_spec(a: int) -> int {
    sin_spec(Format::i9f23_spec().saturate(a + FRAC_PI_2_BITS))
}

/// `tan(a) = sin(2a) / (1 + cos(2a))`, each operation saturating.
pub open spec fn tan_spec(a: int) -> int {
    let f = Format::i9f23_spec();
    let a2 = f.saturate((a * (2 * f.one())) / f.one());
    f.saturating_div_spec(sin_spec(a2), f.saturate(f.one() + cos_spec(a2)))
}

proof fn lemma_shift_bound(v: int, d: int)
    requires
        d >= 1,
    ensures
        abs_le(v / d, v),
{
    lemma_fundamental_div_mod(v, d);
    let q = v / d;
    let r = v % d;
    assert(abs_le(q, v)) by (nonlinear_arith)
        requires
            v == d * q + r,
            0 <= r < d,
            d >= 1,
    ;
}

/// `|a| <= |b|`.
pub open spec fn abs_le(a: int, b: int) -> bool {
    (if a >= 0 { a } else { -a }) <= (if b >= 0 { b } else { -b })
}

fn cordic_rotation(x0: i64, y0: i64, z0: i64) -> (r: (i128, i128))
    requires
        -0x8000_0000 <= x0 <= 0x8000_0000,
        -0x8000_0000 <= y0 <= 0x8000_0000,
        -0x8000_0000 <= z0 <= 0x8000_0000,
    ensures
        r.0 == cordic(x0 as int, y0 as int, z0 as int, 0).0,
        r.1 == cordic(x0 as int, y0 as int, z0 as int, 0).1,
{
    let mut x = x0 as i128;
    let mut y = y0 as i128;
    let mut z = z0 as i128;
    let mut i: u32 = 0;
    proof {
        lemma2_to64();
        lemma_pow2_strictly_increases(32, 56);
    }
    while i < CORDIC_STEPS
        invariant
            i <= CORDIC_STEPS,
            -pow2(32 + i as nat) <= x <= pow2(32 + i as nat),
            -pow2(32 + i as nat) <= y <= pow2(32 + i as nat),
            -0x8000_0000 - i * 0x80_0000 <= z <= 0x8000_0000 + i * 0x80_0000,
            pow2(32 + i as nat) <= pow2(56),
            cordic(x0 as int, y0 as int, z0 as int, 0) == cordic(x as int, y as int, z as int, i as nat),
        decreases CORDIC_STEPS - i,
    {
        let t = arctan_angle(i);
        proof {
            lemma_u128_shr_is_div(t, 105);
            assert(t >> 105u128 < 0x80_0000) by (bit_vector);
            lemma_pow2_pos(i as nat);
            lemma_shift_bound(x as int, pow2(i as nat) as int);
            lemma_shift_bound(y as int, pow2(i as nat) as int);
            lemma_pow2_unfold(33 + i as nat);
            lemma2_to64_rest();
        }
        let angle = (t >> 105u32) as i128;
        let xs = shr_floor(x, i);
        let ys = shr_floor(y, i);
        if z < 0 {
            x = x + ys;
            y = y - xs;
            z = z + angle;
        } else {
            x = x - ys;
            y = y + xs;
            z = z - angle;
        }
        proof {
            if i + 1 < CORDIC_STEPS {
                lemma_pow2_strictly_increases(33 + i as nat, 56);
            }
        }
        i = i + 1;
    }
    (x, y)
}

fn sin_bits(a0: i64) -> (r: i64)
    requires
        -0x8000_0000 <= a0 < 0x8000_0000,
    ensures
        r == sin_spec(a0 as int),
{
    let mut a = a0;
    while a > PI_BITS
        invariant
            -0x8000_0000 <= a < 0x8000_0000,
            wrap_down(a0 as int) == wrap_down(a as int),
        decreases a + PI_BITS,
    {
        a = a - TWO_PI_BITS;
    }
    while a < -PI_BITS
        invariant
            -0x8000_0000 <= a < 0x8000_0000,
            wrap_up(wrap_down(a0 as int)) == wrap_up(a as int),
        decreases PI_BITS - a,
    {
        a = a + TWO_PI_BITS;
    }
    if a > FRAC_PI_2_BITS {
        a = FRAC_PI_2_BITS - (a - FRAC_PI_2_BITS);
    }
    if a < -FRAC_PI_2_BITS {
        a = -FRAC_PI_2_BITS - (a + FRAC_PI_2_BITS);
    }
    let (_x, y) = cordic_rotation(GAIN_INV_BITS, 0, a);
    Format::i9f23().saturate_bits(y)
}

/// Sine of an angle in radians, in the 9.23 format.
pub fn sin(angle: Fixed) -> (r: Fixed)
    requires
        angle.wf(),
        angle.format == Format::i9f23_spec(),
    ensures
        r.format == angle.format,
        r.bits == sin_spec(angle.bits as int),
        r.wf(),
{
    proof {
        lemma_bounds(angle.format);
        lemma2_to64();
    }
    Fixed { bits: sin_bits(angle.bits), format: angle.format }
}

/// Cosine of an angle in radians, in the 9.23 format.
pub fn cos(angle: Fixed) -> (r: Fixed)
    requires
        angle.wf(),
        angle.format == Format::i9f23_spec(),
    ensures
        r.format == angle.format,
        r.bits == cos_spec(angle.bits as int),
        r.wf(),
{
    proof {
        lemma_bounds(angle.format);
    }
    let f = Format::i9f23();
    let shifted = Fixed { bits: f.saturating_add(angle.bits, FRAC_PI_2_BITS), format: f };
    sin(shifted)
}

/// Tangent of an angle in radians, in the 9.23 format, by the half-angle
/// identity `tan(a) = sin(2a) / (1 + cos(2a))`.
pub fn tan(angle: Fixed) -> (r: Fixed)
    requires
        angle.wf(),
        angle.format == Format::i9f23_spec(),
    ensures
        r.format == angle.format,
        r.bits == tan_spec(angle.bits as int),
        r.wf(),
{
    proof {
        lemma_bounds(angle.format);
    }
    let f = Format::i9f23();
    let one = f.one_bits();
    let a2 = Fixed { bits: f.saturating_mul(angle.bits, 2 * one), format: f };
    let s = sin(a2);
    let c = cos(a2);
    let den = f.saturating_add(one, c.bits);
    Fixed { bits: f.saturating_div(s.bits, den), format: f }
}

/// Arcsine, as the angle itself: a good value only for very small angles.
pub fn asin(angle: Fixed) -> (r: Fixed)
    ensures
        r == angle,
{
    angle
}

} // verus!
