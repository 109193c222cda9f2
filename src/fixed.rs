//! Fixed-point formats and values, and the checked arithmetic the kernels use.
//!
//! A value of format `Format { int_nbits: I, frac_nbits: F }` is a signed integer
//! `bits` of width `I + F`, standing for `bits / 2^F`.
use vstd::prelude::*;
use vstd::arithmetic::power2::{
    pow2,
    lemma_pow2_pos,
    lemma_pow2_adds,
    lemma_pow2_strictly_increases,
    lemma2_to64,
    lemma2_to64_rest,
};
use vstd::arithmetic::div_mod::{lemma_fundamental_div_mod, lemma_fundamental_div_mod_converse};
use vstd::bits::{lemma_u64_shl_is_mul, lemma_u64_pow2_no_overflow};

verus! {

/// A signed fixed-point format: `int_nbits` integer bits (the sign bit among
/// them) and `frac_nbits` fractional bits.
#[derive(Clone, Copy, Debug, PartialEq, Eq, Structural)]
pub struct Format {
    pub int_nbits: u32,
    pub frac_nbits: u32,
}

impl Format {
    /// Formats this library computes in: at most 64 bits wide, with room for
    /// the values up to 3 that the kernels compare against.
    pub open spec fn wf(self) -> bool {
        3 <= self.int_nbits && self.int_nbits + self.frac_nbits <= 64
    }

    pub open spec fn frac(self) -> nat {
        self.frac_nbits as nat
    }

    /// The bits of the value one.
    pub open spec fn one(self) -> int {
        pow2(self.frac()) as int
    }

    /// Half the number of bit patterns: the bits lie in `[-half, half)`.
    pub open spec fn half(self) -> int {
        pow2((self.int_nbits + self.frac_nbits - 1) as nat) as int
    }

    pub open spec fn fits(self, v: int) -> bool {
        -self.half() <= v < self.half()
    }

    /// The signed 9.23 format, in which the trigonometric functions work.
    pub open spec fn i9f23_spec() -> Format {
        Format { int_nbits: 9, frac_nbits: 23 }
    }

    pub fn i9f23() -> (r: Format)
        ensures
            r == Format::i9f23_spec(),
            r.wf(),
    {
        Format { int_nbits: 9, frac_nbits: 23 }
    }

    /// The number of fractional bits; it also fixes how many steps the
    /// iterative kernels take.
    pub fn frac_nbits(&self) -> (r: u32)
        ensures
            r == self.frac_nbits,
    {
        self.frac_nbits
    }

    /// The bits of the value one.
    pub fn one_bits(&self) -> (r: i64)
        requires
            self.wf(),
        ensures
            r == self.one(),
    {
        proof {
            lemma_bounds(*self);
        }
        pow2_u64(self.frac_nbits) as i64
    }

    /// The bits of the value `n`, if it fits.
    pub fn int_bits(&self, n: i64) -> (r: Option<i64>)
        requires
            self.wf(),
        ensures
            lift(r) == self.checked(n * self.one()),
    {
        proof {
            lemma_bounds(*self);
        }
        let one = self.one_bits() as i128;
        proof {
            lemma_product_bound(n as int, one as int);
        }
        self.check_range(n as i128 * one)
    }

    /// `v` when it fits the format, else nothing.
    pub open spec fn checked(self, v: int) -> Option<int> {
        if self.fits(v) {
            Some(v)
        } else {
            None
        }
    }

    /// `v` held to the format's bounds.
    pub open spec fn saturate(self, v: int) -> int {
        if v < -self.half() {
            -self.half()
        } else if v >= self.half() {
            self.half() - 1
        } else {
            v
        }
    }

    pub open spec fn add_spec(self, a: int, b: int) -> Option<int> {
        self.checked(a + b)
    }

    pub open spec fn sub_spec(self, a: int, b: int) -> Option<int> {
        self.checked(a - b)
    }

    /// Product, rounded down to the format's last bit.
    pub open spec fn mul_spec(self, a: int, b: int) -> Option<int> {
        self.checked((a * b) / self.one())
    }

    /// Quotient, rounded toward zero to the format's last bit; nothing on a
    /// zero divisor.
    pub open spec fn div_spec(self, a: int, b: int) -> Option<int> {
        if b == 0 {
            None
        } else {
            self.checked(trunc_div(a * self.one(), b))
        }
    }

    /// Quotient that saturates: on a zero divisor the largest value of the
    /// dividend's sign (zero for a zero dividend).
    pub open spec fn saturating_div_spec(self, a: int, b: int) -> int {
        if b == 0 {
            if a > 0 {
                self.half() - 1
            } else if a < 0 {
                -self.half()
            } else {
                0
            }
        } else {
            self.saturate(trunc_div(a * self.one(), b))
        }
    }

    pub fn check_range(&self, v: i128) -> (r: Option<i64>)
        requires
            self.wf(),
        ensures
            lift(r) == self.checked(v as int),
    {
        proof {
            lemma_bounds(*self);
        }
        let h = self.half_bits();
        if -h <= v && v < h {
            Some(v as i64)
        } else {
            None
        }
    }

    pub fn saturate_bits(&self, v: i128) -> (r: i64)
        requires
            self.wf(),
        ensures
            r == self.saturate(v as int),
    {
        proof {
            lemma_bounds(*self);
        }
        let h = self.half_bits();
        if v < -h {
            (-h) as i64
        } else if v >= h {
            (h - 1) as i64
        } else {
            v as i64
        }
    }

    fn half_bits(&self) -> (r: i128)
        requires
            self.wf(),
        ensures
            r == self.half(),
    {
        proof {
            lemma_bounds(*self);
        }
        pow2_u64(self.int_nbits + self.frac_nbits - 1) as i128
    }

    pub fn checked_add(&self, a: i64, b: i64) -> (r: Option<i64>)
        requires
            self.wf(),
        ensures
            lift(r) == self.add_spec(a as int, b as int),
    {
        self.check_range(a as i128 + b as i128)
    }

    pub fn checked_sub(&self, a: i64, b: i64) -> (r: Option<i64>)
        requires
            self.wf(),
        ensures
            lift(r) == self.sub_spec(a as int, b as int),
    {
        self.check_range(a as i128 - b as i128)
    }

    pub fn checked_mul(&self, a: i64, b: i64) -> (r: Option<i64>)
        requires
            self.wf(),
        ensures
            lift(r) == self.mul_spec(a as int, b as int),
    {
        proof {
            lemma_bounds(*self);
            lemma_product_bound(a as int, b as int);
        }
        let p = a as i128 * b as i128;
        let q = shr_floor(p, self.frac_nbits);
        self.check_range(q)
    }

    pub fn saturating_add(&self, a: i64, b: i64) -> (r: i64)
        requires
            self.wf(),
        ensures
            r == self.saturate(a + b),
    {
        self.saturate_bits(a as i128 + b as i128)
    }

    pub fn saturating_mul(&self, a: i64, b: i64) -> (r: i64)
        requires
            self.wf(),
        ensures
            r == self.saturate((a * b) / self.one()),
    {
        proof {
            lemma_bounds(*self);
            lemma_product_bound(a as int, b as int);
        }
        let p = a as i128 * b as i128;
        let q = shr_floor(p, self.frac_nbits);
        self.saturate_bits(q)
    }

    pub fn checked_div(&self, a: i64, b: i64) -> (r: Option<i64>)
        requires
            self.wf(),
        ensures
            lift(r) == self.div_spec(a as int, b as int),
    {
        if b == 0 {
            return None;
        }
        let q = self.div_raw(a, b);
        self.check_range(q)
    }

    pub fn saturating_div(&self, a: i64, b: i64) -> (r: i64)
        requires
            self.wf(),
        ensures
            r == self.saturating_div_spec(a as int, b as int),
    {
        proof {
            lemma_bounds(*self);
        }
        if b == 0 {
            let h = self.half_bits();
            if a > 0 {
                (h - 1) as i64
            } else if a < 0 {
                (-h) as i64
            } else {
                0
            }
        } else {
            let q = self.div_raw(a, b);
            self.saturate_bits(q)
        }
    }

    fn div_raw(&self, a: i64, b: i64) -> (r: i128)
        requires
            self.wf(),
            b != 0,
        ensures
            r == trunc_div(a * self.one(), b as int),
    {
        proof {
            lemma_bounds(*self);
            lemma_product_bound(a as int, self.one());
        }
        let n = a as i128 * self.one_bits() as i128;
        let nm: u128 = if n >= 0 {
            n as u128
        } else {
            (-n) as u128
        };
        let dm: u128 = if b >= 0 {
            b as u128
        } else {
            (-(b as i128)) as u128
        };
        let q = (nm / dm) as i128;
        if (n >= 0) == (b > 0) {
            q
        } else {
            -q
        }
    }

    /// Converts bits of format `from` to this format: exact when this format
    /// has as many fractional bits or more, rounded down otherwise.
    pub fn convert_from(&self, from: Format, v: i64) -> (r: Option<i64>)
        requires
            self.wf(),
            from.wf(),
        ensures
            lift(r) == convert_spec(from, *self, v as int),
    {
        proof {
            lemma_bounds(*self);
            lemma_bounds(from);
        }
        if self.frac_nbits >= from.frac_nbits {
            let k = self.frac_nbits - from.frac_nbits;
            proof {
                lemma_pow2_pos(k as nat);
                if k < 61 {
                    lemma_pow2_strictly_increases(k as nat, 61);
                }
                lemma2_to64_rest();
                lemma_product_bound(v as int, pow2(k as nat) as int);
            }
            let m = pow2_u64(k) as i128;
            self.check_range(v as i128 * m)
        } else {
            let q = shr_floor(v as i128, from.frac_nbits - self.frac_nbits);
            self.check_range(q)
        }
    }
}

/// A fixed-point value: `bits` in `format`.
#[derive(Clone, Copy, Debug, PartialEq, Eq, Structural)]
pub struct Fixed {
    pub bits: i64,
    pub format: Format,
}

impl Fixed {
    pub open spec fn wf(self) -> bool {
        self.format.wf() && self.format.fits(self.bits as int)
    }

    /// The value with the given bits.
    pub fn from_bits(bits: i64, format: Format) -> (r: Fixed)
        requires
            format.wf(),
            format.fits(bits as int),
        ensures
            r.bits == bits,
            r.format == format,
            r.wf(),
    {
        Fixed { bits, format }
    }

    /// The integer `n`, if the format holds it.
    pub fn from_int(n: i64, format: Format) -> (r: Option<Fixed>)
        requires
            format.wf(),
        ensures
            match r {
                Some(x) => format.checked(n * format.one()) == Some(x.bits as int) && x.format
                    == format && x.wf(),
                None => format.checked(n * format.one()) is None,
            },
    {
        match format.int_bits(n) {
            Some(b) => Some(Fixed { bits: b, format }),
            None => None,
        }
    }

    pub fn to_bits(&self) -> (r: i64)
        ensures
            r == self.bits,
    {
        self.bits
    }
}

/// An optional machine integer seen as an optional mathematical integer.
pub open spec fn lift(o: Option<i64>) -> Option<int> {
    match o {
        Some(v) => Some(v as int),
        None => None,
    }
}

pub open spec fn abs(v: int) -> int {
    if v >= 0 {
        v
    } else {
        -v
    }
}

/// Division rounded toward zero.
pub open spec fn trunc_div(n: int, d: int) -> int {
    if (n >= 0) == (d > 0) {
        abs(n) / abs(d)
    } else {
        -(abs(n) / abs(d))
    }
}

/// Bits of format `from` read in format `to`: shifted left exactly, or right
/// rounding down, and nothing when the result does not fit.
pub open spec fn convert_spec(from: Format, to: Format, v: int) -> Option<int> {
    if to.frac_nbits >= from.frac_nbits {
        to.checked(v * pow2((to.frac_nbits - from.frac_nbits) as nat))
    } else {
        to.checked(v / pow2((from.frac_nbits - to.frac_nbits) as nat) as int)
    }
}

pub proof fn lemma_bounds(fmt: Format)
    requires
        fmt.wf(),
    ensures
        1 <= fmt.one() <= 0x2000_0000_0000_0000,
        4 * fmt.one() <= fmt.half() <= 0x8000_0000_0000_0000,
        fmt.fits(0),
        fmt.fits(fmt.one()),
        fmt.fits(2 * fmt.one()),
        fmt.fits(3 * fmt.one()),
        fmt.frac_nbits <= 61,
{
    let f = fmt.frac();
    let w1 = (fmt.int_nbits + fmt.frac_nbits - 1) as nat;
    lemma_pow2_pos(f);
    lemma2_to64();
    lemma2_to64_rest();
    if w1 < 63 {
        lemma_pow2_strictly_increases(w1, 63);
    }
    if f < 61 {
        lemma_pow2_strictly_increases(f, 61);
    }
    lemma_pow2_adds(f, 2);
    if f + 2 < w1 {
        lemma_pow2_strictly_increases(f + 2, w1);
    }
}

pub proof fn lemma_product_bound(a: int, b: int)
    requires
        -0x8000_0000_0000_0000 <= a <= 0x8000_0000_0000_0000,
        -0x8000_0000_0000_0000 <= b <= 0x8000_0000_0000_0000,
    ensures
        -0x4000_0000_0000_0000_0000_0000_0000_0000 <= a * b <= 0x4000_0000_0000_0000_0000_0000_0000_0000,
{
    assert(-0x4000_0000_0000_0000_0000_0000_0000_0000 <= a * b <= 0x4000_0000_0000_0000_0000_0000_0000_0000)
        by (nonlinear_arith)
        requires
            -0x8000_0000_0000_0000 <= a <= 0x8000_0000_0000_0000,
            -0x8000_0000_0000_0000 <= b <= 0x8000_0000_0000_0000,
    ;
}

/// `2^e` as a machine integer.
fn pow2_u64(e: u32) -> (r: u64)
    requires
        e < 64,
    ensures
        r == pow2(e as nat),
{
    proof {
        lemma_u64_pow2_no_overflow(e as nat);
        lemma_u64_shl_is_mul(1, e as u64);
    }
    1u64 << (e as u64)
}

/// `p / 2^e`, rounded down.
pub fn shr_floor(p: i128, e: u32) -> (r: i128)
    requires
        e < 64,
        -0x4000_0000_0000_0000_0000_0000_0000_0000 <= p <= 0x4000_0000_0000_0000_0000_0000_0000_0000,
    ensures
        r == (p as int) / (pow2(e as nat) as int),
{
    let d = pow2_u64(e) as u128;
    proof {
        lemma_u64_pow2_no_overflow(e as nat);
    }
    if p >= 0 {
        ((p as u128) / d) as i128
    } else {
        let m = (-p) as u128;
        let q = (m + d - 1) / d;
        proof {
            let di = d as int;
            let qi = q as int;
            let mi = m as int;
            let pi = p as int;
            let ni = mi + di - 1;
            lemma_fundamental_div_mod(ni, di);
            let rr = ni % di;
            assert(qi == ni / di);
            assert(ni == di * qi + rr);
            assert(0 <= rr < di);
            assert(mi == -pi);
            assert(pi == (-qi) * di + (di - 1 - rr)) by (nonlinear_arith)
                requires
                    ni == di * qi + rr,
                    ni == mi + di - 1,
                    mi == -pi,
            ;
            lemma_fundamental_div_mod_converse(p as int, di, -qi, di - 1 - rr);
        }
        -(q as i128)
    }
}

} // verus!
