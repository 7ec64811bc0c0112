//! IEEE 754 binary32 numbers, held and computed by their bit patterns.
//!
//! A magnitude (the bit pattern without its sign) stands for a whole number of units of
//! 2^-149, the smallest positive number of the format. The pattern of infinity is read by
//! the same formula, which makes it 2^128: larger than every finite number, and the point
//! at which rounding overflows.

use crate::wide::{
    amount,
    apart,
    lemma_update,
    lemma_weight,
    plus,
    weight,
    widened,
    zero,
};
use vstd::arithmetic::power2::{
    lemma2_to64,
    lemma2_to64_rest,
    lemma_pow2_adds,
    lemma_pow2_pos,
    lemma_pow2_strictly_increases,
    lemma_pow2_unfold,
    pow2,
};
use vstd::bits::lemma_u64_shl_is_mul;
use vstd::prelude::*;

verus! {

/// Bit that carries the sign.
pub const SIGN_BIT: u32 = 0x8000_0000;

/// Magnitude of the two infinities; every larger magnitude is a NaN.
pub const INFINITY: u32 = 0x7f80_0000;

/// The NaN that every invalid operation returns here.
pub const QUIET_NAN: u32 = 0x7fc0_0000;

/// A binary32 number. Two values are equal under `==` when their bit patterns are.
#[derive(Clone, Copy, Debug, PartialEq, Eq, Structural)]
pub struct Binary32 {
    pub bits: u32,
}

/// What the magnitude `m` is worth, in units of 2^-149.
pub open spec fn magnitude_value(m: nat) -> nat {
    let exponent = m / 0x80_0000;
    let fraction = m % 0x80_0000;
    if exponent == 0 {
        fraction
    } else {
        (0x80_0000 + fraction) * pow2((exponent - 1) as nat)
    }
}

/// Whether `m` is the magnitude nearest to `num / den` units, a tie going to the even one.
pub open spec fn rounds_to(num: nat, den: nat, m: nat) -> bool {
    &&& m <= INFINITY
    &&& m > 0 ==> {
        let boundary = den * (magnitude_value((m - 1) as nat) + magnitude_value(m));
        2 * num > boundary || (2 * num == boundary && m % 2 == 0)
    }
    &&& m < INFINITY ==> {
        let boundary = den * (magnitude_value(m) + magnitude_value(m + 1));
        2 * num < boundary || (2 * num == boundary && m % 2 == 0)
    }
}

/// The magnitude to which `num / den` units round.
pub open spec fn rounded(num: nat, den: nat) -> nat {
    choose|m: nat| rounds_to(num, den, m)
}

impl Binary32 {
    pub open spec fn negative(self) -> bool {
        self.bits >= SIGN_BIT
    }

    pub open spec fn magnitude(self) -> nat {
        if self.negative() {
            (self.bits - SIGN_BIT) as nat
        } else {
            self.bits as nat
        }
    }

    pub open spec fn is_nan(self) -> bool {
        self.magnitude() > INFINITY
    }

    pub open spec fn is_infinite(self) -> bool {
        self.magnitude() == INFINITY
    }

    pub open spec fn is_finite(self) -> bool {
        self.magnitude() < INFINITY
    }

    /// What the number is worth, in units of 2^-149.
    pub open spec fn value(self) -> int {
        if self.negative() {
            -(magnitude_value(self.magnitude()) as int)
        } else {
            magnitude_value(self.magnitude()) as int
        }
    }

    /// The number with the given sign and magnitude.
    pub open spec fn signed(negative: bool, magnitude: nat) -> Binary32 {
        Binary32 {
            bits: if negative {
                (SIGN_BIT + magnitude) as u32
            } else {
                magnitude as u32
            },
        }
    }

    pub open spec fn nan() -> Binary32 {
        Binary32 { bits: QUIET_NAN }
    }

    /// `self <= other`: a NaN is not comparable with anything.
    pub open spec fn spec_le(self, other: Binary32) -> bool {
        !self.is_nan() && !other.is_nan() && self.value() <= other.value()
    }

    /// `-self`.
    pub open spec fn negated(self) -> Binary32 {
        Binary32::signed(!self.negative(), self.magnitude())
    }

    /// `self + other`, rounded to nearest, ties to even.
    pub open spec fn sum(self, other: Binary32) -> Binary32 {
        let exact = self.value() + other.value();
        if self.is_nan() || other.is_nan() {
            Binary32::nan()
        } else if self.is_infinite() && other.is_infinite() {
            if self.negative() == other.negative() {
                self
            } else {
                Binary32::nan()
            }
        } else if self.is_infinite() {
            self
        } else if other.is_infinite() {
            other
        } else if exact == 0 {
            Binary32::signed(self.negative() && other.negative(), 0)
        } else if exact < 0 {
            Binary32::signed(true, rounded((-exact) as nat, 1))
        } else {
            Binary32::signed(false, rounded(exact as nat, 1))
        }
    }

    /// `self - other`.
    pub open spec fn difference(self, other: Binary32) -> Binary32 {
        if other.is_nan() {
            Binary32::nan()
        } else {
            self.sum(other.negated())
        }
    }

    /// `self * other`, rounded to nearest, ties to even.
    pub open spec fn product(self, other: Binary32) -> Binary32 {
        let negative = self.negative() != other.negative();
        if self.is_nan() || other.is_nan() {
            Binary32::nan()
        } else if self.is_infinite() || other.is_infinite() {
            if self.magnitude() == 0 || other.magnitude() == 0 {
                Binary32::nan()
            } else {
                Binary32::signed(negative, INFINITY as nat)
            }
        } else {
            Binary32::signed(
                negative,
                rounded(
                    magnitude_value(self.magnitude()) * magnitude_value(other.magnitude()),
                    pow2(149),
                ),
            )
        }
    }

    /// `self / 2`.
    pub open spec fn halved(self) -> Binary32 {
        if self.is_nan() {
            Binary32::nan()
        } else if self.is_infinite() {
            self
        } else {
            Binary32::signed(self.negative(), rounded(magnitude_value(self.magnitude()), 2))
        }
    }
}

/// A magnitude split as `(e - 1) * 2^23 + q` is worth `q * 2^(e - 1)`.
pub(crate) proof fn lemma_value_of_parts(e: nat, q: nat)
    requires
        1 <= e,
        q <= 0x100_0000,
        q >= 0x80_0000 || e == 1,
    ensures
        magnitude_value(((e - 1) * 0x80_0000 + q) as nat) == q * pow2((e - 1) as nat),
{
    lemma2_to64();
    let m = ((e - 1) * 0x80_0000 + q) as nat;
    if q < 0x80_0000 {
        assert(m / 0x80_0000 == 0);
        assert(q * 1 == q);
    } else if q < 0x100_0000 {
        assert(m == e * 0x80_0000 + (q - 0x80_0000));
        assert(m / 0x80_0000 == e);
        assert(m % 0x80_0000 == q - 0x80_0000);
    } else {
        assert(m == (e + 1) * 0x80_0000);
        assert(m / 0x80_0000 == e + 1);
        assert(m % 0x80_0000 == 0);
        lemma_pow2_unfold(e);
        assert(0x80_0000 * (2 * pow2((e - 1) as nat)) == 0x100_0000 * pow2((e - 1) as nat));
    }
}

/// The parts of a magnitude: its exponent (at least 1) and its significand.
spec fn exponent_of(m: nat) -> nat {
    if m / 0x80_0000 == 0 {
        1
    } else {
        m / 0x80_0000
    }
}

spec fn significand_of(m: nat) -> nat {
    if m / 0x80_0000 == 0 {
        m % 0x80_0000
    } else {
        0x80_0000 + m % 0x80_0000
    }
}

proof fn lemma_parts(m: nat)
    ensures
        1 <= exponent_of(m),
        significand_of(m) < 0x100_0000,
        significand_of(m) >= 0x80_0000 || exponent_of(m) == 1,
        m == (exponent_of(m) - 1) * 0x80_0000 + significand_of(m),
        magnitude_value(m) == significand_of(m) * pow2((exponent_of(m) - 1) as nat),
        m < INFINITY ==> exponent_of(m) <= 254,
{
    lemma_value_of_parts(exponent_of(m), significand_of(m));
}

/// A larger magnitude is worth more.
pub(crate) proof fn lemma_value_increases(m: nat, n: nat)
    requires
        m < n,
    ensures
        magnitude_value(m) < magnitude_value(n),
    decreases n - m,
{
    if m + 1 < n {
        lemma_value_increases(m, (n - 1) as nat);
        lemma_value_increases((n - 1) as nat, n);
    } else {
        lemma_parts(m);
        let e = exponent_of(m);
        let q = significand_of(m);
        lemma_value_of_parts(e, q + 1);
        lemma_pow2_pos((e - 1) as nat);
        assert((q + 1) * pow2((e - 1) as nat) == q * pow2((e - 1) as nat) + pow2((e - 1) as nat))
            by (nonlinear_arith);
    }
}

/// At most one magnitude is nearest.
proof fn lemma_rounds_to_unique(num: nat, den: nat, m: nat, n: nat)
    requires
        den > 0,
        rounds_to(num, den, m),
        rounds_to(num, den, n),
    ensures
        m == n,
{
    if m < n {
        lemma_rounds_to_ordered(num, den, m, n);
    } else if n < m {
        lemma_rounds_to_ordered(num, den, n, m);
    }
}

proof fn lemma_rounds_to_ordered(num: nat, den: nat, m: nat, n: nat)
    requires
        den > 0,
        m < n,
        rounds_to(num, den, m),
    ensures
        !rounds_to(num, den, n),
{
    let low = magnitude_value(m) + magnitude_value(m + 1);
    let high = magnitude_value((n - 1) as nat) + magnitude_value(n);
    if m + 1 < n {
        lemma_value_increases(m, (n - 1) as nat);
        lemma_value_increases(m + 1, n);
        assert(den * low < den * high) by (nonlinear_arith)
            requires
                den > 0,
                low < high,
        ;
    } else {
        assert(low == high);
    }
}

/// What `rounded` is, given a magnitude that is nearest.
pub(crate) proof fn lemma_rounded(num: nat, den: nat, m: nat)
    requires
        den > 0,
        rounds_to(num, den, m),
    ensures
        rounded(num, den) == m,
{
    lemma_rounds_to_unique(num, den, m, rounded(num, den));
}

/// How the quotient `q` and remainder `rem` of a significand with `unit` steps per magnitude
/// step decide between the magnitude below the exact result and the one above.
proof fn lemma_round_quotient(num: nat, den: nat, s: nat, unit: nat, e: nat, q: nat, rem: nat)
    requires
        den > 0,
        1 <= e,
        num * unit == den * s * pow2((e - 1) as nat),
        s == q * unit + rem,
        rem < unit,
        q < 0x100_0000,
        q >= 0x80_0000 || e == 1,
    ensures
        ({
            let m = ((e - 1) * 0x80_0000 + q) as nat;
            &&& m >= INFINITY ==> rounds_to(num, den, INFINITY as nat)
            &&& m < INFINITY && (2 * rem < unit || (2 * rem == unit && q % 2 == 0)) ==> rounds_to(
                num,
                den,
                m,
            )
            &&& m < INFINITY && (2 * rem > unit || (2 * rem == unit && q % 2 == 1)) ==> rounds_to(
                num,
                den,
                m + 1,
            )
        }),
{
    let m = ((e - 1) * 0x80_0000 + q) as nat;
    let step = pow2((e - 1) as nat);
    lemma_pow2_pos((e - 1) as nat);
    lemma_value_of_parts(e, q);
    lemma_value_of_parts(e, q + 1);
    let below = magnitude_value(m);
    let above = magnitude_value(m + 1);
    assert(below == q * step);
    assert(above == (q + 1) * step);
    assert(below + above == (2 * q + 1) * step) by (nonlinear_arith)
        requires
            below == q * step,
            above == (q + 1) * step,
    ;
    // Both sides of the comparison with the midpoint, multiplied by `unit`.
    let scale = den * step;
    let whole = q * unit;
    assert(num * unit == scale * s) by (nonlinear_arith)
        requires
            num * unit == den * s * step,
            scale == den * step,
    ;
    assert(scale * s == scale * whole + scale * rem) by (nonlinear_arith)
        requires
            s == whole + rem,
    ;
    assert(den * (below + above) == scale * (2 * q + 1)) by (nonlinear_arith)
        requires
            below + above == (2 * q + 1) * step,
            scale == den * step,
    ;
    assert((scale * (2 * q + 1)) * unit == 2 * (scale * whole) + scale * unit) by (nonlinear_arith)
        requires
            whole == q * unit,
    ;
    assert(scale * (2 * rem - unit) == 2 * (scale * rem) - scale * unit) by (nonlinear_arith);
    assert((2 * num) * unit == 2 * (num * unit)) by (nonlinear_arith);
    assert((2 * num) * unit - (den * (below + above)) * unit == (den * step) * (2 * rem - unit));
    assert(den * step > 0) by (nonlinear_arith)
        requires
            den > 0,
            step > 0,
    ;
    let mid = den * (below + above);
    assert(2 * rem < unit ==> 2 * num < mid) by (nonlinear_arith)
        requires
            (2 * num) * unit - mid * unit == (den * step) * (2 * rem - unit),
            den * step > 0,
            rem < unit,
    ;
    assert(2 * rem > unit ==> 2 * num > mid) by (nonlinear_arith)
        requires
            (2 * num) * unit - mid * unit == (den * step) * (2 * rem - unit),
            den * step > 0,
            rem < unit,
    ;
    assert(2 * rem == unit ==> 2 * num == mid) by (nonlinear_arith)
        requires
            (2 * num) * unit - mid * unit == (den * step) * (2 * rem - unit),
            den * step > 0,
            rem < unit,
    ;
    // The exact result lies in `below .. above`.
    assert(num >= den * below) by (nonlinear_arith)
        requires
            num * unit == den * s * step,
            s == q * unit + rem,
            below == q * step,
            rem < unit,
            den > 0,
            step > 0,
    ;
    assert(num < den * above) by (nonlinear_arith)
        requires
            num * unit == den * s * step,
            s == q * unit + rem,
            above == (q + 1) * step,
            rem < unit,
            den > 0,
            step > 0,
    ;
    if m >= INFINITY {
        let top = magnitude_value(INFINITY as nat);
        let under = magnitude_value((INFINITY - 1) as nat);
        lemma_value_increases((INFINITY - 1) as nat, INFINITY as nat);
        if m > INFINITY {
            lemma_value_increases(INFINITY as nat, m);
        }
        assert(2 * num > den * (under + top)) by (nonlinear_arith)
            requires
                num >= den * below,
                below >= top,
                under < top,
                den > 0,
        ;
    } else {
        if m > 0 {
            let under = magnitude_value((m - 1) as nat);
            lemma_value_increases((m - 1) as nat, m);
            assert(2 * num > den * (under + below)) by (nonlinear_arith)
                requires
                    num >= den * below,
                    under < below,
                    den > 0,
            ;
        }
        if m + 1 < INFINITY {
            let over = magnitude_value(m + 2);
            lemma_value_increases(m + 1, m + 2);
            assert(2 * num < den * (above + over)) by (nonlinear_arith)
                requires
                    num < den * above,
                    above < over,
                    den > 0,
            ;
        }
    }
}

/// Rounds the exact result `s * 2^(e - 33)` units to a magnitude.
fn round_parts(s: u64, e: u32, Ghost(num): Ghost<nat>, Ghost(den): Ghost<nat>) -> (m: u32)
    requires
        s < 0x200_0000_0000_0000,
        1 <= e <= 254,
        den > 0,
        num * 0x2_0000_0000 == den * s * pow2(e as nat),
    ensures
        rounds_to(num, den, m as nat),
        m == rounded(num, den),
        m <= INFINITY,
{
    let mut s: u64 = s;
    let mut e: u32 = e;
    let unit: u64;
    if s >= 0x100_0000_0000_0000 {
        unit = 0x2_0000_0000;
        e = e + 1;
    } else {
        while s < 0x80_0000_0000_0000 && e > 1
            invariant
                s < 0x100_0000_0000_0000,
                1 <= e <= 254,
                num * 0x2_0000_0000 == den * s * pow2(e as nat),
            decreases e,
        {
            proof {
                lemma_pow2_unfold(e as nat);
                let p = pow2((e - 1) as nat);
                assert(den * s * (2 * p) == den * (2 * s) * p) by (nonlinear_arith);
            }
            s = s * 2;
            e = e - 1;
        }
        unit = 0x1_0000_0000;
        proof {
            lemma_pow2_unfold(e as nat);
            let p = pow2((e - 1) as nat);
            assert(den * s * (2 * p) == 2 * (den * s * p)) by (nonlinear_arith);
        }
    }
    let q: u64 = s / unit;
    let rem: u64 = s % unit;
    proof {
        assert(s == q * unit + rem) by (nonlinear_arith)
            requires
                unit > 0,
                q == s / unit,
                rem == s % unit,
        ;
        lemma_round_quotient(num, den, s as nat, unit as nat, e as nat, q as nat, rem as nat);
    }
    let m: u32 = (e - 1) * 0x80_0000 + q as u32;
    let r: u32 = if m >= INFINITY {
        INFINITY
    } else if rem > unit / 2 || (rem == unit / 2 && q % 2 == 1) {
        m + 1
    } else {
        m
    };
    proof {
        lemma_rounded(num, den, r as nat);
    }
    r
}

/// Exponent and significand of a finite magnitude.
fn split_magnitude(m: u32) -> (r: (u32, u64))
    requires
        m < INFINITY,
    ensures
        r.0 == exponent_of(m as nat),
        r.1 == significand_of(m as nat),
        1 <= r.0 <= 254,
        r.1 < 0x100_0000,
{
    proof {
        lemma_parts(m as nat);
    }
    if m / 0x80_0000 == 0 {
        (1, (m % 0x80_0000) as u64)
    } else {
        (m / 0x80_0000, (0x80_0000 + m % 0x80_0000) as u64)
    }
}

/// A magnitude more than 32 binary orders below `a` leaves `a` the nearest magnitude.
proof fn lemma_negligible(a: nat, b: nat)
    requires
        a < INFINITY,
        b < INFINITY,
        exponent_of(a) > exponent_of(b) + 32,
    ensures
        rounds_to(magnitude_value(a) + magnitude_value(b), 1, a),
        magnitude_value(b) < magnitude_value(a),
        rounds_to((magnitude_value(a) - magnitude_value(b)) as nat, 1, a),
{
    lemma_parts(a);
    lemma_parts(b);
    let ea = exponent_of(a);
    let eb = exponent_of(b);
    let qa = significand_of(a);
    let qb = significand_of(b);
    let low = pow2((eb - 1) as nat);
    let half = pow2((ea - 2) as nat);
    let step = pow2((ea - 1) as nat);
    lemma_pow2_pos((eb - 1) as nat);
    lemma_pow2_unfold((ea - 1) as nat);
    assert(step == 2 * half);
    // `b` is worth less than a quarter of half a step of `a`.
    lemma2_to64();
    lemma2_to64_rest();
    lemma_pow2_adds((eb - 1) as nat, 26);
    if eb - 1 + 26 < ea - 2 {
        lemma_pow2_strictly_increases((eb - 1 + 26) as nat, (ea - 2) as nat);
    }
    assert(low * 0x400_0000 <= half);
    assert(4 * (qb * low) < half) by (nonlinear_arith)
        requires
            qb < 0x100_0000,
            low * 0x400_0000 <= half,
            low > 0,
    ;
    let va = magnitude_value(a);
    let vb = magnitude_value(b);
    assert(va == qa * step);
    assert(va >= step) by (nonlinear_arith)
        requires
            va == qa * step,
            qa >= 1,
    ;
    // The neighbours of `a`.
    lemma_value_of_parts(ea, qa + 1);
    assert(magnitude_value(a + 1) == va + step) by (nonlinear_arith)
        requires
            magnitude_value(a + 1) == (qa + 1) * step,
            va == qa * step,
    ;
    if qa > 0x80_0000 {
        lemma_value_of_parts(ea, (qa - 1) as nat);
        assert(magnitude_value((a - 1) as nat) == va - step) by (nonlinear_arith)
            requires
                magnitude_value((a - 1) as nat) == (qa - 1) * step,
                va == qa * step,
        ;
    } else {
        lemma_value_of_parts((ea - 1) as nat, 0xff_ffff);
        assert((ea - 2) * 0x80_0000 + 0xff_ffff == a - 1);
        assert(magnitude_value((a - 1) as nat) == va - half) by (nonlinear_arith)
            requires
                magnitude_value((a - 1) as nat) == 0xff_ffff * half,
                va == 0x80_0000 * step,
                step == 2 * half,
        ;
    }
}

/// Puts the sum or difference of two magnitudes on the scale of the larger exponent.
proof fn lemma_aligned(a: nat, b: nat, shift: nat, aligned: nat)
    requires
        exponent_of(b) <= exponent_of(a) <= exponent_of(b) + 32,
        shift == 32 - (exponent_of(a) - exponent_of(b)),
        aligned == significand_of(b) * pow2(shift),
    ensures
        magnitude_value(a) * 0x2_0000_0000 == (significand_of(a) * 0x1_0000_0000) * pow2(
            exponent_of(a),
        ),
        magnitude_value(b) * 0x2_0000_0000 == aligned * pow2(exponent_of(a)),
        aligned <= significand_of(b) * 0x1_0000_0000,
{
    lemma_parts(a);
    lemma_parts(b);
    lemma2_to64();
    let ea = exponent_of(a);
    let eb = exponent_of(b);
    let qa = significand_of(a);
    let qb = significand_of(b);
    let step = pow2((ea - 1) as nat);
    lemma_pow2_unfold(ea);
    assert((qa * step) * 0x2_0000_0000 == (qa * 0x1_0000_0000) * (2 * step)) by (nonlinear_arith);
    lemma_pow2_adds((eb - 1) as nat, 33);
    lemma_pow2_adds(shift, ea);
    assert(shift + ea == eb - 1 + 33);
    lemma_pow2_unfold(33);
    assert(pow2(33) == 0x2_0000_0000);
    assert((qb * pow2((eb - 1) as nat)) * 0x2_0000_0000 == qb * (pow2((eb - 1) as nat)
        * 0x2_0000_0000)) by (nonlinear_arith);
    assert(qb * (pow2(shift) * pow2(ea)) == (qb * pow2(shift)) * pow2(ea)) by (nonlinear_arith);
    if shift < 32 {
        lemma_pow2_strictly_increases(shift, 32);
    }
    assert(pow2(32) == 0x1_0000_0000);
    assert(qb * pow2(shift) <= qb * 0x1_0000_0000) by (nonlinear_arith)
        requires
            pow2(shift) <= 0x1_0000_0000,
    ;
}

/// `significand * 2^shift` for the shifts that an alignment needs.
fn shift_significand(significand: u64, shift: u32) -> (r: u64)
    requires
        significand < 0x100_0000,
        shift <= 32,
    ensures
        r == significand * pow2(shift as nat),
{
    proof {
        lemma2_to64();
        if shift < 32 {
            lemma_pow2_strictly_increases(shift as nat, 32);
        }
        assert(significand * pow2(shift as nat) <= 0x100_0000 * 0x1_0000_0000) by (nonlinear_arith)
            requires
                significand < 0x100_0000,
                pow2(shift as nat) <= 0x1_0000_0000,
        ;
        lemma_u64_shl_is_mul(significand, shift as u64);
    }
    significand << (shift as u64)
}

/// The magnitude of the sum of two finite magnitudes.
fn add_magnitudes(a: u32, b: u32) -> (m: u32)
    requires
        b <= a < INFINITY,
    ensures
        m == rounded(magnitude_value(a as nat) + magnitude_value(b as nat), 1),
        m <= INFINITY,
{
    let (ea, qa) = split_magnitude(a);
    let (eb, qb) = split_magnitude(b);
    proof {
        lemma_parts(a as nat);
        lemma_parts(b as nat);
    }
    if ea > eb + 32 {
        proof {
            lemma_negligible(a as nat, b as nat);
            lemma_rounded(magnitude_value(a as nat) + magnitude_value(b as nat), 1, a as nat);
        }
        return a;
    }
    let shift: u32 = 32 - (ea - eb);
    let aligned: u64 = shift_significand(qb, shift);
    proof {
        lemma_aligned(a as nat, b as nat, shift as nat, aligned as nat);
    }
    let s: u64 = qa * 0x1_0000_0000 + aligned;
    let ghost num = magnitude_value(a as nat) + magnitude_value(b as nat);
    proof {
        let p = pow2(ea as nat);
        assert((qa * 0x1_0000_0000) * p + aligned * p == s * p) by (nonlinear_arith)
            requires
                s == qa * 0x1_0000_0000 + aligned,
        ;
        assert(1 * s * p == s * p);
    }
    round_parts(s, ea, Ghost(num), Ghost(1))
}

/// The magnitude of the difference of two finite magnitudes.
fn subtract_magnitudes(a: u32, b: u32) -> (m: u32)
    requires
        b < a < INFINITY,
    ensures
        magnitude_value(b as nat) < magnitude_value(a as nat),
        m == rounded((magnitude_value(a as nat) - magnitude_value(b as nat)) as nat, 1),
        m <= INFINITY,
{
    let (ea, qa) = split_magnitude(a);
    let (eb, qb) = split_magnitude(b);
    proof {
        lemma_parts(a as nat);
        lemma_parts(b as nat);
        lemma_value_increases(b as nat, a as nat);
    }
    let ghost num = (magnitude_value(a as nat) - magnitude_value(b as nat)) as nat;
    if ea > eb + 32 {
        proof {
            lemma_negligible(a as nat, b as nat);
            lemma_rounded(num, 1, a as nat);
        }
        return a;
    }
    let shift: u32 = 32 - (ea - eb);
    let aligned: u64 = shift_significand(qb, shift);
    proof {
        lemma_aligned(a as nat, b as nat, shift as nat, aligned as nat);
        let p = pow2(ea as nat);
        let whole = (qa * 0x1_0000_0000) as nat;
        assert(whole > aligned) by (nonlinear_arith)
            requires
                magnitude_value(a as nat) * 0x2_0000_0000 == whole * p,
                magnitude_value(b as nat) * 0x2_0000_0000 == aligned * p,
                magnitude_value(b as nat) < magnitude_value(a as nat),
        ;
    }
    let s: u64 = qa * 0x1_0000_0000 - aligned;
    proof {
        let p = pow2(ea as nat);
        assert((qa * 0x1_0000_0000) * p - aligned * p == s * p) by (nonlinear_arith)
            requires
                s == qa * 0x1_0000_0000 - aligned,
        ;
        assert(1 * s * p == s * p);
    }
    round_parts(s, ea, Ghost(num), Ghost(1))
}

/// The exact product of two magnitudes, on the scale that `round_parts` takes.
proof fn lemma_product_scaled(a: nat, b: nat, s: nat)
    requires
        s == significand_of(a) * significand_of(b) * 0x200,
    ensures
        (magnitude_value(a) * magnitude_value(b)) * pow2(9) == s * pow2(
            (exponent_of(a) + exponent_of(b) - 2) as nat,
        ),
{
    lemma_parts(a);
    lemma_parts(b);
    lemma2_to64();
    let ea = (exponent_of(a) - 1) as nat;
    let eb = (exponent_of(b) - 1) as nat;
    let qa = significand_of(a);
    let qb = significand_of(b);
    lemma_pow2_adds(ea, eb);
    let pa = pow2(ea);
    let pb = pow2(eb);
    assert(pow2(9) == 0x200);
    assert(((qa * pa) * (qb * pb)) * 0x200 == (qa * qb * 0x200) * (pa * pb)) by (nonlinear_arith);
}

/// An exact result of less than half a unit rounds to zero.
proof fn lemma_rounds_to_zero(num: nat, den: nat)
    requires
        2 * num < den,
    ensures
        rounds_to(num, den, 0),
{
    assert(magnitude_value(0) == 0);
    assert(magnitude_value(1) == 1);
    assert(den * (magnitude_value(0) + magnitude_value(1)) == den) by (nonlinear_arith)
        requires
            magnitude_value(0) == 0,
            magnitude_value(1) == 1,
    ;
}

/// An exact result of at least 2^128 rounds to infinity.
proof fn lemma_rounds_to_infinity(num: nat, den: nat)
    requires
        den > 0,
        num >= den * magnitude_value(INFINITY as nat),
    ensures
        rounds_to(num, den, INFINITY as nat),
{
    let top = magnitude_value(INFINITY as nat);
    let under = magnitude_value((INFINITY - 1) as nat);
    lemma_value_increases((INFINITY - 1) as nat, INFINITY as nat);
    assert(2 * num > den * (under + top)) by (nonlinear_arith)
        requires
            num >= den * top,
            under < top,
            den > 0,
    ;
}

/// The magnitude of the product of two finite magnitudes.
fn multiply_magnitudes(a: u32, b: u32) -> (m: u32)
    requires
        a < INFINITY,
        b < INFINITY,
    ensures
        m == rounded(magnitude_value(a as nat) * magnitude_value(b as nat), pow2(149)),
        m <= INFINITY,
{
    let ghost num = magnitude_value(a as nat) * magnitude_value(b as nat);
    let ghost den = pow2(149);
    let (ea, qa) = split_magnitude(a);
    let (eb, qb) = split_magnitude(b);
    proof {
        lemma_parts(a as nat);
        lemma_parts(b as nat);
        lemma_pow2_pos(149);
        assert(qa * qb < 0x1_0000_0000_0000) by (nonlinear_arith)
            requires
                qa < 0x100_0000,
                qb < 0x100_0000,
        ;
    }
    let s: u64 = qa * qb * 0x200;
    proof {
        lemma_product_scaled(a as nat, b as nat, s as nat);
        lemma2_to64();
    }
    let ghost scale = pow2((ea + eb - 2) as nat);
    if ea + eb >= 382 {
        // Both numbers are normal, and the product is at least 2^128.
        proof {
            lemma_value_of_parts(255, 0x80_0000);
            assert(magnitude_value(INFINITY as nat) == 0x80_0000 * pow2(254));
            assert(qa * qb >= 0x4000_0000_0000) by (nonlinear_arith)
                requires
                    qa >= 0x80_0000,
                    qb >= 0x80_0000,
            ;
            // s >= 2^55 and scale >= 2^380, so s * scale >= 2^435 = 2^149 * 2^277 * 2^9.
            if ea + eb > 382 {
                lemma_pow2_strictly_increases(380, (ea + eb - 2) as nat);
            }
            lemma_pow2_adds(149, 254);
            lemma_pow2_unfold(404);
            assert(pow2(380) * 0x80_0000 == pow2(403)) by {
                lemma_pow2_adds(380, 23);
            }
            let top = magnitude_value(INFINITY as nat);
            assert(den * top == 0x80_0000 * pow2(403)) by (nonlinear_arith)
                requires
                    top == 0x80_0000 * pow2(254),
                    pow2(403) == den * pow2(254),
            ;
            assert(num >= den * top) by (nonlinear_arith)
                requires
                    num * 0x200 == s * scale,
                    s >= 0x80_0000_0000_0000,
                    scale >= pow2(380),
                    pow2(380) * 0x80_0000 == pow2(403),
                    den * top == 0x80_0000 * pow2(403),
            ;
            lemma_rounds_to_infinity(num, den);
            lemma_rounded(num, den, INFINITY as nat);
        }
        return INFINITY;
    }
    if ea + eb >= 128 {
        let e: u32 = ea + eb - 127;
        proof {
            // num / 2^149 == s * 2^(e - 33)
            lemma_pow2_adds(149, e as nat);
            lemma_pow2_adds(24, (ea + eb - 2) as nat);
            assert(149 + e == 24 + (ea + eb - 2));
            assert(pow2(24) == 0x100_0000);
            assert(num * 0x2_0000_0000 == den * s * pow2(e as nat)) by (nonlinear_arith)
                requires
                    num * 0x200 == s * scale,
                    den * pow2(e as nat) == 0x100_0000 * scale,
            ;
        }
        return round_parts(s, e, Ghost(num), Ghost(den));
    }
    let d: u32 = 128 - (ea + eb);
    if d >= 26 {
        proof {
            // s < 2^57 and scale <= 2^100, so num < 2^148.
            if ea + eb - 2 < 100 {
                lemma_pow2_strictly_increases((ea + eb - 2) as nat, 100);
            }
            lemma_pow2_adds(100, 48);
            lemma_pow2_unfold(149);
            assert(pow2(48) == 0x1_0000_0000_0000) by {
                lemma2_to64_rest();
            }
            assert(2 * num < den) by (nonlinear_arith)
                requires
                    num * 0x200 == s * scale,
                    s < 0x200_0000_0000_0000,
                    scale <= pow2(100),
                    pow2(148) == pow2(100) * 0x1_0000_0000_0000,
                    den == 2 * pow2(148),
                    pow2(148) > 0,
            ;
            lemma_rounds_to_zero(num, den);
            lemma_rounded(num, den, 0);
        }
        return 0;
    }
    let unit: u64 = shift_significand(1, d) * 0x1_0000_0000;
    let q: u64 = s / unit;
    let rem: u64 = s % unit;
    proof {
        lemma_pow2_adds(d as nat, 32);
        lemma_pow2_adds((d + 32) as nat, (ea + eb - 2) as nat);
        lemma_pow2_adds(149, 9);
        assert(unit * scale == den * 0x200);
        assert(num * unit == den * s * pow2(0)) by (nonlinear_arith)
            requires
                num * 0x200 == s * scale,
                unit * scale == den * 0x200,
                pow2(0) == 1,
        ;
        assert(s == q * unit + rem) by (nonlinear_arith)
            requires
                unit > 0,
                q == s / unit,
                rem == s % unit,
        ;
        assert(q < 0x100_0000) by (nonlinear_arith)
            requires
                s == q * unit + rem,
                s < 0x200_0000_0000_0000,
                unit >= 0x2_0000_0000,
        ;
        lemma_round_quotient(num, den, s as nat, unit as nat, 1, q as nat, rem as nat);
    }
    let m: u32 = q as u32;
    let r: u32 = if rem > unit / 2 || (rem == unit / 2 && q % 2 == 1) {
        m + 1
    } else {
        m
    };
    proof {
        lemma_rounded(num, den, r as nat);
    }
    r
}

/// Sign-and-magnitude as one integer, which orders numbers as their values do.
proof fn lemma_value_order(a: Binary32, b: Binary32)
    ensures
        ({
            let ra = if a.negative() { -(a.magnitude() as int) } else { a.magnitude() as int };
            let rb = if b.negative() { -(b.magnitude() as int) } else { b.magnitude() as int };
            a.value() <= b.value() <==> ra <= rb
        }),
{
    let ma = a.magnitude();
    let mb = b.magnitude();
    assert(magnitude_value(0) == 0);
    if ma > 0 {
        lemma_value_increases(0, ma);
    }
    if mb > 0 {
        lemma_value_increases(0, mb);
    }
    if ma < mb {
        lemma_value_increases(ma, mb);
    } else if mb < ma {
        lemma_value_increases(mb, ma);
    }
}

impl Binary32 {
    pub fn from_bits(bits: u32) -> (r: Binary32)
        ensures
            r.bits == bits,
    {
        Binary32 { bits }
    }

    pub fn to_bits(self) -> (r: u32)
        ensures
            r == self.bits,
    {
        self.bits
    }

    fn magnitude_bits(self) -> (r: u32)
        ensures
            r == self.magnitude(),
            r < SIGN_BIT,
    {
        if self.bits >= SIGN_BIT {
            self.bits - SIGN_BIT
        } else {
            self.bits
        }
    }

    fn with_sign(negative: bool, magnitude: u32) -> (r: Binary32)
        requires
            magnitude < SIGN_BIT,
        ensures
            r == Binary32::signed(negative, magnitude as nat),
    {
        Binary32 {
            bits: if negative {
                SIGN_BIT + magnitude
            } else {
                magnitude
            },
        }
    }

    /// Whether `self <= other`; false where either is a NaN.
    pub fn le(self, other: Binary32) -> (r: bool)
        ensures
            r == self.spec_le(other),
    {
        proof {
            lemma_value_order(self, other);
        }
        let a: u32 = self.magnitude_bits();
        let b: u32 = other.magnitude_bits();
        if a > INFINITY || b > INFINITY {
            return false;
        }
        let ra: i64 = if self.bits >= SIGN_BIT {
            -(a as i64)
        } else {
            a as i64
        };
        let rb: i64 = if other.bits >= SIGN_BIT {
            -(b as i64)
        } else {
            b as i64
        };
        ra <= rb
    }

    /// `-self`.
    pub fn neg(self) -> (r: Binary32)
        ensures
            r == self.negated(),
    {
        let m: u32 = self.magnitude_bits();
        Binary32::with_sign(self.bits < SIGN_BIT, m)
    }

    /// `self + other`, rounded to nearest, ties to even.
    pub fn plus(self, other: Binary32) -> (r: Binary32)
        ensures
            r == self.sum(other),
    {
        let a: u32 = self.magnitude_bits();
        let b: u32 = other.magnitude_bits();
        let na: bool = self.bits >= SIGN_BIT;
        let nb: bool = other.bits >= SIGN_BIT;
        if a > INFINITY || b > INFINITY || (a == INFINITY && b == INFINITY && na != nb) {
            return Binary32 { bits: QUIET_NAN };
        }
        if a == INFINITY {
            return self;
        }
        if b == INFINITY {
            return other;
        }
        proof {
            lemma_value_order(self, other);
            assert(magnitude_value(0) == 0);
            if a > 0 {
                lemma_value_increases(0, a as nat);
            }
            if b > 0 {
                lemma_value_increases(0, b as nat);
            }
            if a < b {
                lemma_value_increases(a as nat, b as nat);
            } else if b < a {
                lemma_value_increases(b as nat, a as nat);
            }
        }
        if na == nb {
            let m: u32 = if a >= b {
                add_magnitudes(a, b)
            } else {
                add_magnitudes(b, a)
            };
            if a == 0 && b == 0 {
                return Binary32::with_sign(na, 0);
            }
            Binary32::with_sign(na, m)
        } else if a == b {
            Binary32::with_sign(false, 0)
        } else if a > b {
            let m: u32 = subtract_magnitudes(a, b);
            Binary32::with_sign(na, m)
        } else {
            let m: u32 = subtract_magnitudes(b, a);
            Binary32::with_sign(nb, m)
        }
    }

    /// `self - other`, rounded to nearest, ties to even.
    pub fn minus(self, other: Binary32) -> (r: Binary32)
        ensures
            r == self.difference(other),
    {
        if other.magnitude_bits() > INFINITY {
            return Binary32 { bits: QUIET_NAN };
        }
        self.plus(other.neg())
    }

    /// `self * other`, rounded to nearest, ties to even.
    pub fn times(self, other: Binary32) -> (r: Binary32)
        ensures
            r == self.product(other),
    {
        let a: u32 = self.magnitude_bits();
        let b: u32 = other.magnitude_bits();
        let negative: bool = (self.bits >= SIGN_BIT) != (other.bits >= SIGN_BIT);
        if a > INFINITY || b > INFINITY {
            return Binary32 { bits: QUIET_NAN };
        }
        if a == INFINITY || b == INFINITY {
            if a == 0 || b == 0 {
                return Binary32 { bits: QUIET_NAN };
            }
            return Binary32::with_sign(negative, INFINITY);
        }
        let m: u32 = multiply_magnitudes(a, b);
        Binary32::with_sign(negative, m)
    }

    /// `self / 2`, rounded to nearest, ties to even.
    pub fn half(self) -> (r: Binary32)
        ensures
            r == self.halved(),
    {
        let m: u32 = self.magnitude_bits();
        if m > INFINITY {
            return Binary32 { bits: QUIET_NAN };
        }
        if m == INFINITY {
            return self;
        }
        let (e, q) = split_magnitude(m);
        let ghost num = magnitude_value(m as nat);
        let s: u64 = q * 0x8000_0000;
        proof {
            lemma_parts(m as nat);
            lemma_pow2_unfold(e as nat);
            let p = pow2((e - 1) as nat);
            assert((q * p) * 0x2_0000_0000 == 2 * (q * 0x8000_0000) * (2 * p)) by (nonlinear_arith);
        }
        let r: u32 = round_parts(s, e, Ghost(num), Ghost(2));
        Binary32::with_sign(self.bits >= SIGN_BIT, r)
    }
}

/// Every exact result has a nearest magnitude.
pub(crate) proof fn lemma_rounded_exists(num: nat, den: nat)
    requires
        den > 0,
    ensures
        rounds_to(num, den, rounded(num, den)),
{
    assert(magnitude_value(0) == 0);
    assert(num >= den * magnitude_value(0)) by (nonlinear_arith)
        requires
            magnitude_value(0) == 0,
    ;
    lemma_rounds_from(num, den, 0);
}

/// The nearest magnitude, searched for upwards from one that is not too large.
proof fn lemma_rounds_from(num: nat, den: nat, m: nat)
    requires
        den > 0,
        m <= INFINITY,
        num >= den * magnitude_value(m),
    ensures
        exists|r: nat| rounds_to(num, den, r),
    decreases INFINITY - m,
{
    let here = magnitude_value(m);
    if m > 0 {
        let under = magnitude_value((m - 1) as nat);
        lemma_value_increases((m - 1) as nat, m);
        assert(2 * num > den * (under + here)) by (nonlinear_arith)
            requires
                num >= den * here,
                under < here,
                den > 0,
        ;
    }
    if m == INFINITY {
        assert(rounds_to(num, den, m));
    } else {
        let above = magnitude_value(m + 1);
        lemma_value_increases(m, m + 1);
        if num >= den * above {
            lemma_rounds_from(num, den, m + 1);
        } else if 2 * num < den * (here + above) || (2 * num == den * (here + above) && m % 2
            == 0) {
            assert(rounds_to(num, den, m));
        } else {
            if m + 1 < INFINITY {
                let over = magnitude_value(m + 2);
                lemma_value_increases(m + 1, m + 2);
                assert(2 * num < den * (above + over)) by (nonlinear_arith)
                    requires
                        num < den * above,
                        above < over,
                        den > 0,
                ;
            }
            assert(rounds_to(num, den, m + 1));
        }
    }
}

/// Rounding keeps to the side of a magnitude on which the exact result lies.
pub(crate) proof fn lemma_rounded_monotonic(num: nat, den: nat, m: nat)
    requires
        den > 0,
        m <= INFINITY,
    ensures
        num <= den * magnitude_value(m) ==> rounded(num, den) <= m,
        num >= den * magnitude_value(m) ==> rounded(num, den) >= m,
        rounded(num, den) <= INFINITY,
{
    lemma_rounded_exists(num, den);
    let r = rounded(num, den);
    let here = magnitude_value(m);
    if r > m && num <= den * here {
        let below = magnitude_value((r - 1) as nat);
        let top = magnitude_value(r);
        lemma_value_increases(m, r);
        if m < r - 1 {
            lemma_value_increases(m, (r - 1) as nat);
        }
        assert(2 * num < den * (below + top)) by (nonlinear_arith)
            requires
                num <= den * here,
                below >= here,
                top > here,
                den > 0,
        ;
    }
    if r < m && num >= den * here {
        let bottom = magnitude_value(r);
        let above = magnitude_value(r + 1);
        lemma_value_increases(r, m);
        if r + 1 < m {
            lemma_value_increases(r + 1, m);
        }
        assert(2 * num > den * (bottom + above)) by (nonlinear_arith)
            requires
                num >= den * here,
                bottom < here,
                above <= here,
                den > 0,
        ;
    }
}

/// An exact result that is itself a magnitude is not rounded.
pub(crate) proof fn lemma_rounded_exact(num: nat, den: nat, m: nat)
    requires
        den > 0,
        m <= INFINITY,
        num == den * magnitude_value(m),
    ensures
        rounded(num, den) == m,
{
    lemma_rounded_monotonic(num, den, m);
}

/// A number of at most 24 binary digits, shifted left, is a magnitude.
pub(crate) proof fn lemma_representable(k: nat, j: nat) -> (m: nat)
    requires
        k < 0x100_0000,
        j <= 253,
    ensures
        m < INFINITY,
        magnitude_value(m) == k * pow2(j),
    decreases j,
{
    if k < 0x80_0000 && j > 0 {
        lemma_pow2_unfold(j);
        assert(k * (2 * pow2((j - 1) as nat)) == (2 * k) * pow2((j - 1) as nat)) by (nonlinear_arith);
        lemma_representable(2 * k, (j - 1) as nat)
    } else {
        lemma_value_of_parts(j + 1, k);
        (j * 0x80_0000 + k) as nat
    }
}

/// How many digits hold the worth of every finite magnitude.
pub const WORTH_DIGITS: usize = 9;

/// What a finite magnitude is worth, in full.
fn worth(m: u32) -> (r: Vec<u32>)
    requires
        m < INFINITY,
    ensures
        r@.len() == WORTH_DIGITS,
        amount(r@) == magnitude_value(m as nat),
{
    let (e, q) = split_magnitude(m);
    let place: u32 = (e - 1) / 32;
    let shift: u32 = (e - 1) % 32;
    let moved: u64 = shift_significand(q, shift);
    let low: u32 = (moved % 0x1_0000_0000) as u32;
    let high: u64 = moved / 0x1_0000_0000;
    proof {
        lemma_parts(m as nat);
        lemma2_to64();
        lemma_pow2_strictly_increases(shift as nat, 32);
        assert(q * pow2(shift as nat) < 0x100_0000 * 0x1_0000_0000) by (nonlinear_arith)
            requires
                q < 0x100_0000,
                0 < pow2(shift as nat) < 0x1_0000_0000,
        ;
    }
    let mut r: Vec<u32> = zero(WORTH_DIGITS);
    let at: usize = place as usize;
    proof {
        let w = weight(at as nat);
        lemma_weight(at as nat);
        lemma_update(r@, at as int, low);
        lemma_update(r@.update(at as int, low), at + 1, high as u32);
        assert(0 * w == 0 && 0 * weight((at + 1) as nat) == 0);
        assert(low as nat * w + high as nat * (0x1_0000_0000 * w) == moved as nat * w)
            by (nonlinear_arith)
            requires
                low + 0x1_0000_0000 * high == moved,
        ;
        lemma_pow2_adds(shift as nat, 32 * at as nat);
        assert(shift + 32 * at == e - 1);
        let s = pow2(shift as nat);
        assert((q * s) * w == q * (s * w)) by (nonlinear_arith);
    }
    r.set(at, low);
    r.set(at + 1, high as u32);
    r
}

impl Binary32 {
    /// How far two numbers are apart, in units of 2^-149.
    pub open spec fn distance(self, other: Binary32) -> nat {
        if self.value() <= other.value() {
            (other.value() - self.value()) as nat
        } else {
            (self.value() - other.value()) as nat
        }
    }

    /// How far two finite numbers are apart, exactly.
    pub fn exact_distance(self, other: Binary32) -> (r: Vec<u32>)
        requires
            self.is_finite(),
            other.is_finite(),
        ensures
            r@.len() == WORTH_DIGITS + 1,
            amount(r@) == self.distance(other),
    {
        let a: Vec<u32> = worth(self.magnitude_bits());
        let b: Vec<u32> = worth(other.magnitude_bits());
        if (self.bits >= SIGN_BIT) == (other.bits >= SIGN_BIT) {
            widened(apart(&a, &b))
        } else {
            plus(&a, &b)
        }
    }

    /// Whether this is a NaN.
    pub fn not_a_number(self) -> (r: bool)
        ensures
            r == self.is_nan(),
    {
        self.magnitude_bits() > INFINITY
    }

    /// Whether this is a finite number.
    pub fn finite(self) -> (r: bool)
        ensures
            r == self.is_finite(),
    {
        self.magnitude_bits() < INFINITY
    }
}

/// A sum keeps to the side of a number on which the exact sum lies.
pub(crate) proof fn lemma_sum_keeps_side(a: Binary32, b: Binary32, y: Binary32)
    requires
        a.is_finite(),
        b.is_finite(),
        !y.is_nan(),
    ensures
        y.value() <= a.value() + b.value() ==> y.spec_le(a.sum(b)),
        a.value() + b.value() <= y.value() ==> a.sum(b).spec_le(y),
{
    let exact = a.value() + b.value();
    let m = y.magnitude();
    assert(magnitude_value(0) == 0);
    if m > 0 {
        lemma_value_increases(0, m);
    }
    if exact != 0 {
        let size = if exact < 0 { (-exact) as nat } else { exact as nat };
        let r = rounded(size, 1);
        lemma_rounded_monotonic(size, 1, m);
        if r > 0 {
            lemma_value_increases(0, r);
        }
        if r < m {
            lemma_value_increases(r, m);
        } else if m < r {
            lemma_value_increases(m, r);
        }
    }
}

/// A number that is at least zero, doubled and halved again, is what it was, or infinite.
pub(crate) proof fn lemma_doubled_and_halved(x: Binary32, two: Binary32)
    requires
        x.is_finite(),
        x.value() >= 0,
        two.bits == 0x4000_0000,
    ensures
        ({
            let side = x.product(two);
            let half = side.halved();
            &&& !side.is_nan()
            &&& side.value() >= 0
            &&& half.is_infinite() ==> !half.negative()
            &&& half.is_infinite() || (half.is_finite() && half.value() == x.value())
        }),
{
    let m = x.magnitude();
    let v = magnitude_value(m);
    let den = pow2(149);
    assert(magnitude_value(0) == 0);
    if m > 0 {
        lemma_value_increases(0, m);
    }
    lemma_parts(m);
    lemma_pow2_pos(149);
    lemma_value_of_parts(128, 0x80_0000);
    lemma2_to64();
    lemma_pow2_adds(23, 127);
    lemma_pow2_unfold(150);
    assert(two.magnitude() == 127 * 0x80_0000 + 0x80_0000);
    let num = v * magnitude_value(two.magnitude());
    assert(magnitude_value(two.magnitude()) == 2 * den);
    assert(num == den * (2 * v)) by (nonlinear_arith)
        requires
            num == v * (2 * den),
    ;
    let e = exponent_of(m);
    let q = significand_of(m);
    if e <= 253 {
        lemma_pow2_unfold(e);
        let double = lemma_representable(q, e);
        let p = pow2((e - 1) as nat);
        assert(q * (2 * p) == 2 * (q * p)) by (nonlinear_arith);
        lemma_rounded_exact(num, den, double);
        lemma_rounded_exact(2 * v, 2, m);
    } else {
        lemma_value_of_parts(255, 0x80_0000);
        lemma_pow2_unfold(254);
        let p = pow2(253);
        let top = magnitude_value(INFINITY as nat);
        assert(2 * (q * p) >= 0x80_0000 * (2 * p)) by (nonlinear_arith)
            requires
                q >= 0x80_0000,
        ;
        assert(num >= den * top) by (nonlinear_arith)
            requires
                num == den * (2 * v),
                2 * v >= top,
        ;
        lemma_rounded_monotonic(num, den, INFINITY as nat);
    }
}

} // verus!
