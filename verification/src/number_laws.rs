//! What the arithmetic and the rectangles are, in terms of what numbers are worth.

use crate::binary32::{
    lemma_rounded_exact,
    lemma_rounded_exists,
    lemma_value_increases,
    magnitude_value,
    rounded,
    rounds_to,
    Binary32,
};
use crate::geometry::{at_least_zero, Rect, Vec2};
use crate::grid::{lemma_quadrants_on_grid, Grid};
use vstd::arithmetic::power2::{lemma_pow2_pos, lemma_pow2_unfold, pow2};
use vstd::prelude::*;

verus! {

/// How far two whole numbers are apart.
pub open spec fn apart(a: int, b: int) -> int {
    if a <= b {
        b - a
    } else {
        a - b
    }
}

/// The bit patterns: the first bit is the sign; what follows up to `0x7f7f_ffff` is a finite
/// number, `0x7f80_0000` is infinite, and what is above is no number.
pub proof fn law_bit_patterns(a: Binary32)
    ensures
        a.negative() <==> a.bits >= 0x8000_0000,
        a.bits < 0x8000_0000 ==> a.magnitude() == a.bits,
        a.bits >= 0x8000_0000 ==> a.magnitude() == a.bits - 0x8000_0000,
        a.is_finite() <==> a.magnitude() < 0x7f80_0000,
        a.is_infinite() <==> a.magnitude() == 0x7f80_0000,
        a.is_nan() <==> a.magnitude() > 0x7f80_0000,
        a.value() == if a.bits < 0x8000_0000 {
            magnitude_value(a.bits as nat) as int
        } else {
            -(magnitude_value((a.bits - 0x8000_0000) as nat) as int)
        },
{
}

/// The smallest magnitudes are worth what they are; each step of the exponent doubles the worth;
/// and a larger magnitude is worth more.
pub proof fn law_worth_doubles_with_the_exponent(m: nat, n: nat)
    ensures
        m <= 0x100_0000 ==> magnitude_value(m) == m,
        m >= 0x80_0000 ==> magnitude_value(m + 0x80_0000) == 2 * magnitude_value(m),
        m < n ==> magnitude_value(m) < magnitude_value(n),
{
    vstd::arithmetic::power2::lemma2_to64();
    if m >= 0x80_0000 {
        let e = m / 0x80_0000;
        let f = m % 0x80_0000;
        assert((m + 0x80_0000) / 0x80_0000 == e + 1);
        assert((m + 0x80_0000) % 0x80_0000 == f);
        lemma_pow2_unfold(e);
        let p = pow2((e - 1) as nat);
        assert((0x80_0000 + f) * (2 * p) == 2 * ((0x80_0000 + f) * p)) by (nonlinear_arith);
    }
    if m <= 0x100_0000 {
        if m < 0x80_0000 {
            assert(m / 0x80_0000 == 0);
        } else if m < 0x100_0000 {
            assert(m / 0x80_0000 == 1);
            let q = (0x80_0000 + m % 0x80_0000) as nat;
            assert(q == m);
            assert(q * pow2(0) == q) by (nonlinear_arith)
                requires
                    pow2(0) == 1,
            ;
            assert(magnitude_value(m) == q * pow2(0));
        } else {
            assert(m / 0x80_0000 == 2);
            assert(m % 0x80_0000 == 0);
            assert(magnitude_value(m) == 0x80_0000 * pow2(1));
        }
    }
    if m < n {
        lemma_value_increases(m, n);
    }
}

/// Comparison goes by what the numbers are worth; what is no number compares with nothing.
pub proof fn law_comparison_goes_by_worth(a: Binary32, b: Binary32)
    ensures
        a.is_nan() || b.is_nan() ==> !a.spec_le(b),
        !a.is_nan() && !b.is_nan() ==> (a.spec_le(b) <==> a.value() <= b.value()),
        at_least_zero(a) <==> !a.is_nan() && a.value() >= 0,
{
    assert(magnitude_value(0) == 0);
}

/// A nearest magnitude is at least as near as any other.
proof fn lemma_nearest_magnitude(num: nat, den: nat, m: nat, n: nat)
    requires
        den > 0,
        rounds_to(num, den, m),
        m < 0x7f80_0000,
    ensures
        apart(num as int, (den * magnitude_value(m)) as int) <= apart(
            num as int,
            (den * magnitude_value(n)) as int,
        ),
        m != n && apart(num as int, (den * magnitude_value(m)) as int) == apart(
            num as int,
            (den * magnitude_value(n)) as int,
        ) ==> m % 2 == 0,
{
    let here = magnitude_value(m);
    let there = magnitude_value(n);
    if n < m {
        let below = magnitude_value((m - 1) as nat);
        lemma_value_increases((m - 1) as nat, m);
        if n < m - 1 {
            lemma_value_increases(n, (m - 1) as nat);
        }
        assert(den * there <= den * below < den * here) by (nonlinear_arith)
            requires
                there <= below < here,
                den > 0,
        ;
        assert(den * (below + here) == den * below + den * here) by (nonlinear_arith);
    } else if m < n {
        let above = magnitude_value(m + 1);
        lemma_value_increases(m, m + 1);
        if m + 1 < n {
            lemma_value_increases(m + 1, n);
        }
        assert(den * here < den * above <= den * there) by (nonlinear_arith)
            requires
                here < above <= there,
                den > 0,
        ;
        assert(den * (here + above) == den * here + den * above) by (nonlinear_arith);
    }
}

/// A sum of finite numbers that is finite is as near to the exact sum as any number is.
pub proof fn law_sums_are_nearest(a: Binary32, b: Binary32, y: Binary32)
    requires
        a.is_finite(),
        b.is_finite(),
        y.is_finite(),
        a.sum(b).is_finite(),
    ensures
        ({
            let exact = a.value() + b.value();
            &&& apart(exact, a.sum(b).value()) <= apart(exact, y.value())
            &&& apart(exact, a.sum(b).value()) == apart(exact, y.value()) && a.sum(b).value()
                != y.value() ==> a.sum(b).magnitude() % 2 == 0
            &&& exact == y.value() ==> a.sum(b).value() == exact
        }),
{
    let exact = a.value() + b.value();
    let size = if exact < 0 { (-exact) as nat } else { exact as nat };
    assert(magnitude_value(0) == 0);
    let m = y.magnitude();
    if m > 0 {
        lemma_value_increases(0, m);
    }
    if exact != 0 {
        let r = rounded(size, 1);
        lemma_rounded_exists(size, 1);
        if r > 0 {
            lemma_value_increases(0, r);
        }
        if r < 0x7f80_0000 {
            assert(a.sum(b).magnitude() == r);
            lemma_nearest_magnitude(size, 1, r, m);
            lemma_nearest_magnitude(size, 1, r, 0);
        } else {
            assert(r == 0x7f80_0000);
            assert(a.sum(b).magnitude() == r);
        }
    }
}

/// A sum is the same either way round, whatever is added to whatever.
pub proof fn law_sums_commute(a: Binary32, b: Binary32)
    ensures
        a.sum(b).is_nan() == b.sum(a).is_nan(),
        !a.sum(b).is_nan() ==> a.sum(b) == b.sum(a),
{
    if a.is_infinite() && b.is_infinite() && a.negative() == b.negative() {
        assert(a.magnitude() == b.magnitude());
        assert(a.bits == b.bits);
    }
}

/// A sum of finite numbers is infinite exactly where the exact sum is at least halfway from the
/// largest number to the next power of two; what is infinite stays so, and infinity less infinity
/// is no number.
pub proof fn law_sums_overflow(a: Binary32, b: Binary32)
    ensures
        a.is_nan() || b.is_nan() ==> a.sum(b).is_nan(),
        a.is_infinite() && b.is_infinite() && a.negative() != b.negative() ==> a.sum(b).is_nan(),
        a.is_infinite() && b.is_infinite() && a.negative() == b.negative() ==> a.sum(b) == a,
        a.is_infinite() && b.is_finite() ==> a.sum(b) == a,
        a.is_finite() && b.is_finite() ==> !a.sum(b).is_nan(),
        a.is_finite() && b.is_finite() ==> (a.sum(b).is_infinite() <==> 2 * apart(
            0,
            a.value() + b.value(),
        ) >= magnitude_value(0x7f7f_ffff) + magnitude_value(0x7f80_0000)),
        a.is_finite() && b.is_finite() && a.sum(b).is_infinite() ==> (a.sum(b).negative() <==> a.value()
            + b.value() < 0),
{
    let exact = a.value() + b.value();
    let size = if exact < 0 { (-exact) as nat } else { exact as nat };
    let low = magnitude_value(0x7f7f_ffff);
    let high = magnitude_value(0x7f80_0000);
    if a.is_finite() && b.is_finite() {
        lemma_value_increases(0, 0x7f7f_ffff);
        lemma_value_increases(0x7f7f_ffff, 0x7f80_0000);
        if exact != 0 {
            let r = rounded(size, 1);
            lemma_rounded_exists(size, 1);
            if r < 0x7f7f_ffff {
                lemma_value_increases(r, 0x7f7f_ffff);
                lemma_value_increases(r + 1, 0x7f80_0000);
            }
        }
    }
}

/// A number and its negation are worth the opposite of each other, and negating twice is nothing.
pub proof fn law_negation_turns_the_worth(a: Binary32)
    requires
        !a.is_nan(),
    ensures
        a.negated().value() == -a.value(),
        a.negated().magnitude() == a.magnitude(),
        a.negated().negated() == a,
{
}

/// A difference that is finite is as near to the exact difference as any number is.
pub proof fn law_differences_are_nearest(a: Binary32, b: Binary32, y: Binary32)
    requires
        a.is_finite(),
        b.is_finite(),
        y.is_finite(),
        a.difference(b).is_finite(),
    ensures
        ({
            let exact = a.value() - b.value();
            &&& apart(exact, a.difference(b).value()) <= apart(exact, y.value())
            &&& exact == y.value() ==> a.difference(b).value() == exact
        }),
        a.difference(a).value() == 0,
        a.difference(b) == a.sum(b.negated()),
{
    law_negation_turns_the_worth(b);
    law_negation_turns_the_worth(a);
    law_sums_are_nearest(a, b.negated(), y);
    assert(magnitude_value(0) == 0);
}

/// A product of finite numbers that is finite is as near to the exact product as any number is.
/// Worths are in units of 2^-149, so the exact product is compared with 2^149 times a worth.
pub proof fn law_products_are_nearest(a: Binary32, b: Binary32, y: Binary32)
    requires
        a.is_finite(),
        b.is_finite(),
        y.is_finite(),
        a.product(b).is_finite(),
    ensures
        ({
            let exact = magnitude_value(a.magnitude()) * magnitude_value(b.magnitude());
            let found = pow2(149) * magnitude_value(a.product(b).magnitude());
            let other = pow2(149) * magnitude_value(y.magnitude());
            &&& apart(exact as int, found as int) <= apart(exact as int, other as int)
            &&& apart(exact as int, found as int) == apart(exact as int, other as int)
                && a.product(b).magnitude() != y.magnitude() ==> a.product(b).magnitude() % 2 == 0
        }),
        a.product(b).negative() <==> a.negative() != b.negative(),
{
    let exact = magnitude_value(a.magnitude()) * magnitude_value(b.magnitude());
    lemma_pow2_pos(149);
    lemma_rounded_exists(exact, pow2(149));
    let r = rounded(exact, pow2(149));
    assert(a.product(b).magnitude() == r);
    lemma_nearest_magnitude(exact, pow2(149), r, y.magnitude());
}

/// A product is the same either way round; the sign goes by the signs; what is infinite times
/// zero is no number, and what is infinite times anything else is infinite.
pub proof fn law_products_go_by_the_signs(a: Binary32, b: Binary32)
    ensures
        a.product(b) == b.product(a),
        a.is_nan() || b.is_nan() ==> a.product(b).is_nan(),
        a.is_infinite() && b.magnitude() == 0 ==> a.product(b).is_nan(),
        a.is_infinite() && b.magnitude() > 0 && !b.is_nan() ==> a.product(b).is_infinite()
            && (a.product(b).negative() <==> a.negative() != b.negative()),
        a.is_finite() && b.is_finite() ==> !a.product(b).is_nan() && (a.product(b).negative()
            <==> a.negative() != b.negative()),
{
    let x = magnitude_value(a.magnitude());
    let y = magnitude_value(b.magnitude());
    assert(x * y == y * x) by (nonlinear_arith);
    lemma_pow2_pos(149);
    lemma_rounded_exists(x * y, pow2(149));
}

/// A product of finite numbers is infinite exactly where the exact product is at least halfway
/// from the largest number to the next power of two.
pub proof fn law_products_overflow(a: Binary32, b: Binary32)
    requires
        a.is_finite(),
        b.is_finite(),
    ensures
        a.product(b).is_infinite() <==> 2 * (magnitude_value(a.magnitude()) * magnitude_value(
            b.magnitude(),
        )) >= pow2(149) * (magnitude_value(0x7f7f_ffff) + magnitude_value(0x7f80_0000)),
{
    let exact = magnitude_value(a.magnitude()) * magnitude_value(b.magnitude());
    let den = pow2(149);
    lemma_pow2_pos(149);
    lemma_rounded_exists(exact, den);
    let r = rounded(exact, den);
    let low = magnitude_value(0x7f7f_ffff);
    let high = magnitude_value(0x7f80_0000);
    assert(a.product(b).magnitude() == r);
    if r < 0x7f7f_ffff {
        lemma_value_increases(r, 0x7f7f_ffff);
        lemma_value_increases(r + 1, 0x7f80_0000);
        let here = magnitude_value(r);
        let above = magnitude_value(r + 1);
        assert(den * (here + above) < den * (low + high)) by (nonlinear_arith)
            requires
                here < low,
                above < high,
                den > 0,
        ;
    }
}

/// A sum that is zero is negative only where both parts are; what is infinite or no number stays
/// so when it is halved, and no difference with what is no number is a number.
pub proof fn law_zeros_and_infinities(a: Binary32, b: Binary32)
    ensures
        a.is_finite() && b.is_finite() && a.value() + b.value() == 0 ==> a.sum(b).magnitude() == 0
            && (a.sum(b).negative() <==> a.negative() && b.negative()),
        a.is_infinite() ==> a.halved() == a,
        a.is_nan() ==> a.halved().is_nan(),
        a.is_finite() ==> a.halved().is_finite(),
        a.is_nan() || b.is_nan() ==> a.difference(b).is_nan(),
        !b.is_nan() ==> a.difference(b) == a.sum(b.negated()),
{
    if a.is_finite() {
        let exact = magnitude_value(a.magnitude());
        assert(magnitude_value(0) == 0);
        lemma_rounded_exists(exact, 2);
        let r = rounded(exact, 2);
        if r == 0x7f80_0000 {
            lemma_value_increases(a.magnitude(), 0x7f80_0000);
            lemma_value_increases(0, 0x7f7f_ffff);
            if a.magnitude() < 0x7f7f_ffff {
                lemma_value_increases(a.magnitude(), 0x7f7f_ffff);
            }
        }
    }
}

/// One times a number is the number, zero times it is zero, and zero more than it is worth as much.
pub proof fn law_one_and_zero(a: Binary32, one: Binary32, zero: Binary32)
    requires
        a.is_finite(),
        one.bits == 0x3f80_0000,
        zero.magnitude() == 0,
    ensures
        a.product(one) == a,
        a.product(zero).magnitude() == 0,
        a.sum(zero).is_finite(),
        a.sum(zero).value() == a.value(),
        zero.sum(a).is_finite(),
        zero.sum(a).value() == a.value(),
        zero.value() == 0,
{
    let v = magnitude_value(a.magnitude());
    let den = pow2(149);
    lemma_pow2_pos(149);
    assert(magnitude_value(0) == 0);
    crate::binary32::lemma_value_of_parts(127, 0x80_0000);
    vstd::arithmetic::power2::lemma2_to64();
    vstd::arithmetic::power2::lemma_pow2_adds(23, 126);
    assert(one.magnitude() == 126 * 0x80_0000 + 0x80_0000);
    assert(magnitude_value(one.magnitude()) == den);
    assert(v * den == den * v) by (nonlinear_arith);
    lemma_rounded_exact(v * den, den, a.magnitude());
    assert(v * 0 == 0 && den * 0 == 0) by (nonlinear_arith);
    lemma_rounded_exact(v * 0, den, 0);
    if a.magnitude() > 0 {
        lemma_value_increases(0, a.magnitude());
        assert(1 * v == v);
        lemma_rounded_exact(v, 1, a.magnitude());
    }
}

/// Two finite numbers that are worth the same and are not zero are the same.
pub(crate) proof fn lemma_same_worth(a: Binary32, b: Binary32)
    requires
        a.is_finite(),
        b.is_finite(),
        a.value() == b.value(),
        b.magnitude() > 0,
    ensures
        a == b,
{
    assert(magnitude_value(0) == 0);
    lemma_value_increases(0, b.magnitude());
    if a.magnitude() > 0 {
        lemma_value_increases(0, a.magnitude());
    }
    if a.magnitude() < b.magnitude() {
        lemma_value_increases(a.magnitude(), b.magnitude());
    } else if b.magnitude() < a.magnitude() {
        lemma_value_increases(b.magnitude(), a.magnitude());
    }
}

/// A number squared is the number times its negation, but for the sign.
pub proof fn law_squares_forget_the_sign(a: Binary32)
    requires
        !a.is_nan(),
    ensures
        a.product(a) == a.negated().product(a.negated()),
        !a.product(a).negative(),
        !a.product(a).is_nan(),
{
    let v = magnitude_value(a.magnitude());
    lemma_pow2_pos(149);
    lemma_rounded_exists(v * v, pow2(149));
    law_negation_turns_the_worth(a);
}

/// What is taken from one number to another is the negation of what is taken the other way, and
/// worth nothing where both are worth the same.
pub proof fn law_differences_turn_round(a: Binary32, b: Binary32)
    requires
        a.is_finite(),
        b.is_finite(),
    ensures
        a.value() != b.value() ==> a.difference(b) == b.difference(a).negated(),
        a.value() == b.value() ==> a.difference(b).magnitude() == 0 && b.difference(a).magnitude()
            == 0,
{
    law_negation_turns_the_worth(a);
    law_negation_turns_the_worth(b);
    let exact = a.value() - b.value();
    let size = if exact < 0 { (-exact) as nat } else { exact as nat };
    lemma_rounded_exists(size, 1);
}

/// Half of a finite number is as near to the exact half as any number is, and has its sign.
pub proof fn law_halves_are_nearest(a: Binary32, y: Binary32)
    requires
        a.is_finite(),
        y.is_finite(),
        a.halved().is_finite(),
    ensures
        ({
            let exact = magnitude_value(a.magnitude()) as int;
            apart(exact, (2 * magnitude_value(a.halved().magnitude())) as int) <= apart(
                exact,
                (2 * magnitude_value(y.magnitude())) as int,
            )
        }),
        a.halved().magnitude() != y.magnitude() && apart(
            magnitude_value(a.magnitude()) as int,
            (2 * magnitude_value(a.halved().magnitude())) as int,
        ) == apart(
            magnitude_value(a.magnitude()) as int,
            (2 * magnitude_value(y.magnitude())) as int,
        ) ==> a.halved().magnitude() % 2 == 0,
        a.halved().negative() == a.negative(),
{
    let exact = magnitude_value(a.magnitude());
    lemma_rounded_exists(exact, 2);
    let r = rounded(exact, 2);
    assert(a.halved().magnitude() == r);
    lemma_nearest_magnitude(exact, 2, r, y.magnitude());
}

/// A point is in a rectangle exactly where both its coordinates are numbers between those of the
/// corners, these included.
pub proof fn law_rectangles_hold_what_is_between_their_corners(r: Rect, p: Vec2)
    requires
        !r.min.x.is_nan() && !r.min.y.is_nan() && !r.max.x.is_nan() && !r.max.y.is_nan(),
    ensures
        r.holds(p) <==> !p.x.is_nan() && !p.y.is_nan() && r.min.x.value() <= p.x.value()
            <= r.max.x.value() && r.min.y.value() <= p.y.value() <= r.max.y.value(),
{
}

/// The quadrants of a rectangle on a grid meet in its middle: each has one corner of the
/// rectangle and the middle as its own corners. North is where the second coordinate is larger.
pub proof fn law_quadrants_meet_in_the_middle(
    r: Rect,
    x0: int,
    y0: int,
    qx: int,
    qy: int,
    j: nat,
)
    requires
        j <= 253,
        -0x40_0000 <= x0 <= x0 + 4 * qx <= 0x40_0000,
        -0x40_0000 <= y0 <= y0 + 4 * qy <= 0x40_0000,
        r.min.x.is_finite() && r.max.x.is_finite() && r.min.y.is_finite() && r.max.y.is_finite(),
        r.min.x.value() == x0 * pow2(j),
        r.max.x.value() == (x0 + 4 * qx) * pow2(j),
        r.min.y.value() == y0 * pow2(j),
        r.max.y.value() == (y0 + 4 * qy) * pow2(j),
    ensures
        ({
            let mx = (x0 + 2 * qx) * pow2(j);
            let my = (y0 + 2 * qy) * pow2(j);
            let corners = |q: Rect, left: int, right: int, bottom: int, top: int|
                q.min.x.value() == left && q.max.x.value() == right && q.min.y.value() == bottom
                    && q.max.y.value() == top;
            &&& corners(r.north_west(), r.min.x.value(), mx, my, r.max.y.value())
            &&& corners(r.north_east(), mx, r.max.x.value(), my, r.max.y.value())
            &&& corners(r.south_west(), r.min.x.value(), mx, r.min.y.value(), my)
            &&& corners(r.south_east(), mx, r.max.x.value(), r.min.y.value(), my)
        }),
{
    let g = Grid { x0, x1: x0 + 4 * qx, y0, y1: y0 + 4 * qy };
    lemma_quadrants_on_grid(r, g, j, qx, qy);
    assert(g.mid_x() == x0 + 2 * qx);
    assert(g.mid_y() == y0 + 2 * qy);
}

/// A rectangle around a center reaches half its size to each side.
pub proof fn law_rectangles_lie_around_their_center(center: Vec2, size: Vec2)
    ensures
        ({
            let r = Rect::around(center, size);
            &&& r.min.x == center.x.difference(size.x.halved())
            &&& r.min.y == center.y.difference(size.y.halved())
            &&& r.max.x == center.x.sum(size.x.halved())
            &&& r.max.y == center.y.sum(size.y.halved())
        }),
{
}

/// Whatever the rectangle, its quadrants have half its width and height, and lie a quarter of
/// them to each side of its middle, as far as numbers are exact.
pub proof fn law_quadrants_lie_around_the_middle(r: Rect)
    ensures
        ({
            let half = Binary32 { bits: 0x3f00_0000 };
            let cx = r.min.x.sum(r.max.x).product(half);
            let cy = r.min.y.sum(r.max.y).product(half);
            let w = r.max.x.difference(r.min.x).halved();
            let h = r.max.y.difference(r.min.y).halved();
            let size = Vec2 { x: w, y: h };
            let west = cx.difference(w.halved());
            let east = cx.sum(w.halved());
            let south = cy.difference(h.halved());
            let north = cy.sum(h.halved());
            &&& r.north_west() == Rect::around(Vec2 { x: west, y: north }, size)
            &&& r.north_east() == Rect::around(Vec2 { x: east, y: north }, size)
            &&& r.south_west() == Rect::around(Vec2 { x: west, y: south }, size)
            &&& r.south_east() == Rect::around(Vec2 { x: east, y: south }, size)
            &&& r.spec_center() == (Vec2 { x: cx, y: cy })
            &&& r.spec_width() == r.max.x.difference(r.min.x)
            &&& r.spec_height() == r.max.y.difference(r.min.y)
            &&& r.divisible() <==> at_least_zero(w) && at_least_zero(h)
        }),
{
}

/// Two rectangles overlap exactly where neither lies beyond the other, edges included.
pub proof fn law_rectangles_overlap(a: Rect, b: Rect)
    ensures
        a.overlaps(b) <==> b.overlaps(a),
        a.overlaps(b) <==> a.min.x.spec_le(b.max.x) && b.min.x.spec_le(a.max.x) && a.min.y.spec_le(
            b.max.y,
        ) && b.min.y.spec_le(a.max.y),
{
}

/// Within an infinite radius lies every rectangle that has a point, of every point that has
/// coordinates; within what is no number lies nothing; nor does anything lie within any radius of
/// what has no coordinates.
pub proof fn law_infinite_radii_reach_everything(bounds: Rect, point: Vec2, radius: Binary32)
    ensures
        radius.is_infinite() ==> (bounds.within(point, radius) <==> bounds.min.x.spec_le(
            bounds.max.x,
        ) && bounds.min.y.spec_le(bounds.max.y) && !point.x.is_nan() && !point.y.is_nan()),
        radius.is_nan() ==> !bounds.within(point, radius),
        point.x.is_nan() || point.y.is_nan() ==> !bounds.within(point, radius),
{
}

/// What is inside a rectangle is within every radius that is at least zero of it; what has an
/// infinite coordinate and is outside is within no finite radius.
pub proof fn law_the_inside_is_near(bounds: Rect, point: Vec2, radius: Binary32)
    requires
        at_least_zero(radius),
    ensures
        bounds.holds(point) ==> bounds.within(point, radius),
        radius.is_finite() && point.x.is_infinite() && !(bounds.min.x.spec_le(point.x)
            && point.x.spec_le(bounds.max.x)) ==> !bounds.within(point, radius),
        radius.is_finite() && point.y.is_infinite() && !(bounds.min.y.spec_le(point.y)
            && point.y.spec_le(bounds.max.y)) ==> !bounds.within(point, radius),
{
    let r = radius.value();
    assert(r * r >= 0) by (nonlinear_arith);
}

/// How far numbers are apart is the difference of what they are worth.
pub proof fn law_distances(a: Binary32, b: Binary32)
    ensures
        a.distance(b) == apart(a.value(), b.value()),
        a.distance(b) == b.distance(a),
{
}

} // verus!
