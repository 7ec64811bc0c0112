//! Points and axis-aligned rectangles with binary32 coordinates.

use crate::binary32::{
    lemma_doubled_and_halved,
    lemma_sum_keeps_side,
    lemma_value_increases,
    magnitude_value,
    Binary32,
    INFINITY,
    WORTH_DIGITS,
};
use crate::wide::{amount, at_most, plus, times, widened, zero};
use vstd::prelude::*;

verus! {

/// Bit pattern of `0.0`.
pub const ZERO: u32 = 0;

/// Bit pattern of `0.5`.
pub const ONE_HALF: u32 = 0x3f00_0000;

/// Bit pattern of `2.0`.
pub const TWO: u32 = 0x4000_0000;

/// Whether `0.0 <= a`.
pub open spec fn at_least_zero(a: Binary32) -> bool {
    Binary32 { bits: ZERO }.spec_le(a)
}

#[derive(Clone, Copy, Debug, PartialEq, Eq, Structural)]
pub struct Vec2 {
    pub x: Binary32,
    pub y: Binary32,
}

/// The rectangle of the points between `min` and `max`, edges included.
#[derive(Clone, Copy, Debug, PartialEq, Eq, Structural)]
pub struct Rect {
    pub min: Vec2,
    pub max: Vec2,
}

/// How far a coordinate lies outside the interval from `low` to `high`, exactly, in units of
/// 2^-149: not at all inside it. Nothing where that is no finite number.
pub open spec fn gap(low: Binary32, high: Binary32, at: Binary32) -> Option<nat> {
    let edge = if at.spec_le(low) {
        low
    } else {
        high
    };
    if low.spec_le(at) && at.spec_le(high) {
        Some(0)
    } else if at.is_finite() && edge.is_finite() {
        Some(at.distance(edge))
    } else {
        None
    }
}

/// The digits of how far a coordinate lies outside an interval.
fn gap_of(low: Binary32, high: Binary32, at: Binary32) -> (r: Option<Vec<u32>>)
    ensures
        r is Some <==> gap(low, high, at) is Some,
        r matches Some(digits) ==> digits@.len() == WORTH_DIGITS + 1 && amount(digits@) == gap(
            low,
            high,
            at,
        )->0,
{
    if low.le(at) && at.le(high) {
        return Some(zero(WORTH_DIGITS + 1));
    }
    let edge: Binary32 = if at.le(low) {
        low
    } else {
        high
    };
    if at.finite() && edge.finite() {
        Some(at.exact_distance(edge))
    } else {
        None
    }
}

impl Vec2 {
    pub open spec fn is_finite(self) -> bool {
        self.x.is_finite() && self.y.is_finite()
    }

    /// The square of the distance of two points, exactly, in units of 2^-149.
    pub open spec fn square_to(self, other: Vec2) -> int {
        let dx = other.x.value() - self.x.value();
        let dy = other.y.value() - self.y.value();
        dx * dx + dy * dy
    }

    pub fn new(x: Binary32, y: Binary32) -> (r: Vec2)
        ensures
            r == (Vec2 { x, y }),
    {
        Vec2 { x, y }
    }
}

impl Rect {
    /// Whether `point` lies in the rectangle.
    pub open spec fn holds(self, point: Vec2) -> bool {
        &&& self.min.x.spec_le(point.x)
        &&& point.x.spec_le(self.max.x)
        &&& self.min.y.spec_le(point.y)
        &&& point.y.spec_le(self.max.y)
    }

    /// Whether the two rectangles have a point in common, edges included.
    pub open spec fn overlaps(self, other: Rect) -> bool {
        &&& self.min.x.spec_le(other.max.x)
        &&& other.min.x.spec_le(self.max.x)
        &&& self.min.y.spec_le(other.max.y)
        &&& other.min.y.spec_le(self.max.y)
    }

    /// The square around `point` whose sides are `radius` away from it.
    pub open spec fn square_around(point: Vec2, radius: Binary32) -> Rect {
        let side = radius.product(Binary32 { bits: TWO });
        Rect::around(point, Vec2 { x: side, y: side })
    }

    /// Whether the rectangle has a point.
    pub open spec fn has_points(self) -> bool {
        self.min.x.spec_le(self.max.x) && self.min.y.spec_le(self.max.y)
    }

    /// Whether the rectangle comes within `radius` of `point`. Nothing is rounded: the square of
    /// the distance is compared with the square of the radius as whole numbers of units. Within
    /// an infinite radius lies every rectangle that has a point.
    pub open spec fn within(self, point: Vec2, radius: Binary32) -> bool {
        &&& self.has_points()
        &&& !point.x.is_nan()
        &&& !point.y.is_nan()
        &&& radius.is_infinite() || {
            &&& radius.is_finite()
            &&& gap(self.min.x, self.max.x, point.x) matches Some(dx)
            &&& gap(self.min.y, self.max.y, point.y) matches Some(dy)
            &&& dx * dx + dy * dy <= radius.value() * radius.value()
        }
    }

    /// Whether a finite point of the rectangle is at most `radius` away from `point`.
    pub open spec fn reaches(self, point: Vec2, radius: Binary32) -> bool {
        exists|q: Vec2| #[trigger]
            self.holds(q) && q.is_finite() && point.square_to(q) <= radius.value() * radius.value()
    }

    pub open spec fn spec_width(self) -> Binary32 {
        self.max.x.difference(self.min.x)
    }

    pub open spec fn spec_height(self) -> Binary32 {
        self.max.y.difference(self.min.y)
    }

    pub open spec fn spec_center(self) -> Vec2 {
        Vec2 {
            x: self.min.x.sum(self.max.x).product(Binary32 { bits: ONE_HALF }),
            y: self.min.y.sum(self.max.y).product(Binary32 { bits: ONE_HALF }),
        }
    }

    /// Whether a size has two sides that are at least zero.
    pub open spec fn is_size(size: Vec2) -> bool {
        at_least_zero(size.x) && at_least_zero(size.y)
    }

    pub open spec fn around(center: Vec2, size: Vec2) -> Rect {
        Rect {
            min: Vec2 {
                x: center.x.difference(size.x.halved()),
                y: center.y.difference(size.y.halved()),
            },
            max: Vec2 { x: center.x.sum(size.x.halved()), y: center.y.sum(size.y.halved()) },
        }
    }

    /// Half the width and half the height: the size of a quadrant.
    pub open spec fn quadrant_size(self) -> Vec2 {
        Vec2 { x: self.spec_width().halved(), y: self.spec_height().halved() }
    }

    /// Whether the rectangle has quadrants: its sides are numbers that are at least zero.
    pub open spec fn divisible(self) -> bool {
        Rect::is_size(self.quadrant_size())
    }

    pub open spec fn north_west(self) -> Rect {
        let center = self.spec_center();
        let size = self.quadrant_size();
        Rect::around(
            Vec2 {
                x: center.x.difference(size.x.halved()),
                y: center.y.sum(size.y.halved()),
            },
            size,
        )
    }

    pub open spec fn north_east(self) -> Rect {
        let center = self.spec_center();
        let size = self.quadrant_size();
        Rect::around(
            Vec2 { x: center.x.sum(size.x.halved()), y: center.y.sum(size.y.halved()) },
            size,
        )
    }

    pub open spec fn south_west(self) -> Rect {
        let center = self.spec_center();
        let size = self.quadrant_size();
        Rect::around(
            Vec2 {
                x: center.x.difference(size.x.halved()),
                y: center.y.difference(size.y.halved()),
            },
            size,
        )
    }

    pub open spec fn south_east(self) -> Rect {
        let center = self.spec_center();
        let size = self.quadrant_size();
        Rect::around(
            Vec2 {
                x: center.x.sum(size.x.halved()),
                y: center.y.difference(size.y.halved()),
            },
            size,
        )
    }

    /// Whether the rectangle has quadrants, and these have, for as many levels as given.
    pub open spec fn divisible_to(self, levels: nat) -> bool
        decreases levels,
    {
        levels > 0 ==> {
            &&& self.divisible()
            &&& self.north_west().divisible_to((levels - 1) as nat)
            &&& self.north_east().divisible_to((levels - 1) as nat)
            &&& self.south_west().divisible_to((levels - 1) as nat)
            &&& self.south_east().divisible_to((levels - 1) as nat)
        }
    }

    /// Whether every point of the rectangle lies in one of its quadrants.
    pub open spec fn covered_by_quadrants(self) -> bool {
        forall|point: Vec2| #[trigger]
            self.holds(point) ==> {
                ||| self.north_west().holds(point)
                ||| self.north_east().holds(point)
                ||| self.south_west().holds(point)
                ||| self.south_east().holds(point)
            }
    }

    /// Whether the quadrants cover the rectangle, for as many levels as given.
    pub open spec fn covered_to(self, levels: nat) -> bool
        decreases levels,
    {
        levels > 0 ==> {
            &&& self.covered_by_quadrants()
            &&& self.north_west().covered_to((levels - 1) as nat)
            &&& self.north_east().covered_to((levels - 1) as nat)
            &&& self.south_west().covered_to((levels - 1) as nat)
            &&& self.south_east().covered_to((levels - 1) as nat)
        }
    }

    pub fn contains(&self, point: Vec2) -> (r: bool)
        ensures
            r == self.holds(point),
    {
        self.min.x.le(point.x) && point.x.le(self.max.x) && self.min.y.le(point.y) && point.y.le(
            self.max.y,
        )
    }

    /// Whether the rectangle comes within `radius` of `point`.
    pub fn is_within(&self, point: Vec2, radius: Binary32) -> (r: bool)
        requires
            at_least_zero(radius),
        ensures
            r == self.within(point, radius),
    {
        if !self.min.x.le(self.max.x) || !self.min.y.le(self.max.y) || point.x.not_a_number()
            || point.y.not_a_number() {
            return false;
        }
        if !radius.finite() {
            return true;
        }
        if point.x.finite() && point.y.finite() {
            // Most rectangles lie outside the square around the point, which is quickly seen.
            proof {
                assert(magnitude_value(0) == 0);
                lemma_doubled_and_halved(radius, Binary32 { bits: TWO });
                law_what_is_within_overlaps_the_square(*self, point, radius);
            }
            let side: Binary32 = radius.times(Binary32 { bits: TWO });
            let square: Rect = Rect::from_center_size(point, Vec2::new(side, side));
            if !rects_overlap(*self, square) {
                return false;
            }
        }
        let dx: Vec<u32> = match gap_of(self.min.x, self.max.x, point.x) {
            Some(digits) => digits,
            None => {
                return false;
            },
        };
        let dy: Vec<u32> = match gap_of(self.min.y, self.max.y, point.y) {
            Some(digits) => digits,
            None => {
                return false;
            },
        };
        let origin: Binary32 = Binary32 { bits: ZERO };
        let r: Vec<u32> = radius.exact_distance(origin);
        proof {
            assert(origin.value() == 0);
            let v = radius.value();
            let d = radius.distance(origin);
            assert(d * d == v * v) by (nonlinear_arith)
                requires
                    d == v || d == -v,
            ;
        }
        at_most(&plus(&times(&dx, &dx), &times(&dy, &dy)), &widened(times(&r, &r)))
    }

    pub fn width(&self) -> (r: Binary32)
        ensures
            r == self.spec_width(),
    {
        self.max.x.minus(self.min.x)
    }

    pub fn height(&self) -> (r: Binary32)
        ensures
            r == self.spec_height(),
    {
        self.max.y.minus(self.min.y)
    }

    pub fn center(&self) -> (r: Vec2)
        ensures
            r == self.spec_center(),
    {
        Vec2 {
            x: self.min.x.plus(self.max.x).times(Binary32 { bits: ONE_HALF }),
            y: self.min.y.plus(self.max.y).times(Binary32 { bits: ONE_HALF }),
        }
    }

    pub fn from_center_size(center: Vec2, size: Vec2) -> (r: Rect)
        requires
            Rect::is_size(size),
        ensures
            r == Rect::around(center, size),
    {
        let half_x: Binary32 = size.x.half();
        let half_y: Binary32 = size.y.half();
        Rect {
            min: Vec2 { x: center.x.minus(half_x), y: center.y.minus(half_y) },
            max: Vec2 { x: center.x.plus(half_x), y: center.y.plus(half_y) },
        }
    }
}

/// Whether the two rectangles have a point in common, edges included.
pub fn rects_overlap(r1: Rect, r2: Rect) -> (r: bool)
    ensures
        r == r1.overlaps(r2),
{
    r1.min.x.le(r2.max.x) && r2.min.x.le(r1.max.x) && r1.min.y.le(r2.max.y) && r2.min.y.le(
        r1.max.y,
    )
}

/// An interval whose gap is at most `radius` meets the one that reaches `radius` to both sides.
proof fn lemma_gap_meets(low: Binary32, high: Binary32, at: Binary32, radius: Binary32)
    requires
        at.is_finite(),
        radius.is_finite(),
        at_least_zero(radius),
        low.spec_le(high),
        gap(low, high, at) matches Some(d) && d <= radius.value(),
    ensures
        ({
            let half = radius.product(Binary32 { bits: TWO }).halved();
            &&& low.spec_le(at.sum(half))
            &&& at.difference(half).spec_le(high)
        }),
{
    let half = radius.product(Binary32 { bits: TWO }).halved();
    assert(magnitude_value(0) == 0);
    lemma_doubled_and_halved(radius, Binary32 { bits: TWO });
    let back = half.negated();
    assert(back.magnitude() == half.magnitude());
    if half.is_finite() {
        assert(back.value() == -half.value());
        lemma_sum_keeps_side(at, half, low);
        lemma_sum_keeps_side(at, back, high);
    } else {
        assert(at.sum(half) == half);
        assert(at.difference(half) == back);
        if low.magnitude() < INFINITY {
            lemma_value_increases(low.magnitude(), INFINITY as nat);
        }
        if high.magnitude() < INFINITY {
            lemma_value_increases(high.magnitude(), INFINITY as nat);
        }
        lemma_value_increases(0, INFINITY as nat);
    }
}

/// What comes within a finite radius of a finite point overlaps the square around the point, the
/// corners of the square being rounded.
pub proof fn law_what_is_within_overlaps_the_square(bounds: Rect, point: Vec2, radius: Binary32)
    requires
        point.is_finite(),
        radius.is_finite(),
        at_least_zero(radius),
    ensures
        bounds.within(point, radius) ==> bounds.overlaps(Rect::square_around(point, radius)),
{
    if bounds.within(point, radius) {
        assert(magnitude_value(0) == 0);
        let r = radius.value();
        let dx = gap(bounds.min.x, bounds.max.x, point.x)->0;
        let dy = gap(bounds.min.y, bounds.max.y, point.y)->0;
        assert(dx <= r && dy <= r) by (nonlinear_arith)
            requires
                r >= 0,
                dx >= 0,
                dy >= 0,
                dx * dx + dy * dy <= r * r,
        ;
        lemma_gap_meets(bounds.min.x, bounds.max.x, point.x, radius);
        lemma_gap_meets(bounds.min.y, bounds.max.y, point.y, radius);
    }
}

/// The coordinate of an interval that is nearest to a finite one.
spec fn nearest(low: Binary32, high: Binary32, at: Binary32) -> Binary32 {
    if low.spec_le(at) && at.spec_le(high) {
        at
    } else if at.spec_le(low) {
        low
    } else {
        high
    }
}

/// No finite coordinate of an interval is nearer than the gap to the interval.
proof fn lemma_gap(low: Binary32, high: Binary32, at: Binary32, q: Binary32)
    requires
        at.is_finite(),
        q.is_finite(),
        low.spec_le(q),
        q.spec_le(high),
    ensures
        gap(low, high, at) matches Some(d) && d <= at.distance(q),
{
    if !(low.spec_le(at) && at.spec_le(high)) {
        lemma_between_finite(low, q);
        lemma_between_finite(q, high);
        if at.spec_le(low) {
            lemma_between_finite(at, low);
        } else {
            lemma_between_finite(high, at);
        }
    }
}

/// Only the positive infinity is more than a finite number, and only the negative one less.
proof fn lemma_between_finite(a: Binary32, b: Binary32)
    requires
        a.spec_le(b),
    ensures
        a.is_finite() && b.is_infinite() ==> !b.negative(),
        a.is_infinite() && b.is_finite() ==> a.negative(),
{
    assert(magnitude_value(0) == 0);
    if a.magnitude() < INFINITY {
        lemma_value_increases(a.magnitude(), INFINITY as nat);
    }
    if b.magnitude() < INFINITY {
        lemma_value_increases(b.magnitude(), INFINITY as nat);
    }
}

/// For a finite point and a finite radius, a rectangle comes within the radius exactly where one
/// of its finite points is at most the radius away.
pub proof fn law_within_is_reaching(bounds: Rect, point: Vec2, radius: Binary32)
    requires
        point.is_finite(),
        radius.is_finite(),
    ensures
        bounds.within(point, radius) <==> bounds.reaches(point, radius),
{
    let r = radius.value();
    if bounds.within(point, radius) {
        let q = Vec2 {
            x: nearest(bounds.min.x, bounds.max.x, point.x),
            y: nearest(bounds.min.y, bounds.max.y, point.y),
        };
        lemma_nearest(bounds.min.x, bounds.max.x, point.x);
        lemma_nearest(bounds.min.y, bounds.max.y, point.y);
        let dx = gap(bounds.min.x, bounds.max.x, point.x)->0;
        let dy = gap(bounds.min.y, bounds.max.y, point.y)->0;
        lemma_square_of_distance(point.x, q.x);
        lemma_square_of_distance(point.y, q.y);
        assert(point.square_to(q) == dx * dx + dy * dy);
        assert(bounds.holds(q));
    }
    if bounds.reaches(point, radius) {
        let q = choose|q: Vec2| #[trigger]
            bounds.holds(q) && q.is_finite() && point.square_to(q) <= r * r;
        lemma_gap(bounds.min.x, bounds.max.x, point.x, q.x);
        lemma_gap(bounds.min.y, bounds.max.y, point.y, q.y);
        let dx = gap(bounds.min.x, bounds.max.x, point.x)->0;
        let dy = gap(bounds.min.y, bounds.max.y, point.y)->0;
        lemma_square_of_distance(point.x, q.x);
        lemma_square_of_distance(point.y, q.y);
        let ex = point.x.distance(q.x);
        let ey = point.y.distance(q.y);
        assert(dx * dx + dy * dy <= ex * ex + ey * ey) by (nonlinear_arith)
            requires
                dx <= ex,
                dy <= ey,
        ;
    }
}

proof fn lemma_nearest(low: Binary32, high: Binary32, at: Binary32)
    requires
        at.is_finite(),
        low.spec_le(high),
        gap(low, high, at) is Some,
    ensures
        ({
            let q = nearest(low, high, at);
            &&& q.is_finite()
            &&& low.spec_le(q)
            &&& q.spec_le(high)
            &&& gap(low, high, at) == Some(at.distance(q))
        }),
{
}

proof fn lemma_square_of_distance(a: Binary32, b: Binary32)
    ensures
        a.distance(b) * a.distance(b) == (b.value() - a.value()) * (b.value() - a.value()),
{
    let d = a.distance(b) as int;
    let e = b.value() - a.value();
    assert(d * d == e * e) by (nonlinear_arith)
        requires
            d == e || d == -e,
    ;
}

} // verus!
