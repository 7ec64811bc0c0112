//! Rectangles on a grid of a power of two, whose quadrants come out exact.
//!
//! Coordinates are rounded, so the quadrants of an arbitrary rectangle may leave gaps. On a
//! grid that is fine enough no operation rounds, and the quadrants tile the rectangle.

use crate::binary32::{
    lemma_representable,
    lemma_rounded_exact,
    lemma_value_of_parts,
    magnitude_value,
    Binary32,
    INFINITY,
};
use crate::geometry::{Rect, Vec2, ONE_HALF, ZERO};
use vstd::arithmetic::power2::{lemma_pow2_adds, lemma_pow2_pos, lemma_pow2_unfold, pow2};
use vstd::prelude::*;

verus! {

/// The number is `k` steps of `2^j` units of 2^-149.
pub open spec fn on_grid(a: Binary32, k: int, j: nat) -> bool {
    a.is_finite() && a.value() == k * pow2(j)
}

/// The corners of a rectangle, in steps of a grid.
pub struct Grid {
    pub x0: int,
    pub x1: int,
    pub y0: int,
    pub y1: int,
}

impl Grid {
    /// The corners are in order, and within 2^22 steps of the origin.
    pub open spec fn within_bounds(self) -> bool {
        &&& -0x40_0000 <= self.x0 <= self.x1 <= 0x40_0000
        &&& -0x40_0000 <= self.y0 <= self.y1 <= 0x40_0000
    }

    /// Both sides can be halved `levels + 1` times.
    pub open spec fn halvable(self, wx: nat, wy: nat, levels: nat) -> bool {
        &&& self.x1 - self.x0 == wx * pow2(levels + 1)
        &&& self.y1 - self.y0 == wy * pow2(levels + 1)
    }

    pub open spec fn mid_x(self) -> int {
        (self.x0 + self.x1) / 2
    }

    pub open spec fn mid_y(self) -> int {
        (self.y0 + self.y1) / 2
    }

    pub open spec fn north_west(self) -> Grid {
        Grid { x1: self.mid_x(), y0: self.mid_y(), ..self }
    }

    pub open spec fn north_east(self) -> Grid {
        Grid { x0: self.mid_x(), y0: self.mid_y(), ..self }
    }

    pub open spec fn south_west(self) -> Grid {
        Grid { x1: self.mid_x(), y1: self.mid_y(), ..self }
    }

    pub open spec fn south_east(self) -> Grid {
        Grid { x0: self.mid_x(), y1: self.mid_y(), ..self }
    }
}

/// The rectangle has the corners of `g` on the grid of `2^j` units.
pub open spec fn rect_on_grid(r: Rect, g: Grid, j: nat) -> bool {
    &&& on_grid(r.min.x, g.x0, j)
    &&& on_grid(r.max.x, g.x1, j)
    &&& on_grid(r.min.y, g.y0, j)
    &&& on_grid(r.max.y, g.y1, j)
}

proof fn lemma_signed(negative: bool, m: nat)
    requires
        m < INFINITY,
    ensures
        Binary32::signed(negative, m).negative() == negative,
        Binary32::signed(negative, m).magnitude() == m,
        Binary32::signed(negative, m).is_finite(),
{
}

/// Sums of grid numbers do not round.
proof fn lemma_sum_on_grid(a: Binary32, ka: int, b: Binary32, kb: int, j: nat)
    requires
        on_grid(a, ka, j),
        on_grid(b, kb, j),
        j <= 253,
        -0x100_0000 < ka + kb < 0x100_0000,
    ensures
        on_grid(a.sum(b), ka + kb, j),
{
    let p = pow2(j);
    let k = ka + kb;
    lemma_pow2_pos(j);
    assert(ka * p + kb * p == k * p) by (nonlinear_arith)
        requires
            k == ka + kb,
    ;
    let size = if k < 0 { (-k) as nat } else { k as nat };
    let m = lemma_representable(size, j);
    lemma_rounded_exact(magnitude_value(m), 1, m);
    assert(magnitude_value(0) == 0);
    if k == 0 {
        assert(0 * p == 0);
        lemma_signed(a.negative() && b.negative(), 0);
    } else if k < 0 {
        assert(k * p < 0 && -(k * p) == size * p) by (nonlinear_arith)
            requires
                k < 0,
                p > 0,
                size == -k,
        ;
        lemma_signed(true, m);
    } else {
        assert(k * p > 0) by (nonlinear_arith)
            requires
                k > 0,
                p > 0,
        ;
        lemma_signed(false, m);
    }
}

/// Differences of grid numbers do not round.
proof fn lemma_difference_on_grid(a: Binary32, ka: int, b: Binary32, kb: int, j: nat)
    requires
        on_grid(a, ka, j),
        on_grid(b, kb, j),
        j <= 253,
        -0x100_0000 < ka - kb < 0x100_0000,
    ensures
        on_grid(a.difference(b), ka - kb, j),
{
    lemma_signed(!b.negative(), b.magnitude());
    assert((-kb) * pow2(j) == -(kb * pow2(j))) by (nonlinear_arith);
    lemma_sum_on_grid(a, ka, b.negated(), -kb, j);
}

/// The magnitude of a grid number.
proof fn lemma_magnitude_on_grid(a: Binary32, k: int, j: nat)
    requires
        on_grid(a, k, j),
    ensures
        magnitude_value(a.magnitude()) == (if k < 0 {
            -k
        } else {
            k
        }) * pow2(j),
        k < 0 ==> a.negative(),
        k > 0 ==> !a.negative(),
{
    let p = pow2(j);
    lemma_pow2_pos(j);
    assert(k < 0 ==> k * p < 0) by (nonlinear_arith)
        requires
            p > 0,
    ;
    assert(k > 0 ==> k * p > 0) by (nonlinear_arith)
        requires
            p > 0,
    ;
    assert((-k) * p == -(k * p)) by (nonlinear_arith);
    if k == 0 {
        assert(0 * p == 0);
    }
}

/// Half of an even grid number, however it is computed.
proof fn lemma_half_on_grid(a: Binary32, k: int, half: int, j: nat)
    requires
        on_grid(a, k, j),
        k == 2 * half,
        j <= 253,
        -0x100_0000 < half < 0x100_0000,
    ensures
        on_grid(a.halved(), half, j),
        on_grid(a.product(Binary32 { bits: ONE_HALF }), half, j),
{
    let p = pow2(j);
    lemma_magnitude_on_grid(a, k, j);
    let size = if half < 0 { (-half) as nat } else { half as nat };
    let v = magnitude_value(a.magnitude());
    assert(v == 2 * (size * p)) by (nonlinear_arith)
        requires
            v == (if k < 0 { -k } else { k }) * p,
            k == 2 * half,
            size == (if half < 0 { -half } else { half }),
    ;
    let m = lemma_representable(size, j);
    lemma_rounded_exact(v, 2, m);
    // 0.5 is worth 2^148 units.
    let one_half = Binary32 { bits: ONE_HALF };
    lemma_value_of_parts(126, 0x80_0000);
    assert(one_half.magnitude() == 125 * 0x80_0000 + 0x80_0000);
    let h = magnitude_value(one_half.magnitude());
    vstd::arithmetic::power2::lemma2_to64();
    lemma_pow2_adds(23, 125);
    assert(h == pow2(148));
    lemma_pow2_unfold(149);
    lemma_pow2_pos(149);
    assert(v * h == pow2(149) * magnitude_value(m)) by (nonlinear_arith)
        requires
            v == 2 * (size * p),
            magnitude_value(m) == size * p,
            pow2(149) == 2 * h,
    ;
    lemma_rounded_exact(v * h, pow2(149), m);
    lemma_signed(a.negative(), m);
    assert((-half) * p == -(half * p)) by (nonlinear_arith);
    assert(!one_half.negative());
    assert(one_half.is_finite());
    if half == 0 {
        assert(0 * p == 0);
    }
}

/// A rectangle around a grid point, with sides of an even number of steps.
pub(crate) proof fn lemma_around_on_grid(center: Vec2, cx: int, cy: int, size: Vec2, hx: int, hy: int, j: nat)
    requires
        on_grid(center.x, cx, j),
        on_grid(center.y, cy, j),
        on_grid(size.x, 2 * hx, j),
        on_grid(size.y, 2 * hy, j),
        j <= 253,
        -0x80_0000 < cx < 0x80_0000,
        -0x80_0000 < cy < 0x80_0000,
        0 <= hx < 0x80_0000,
        0 <= hy < 0x80_0000,
    ensures
        rect_on_grid(
            Rect::around(center, size),
            (Grid { x0: cx - hx, x1: cx + hx, y0: cy - hy, y1: cy + hy }),
            j,
        ),
{
    lemma_half_on_grid(size.x, 2 * hx, hx, j);
    lemma_half_on_grid(size.y, 2 * hy, hy, j);
    lemma_difference_on_grid(center.x, cx, size.x.halved(), hx, j);
    lemma_difference_on_grid(center.y, cy, size.y.halved(), hy, j);
    lemma_sum_on_grid(center.x, cx, size.x.halved(), hx, j);
    lemma_sum_on_grid(center.y, cy, size.y.halved(), hy, j);
}

/// The quadrants of a rectangle whose sides are divisible by four steps.
pub(crate) proof fn lemma_quadrants_on_grid(r: Rect, g: Grid, j: nat, qx: int, qy: int)
    requires
        rect_on_grid(r, g, j),
        g.within_bounds(),
        j <= 253,
        g.x1 - g.x0 == 4 * qx,
        g.y1 - g.y0 == 4 * qy,
    ensures
        r.divisible(),
        rect_on_grid(r.north_west(), g.north_west(), j),
        rect_on_grid(r.north_east(), g.north_east(), j),
        rect_on_grid(r.south_west(), g.south_west(), j),
        rect_on_grid(r.south_east(), g.south_east(), j),
        g.north_west().within_bounds(),
        g.north_east().within_bounds(),
        g.south_west().within_bounds(),
        g.south_east().within_bounds(),
        r.covered_by_quadrants(),
{
    let p = pow2(j);
    lemma_pow2_pos(j);
    let cx = g.mid_x();
    let cy = g.mid_y();
    assert(cx == g.x0 + 2 * qx && cy == g.y0 + 2 * qy);
    // Width and height, halved twice.
    lemma_difference_on_grid(r.max.x, g.x1, r.min.x, g.x0, j);
    lemma_difference_on_grid(r.max.y, g.y1, r.min.y, g.y0, j);
    lemma_half_on_grid(r.spec_width(), 4 * qx, 2 * qx, j);
    lemma_half_on_grid(r.spec_height(), 4 * qy, 2 * qy, j);
    let size = r.quadrant_size();
    lemma_half_on_grid(size.x, 2 * qx, qx, j);
    lemma_half_on_grid(size.y, 2 * qy, qy, j);
    let hx = size.x.halved();
    let hy = size.y.halved();
    // The center.
    lemma_sum_on_grid(r.min.x, g.x0, r.max.x, g.x1, j);
    lemma_sum_on_grid(r.min.y, g.y0, r.max.y, g.y1, j);
    lemma_half_on_grid(r.min.x.sum(r.max.x), g.x0 + g.x1, cx, j);
    lemma_half_on_grid(r.min.y.sum(r.max.y), g.y0 + g.y1, cy, j);
    let c = r.spec_center();
    // The centers of the quadrants.
    let west = c.x.difference(hx);
    let east = c.x.sum(hx);
    let north = c.y.sum(hy);
    let south = c.y.difference(hy);
    lemma_difference_on_grid(c.x, cx, hx, qx, j);
    lemma_sum_on_grid(c.x, cx, hx, qx, j);
    lemma_sum_on_grid(c.y, cy, hy, qy, j);
    lemma_difference_on_grid(c.y, cy, hy, qy, j);
    // Their corners.
    lemma_difference_on_grid(west, cx - qx, hx, qx, j);
    lemma_sum_on_grid(west, cx - qx, hx, qx, j);
    lemma_difference_on_grid(east, cx + qx, hx, qx, j);
    lemma_sum_on_grid(east, cx + qx, hx, qx, j);
    lemma_difference_on_grid(north, cy + qy, hy, qy, j);
    lemma_sum_on_grid(north, cy + qy, hy, qy, j);
    lemma_difference_on_grid(south, cy - qy, hy, qy, j);
    lemma_sum_on_grid(south, cy - qy, hy, qy, j);
    // The sizes are at least zero.
    assert((2 * qx) * p >= 0 && (2 * qy) * p >= 0) by (nonlinear_arith)
        requires
            qx >= 0,
            qy >= 0,
            p > 0,
    ;
    assert(magnitude_value(0) == 0);
    assert(Binary32 { bits: ZERO }.value() == 0);
    // A point west of the center line lies in a western quadrant, and so on.
    assert(on_grid(r.north_west().max.x, cx, j));
    assert(on_grid(r.south_west().max.x, cx, j));
    assert(on_grid(r.north_east().min.x, cx, j));
    assert(on_grid(r.south_east().min.x, cx, j));
    assert(on_grid(r.north_west().min.y, cy, j));
    assert(on_grid(r.north_east().min.y, cy, j));
    assert(on_grid(r.south_west().max.y, cy, j));
    assert(on_grid(r.south_east().max.y, cy, j));
}

/// A rectangle whose sides can be halved often enough can be divided to that depth, and its
/// quadrants cover it at every level.
pub proof fn law_grid_rectangles_tile(r: Rect, g: Grid, j: nat, wx: nat, wy: nat, levels: nat)
    requires
        rect_on_grid(r, g, j),
        g.within_bounds(),
        g.halvable(wx, wy, levels),
        j <= 253,
    ensures
        r.divisible_to(levels),
        r.covered_to(levels),
    decreases levels,
{
    if levels > 0 {
        let less = (levels - 1) as nat;
        lemma_pow2_unfold(levels + 1);
        lemma_pow2_unfold(levels);
        let qx = wx * pow2(less);
        let qy = wy * pow2(less);
        assert(wx * (2 * (2 * pow2(less))) == 4 * qx) by (nonlinear_arith)
            requires
                qx == wx * pow2(less),
        ;
        assert(wy * (2 * (2 * pow2(less))) == 4 * qy) by (nonlinear_arith)
            requires
                qy == wy * pow2(less),
        ;
        assert(wx * (2 * pow2(less)) == 2 * qx) by (nonlinear_arith)
            requires
                qx == wx * pow2(less),
        ;
        assert(wy * (2 * pow2(less)) == 2 * qy) by (nonlinear_arith)
            requires
                qy == wy * pow2(less),
        ;
        lemma_quadrants_on_grid(r, g, j, qx as int, qy as int);
        law_grid_rectangles_tile(r.north_west(), g.north_west(), j, wx, wy, less);
        law_grid_rectangles_tile(r.north_east(), g.north_east(), j, wx, wy, less);
        law_grid_rectangles_tile(r.south_west(), g.south_west(), j, wx, wy, less);
        law_grid_rectangles_tile(r.south_east(), g.south_east(), j, wx, wy, less);
    }
}

} // verus!
