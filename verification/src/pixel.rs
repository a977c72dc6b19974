use vstd::math::abs;
use vstd::prelude::*;

use crate::coordinates::Coordinates;
use crate::rounding::{cube_round, cube_round_exec, lemma_cube_round_exact, lemma_cube_round_range};

verus! {

// The pixel projection is the linear map
//     x = hd * (cos(pi/3) * r + q),    y = hd * (sin(pi/3) * r)
// offset by a fixed viewport origin, where the hex diameter `hd` is the
// hex size of 30 pixels scaled by 19/10 — a gap factor between sqrt(3)
// and 2 that leaves a visible seam between adjacent hexes — giving 57.
// sin(pi/3) is carried as the exact fraction 86602540378 over 10^11, so
// the projection and its inverse are integer computations with one
// explicit truncation each. The literal coefficients below are:
//     114 = 2 * 57                 (x numerator over denominator 2)
//     4936344801546 = 57 * 86602540378
//     173205080756 = 2 * 86602540378
//     9872689603092 = 114 * 86602540378
/// Horizontal pixel offset of the board origin: a quarter of the
/// viewport width of 1280.
pub const VIEW_X_OFFSET: i128 = 320;

/// Vertical pixel offset of the board origin: a fifth of the viewport
/// height of 600.
pub const VIEW_Y_OFFSET: i128 = 120;

/// Largest coordinate magnitude the projection accepts; keeps every
/// pixel value within `i32`.
pub const PIXEL_COORD_LIMIT: i32 = 10000000;

/// Largest pixel magnitude the inverse projection accepts.
pub const PIXEL_INPUT_LIMIT: i32 = 0x4000_0000;

/// Quotient of `n / d` truncated towards zero, the rounding a
/// float-to-integer cast performs.
pub open spec fn trunc_div(n: int, d: int) -> int
    recommends
        d > 0,
{
    if n >= 0 {
        n / d
    } else {
        -((-n) / d)
    }
}

/// Horizontal pixel of a hex center.
pub open spec fn pixel_x(c: Coordinates) -> int {
    trunc_div(114 * c.q + 57 * c.r, 2) + 320
}

/// Vertical pixel of a hex center.
pub open spec fn pixel_y(c: Coordinates) -> int {
    trunc_div(4936344801546 * c.r, 100000000000) + 120
}

/// Fractional axial position of a pixel under the inverse projection,
/// cube-rounded to its hex: the numerators invert the projection matrix
/// over the common denominator `114 * 86602540378`.
pub open spec fn pixel_to_hex(x: int, y: int) -> (int, int) {
    cube_round(
        173205080756 * (x - 320) - 100000000000 * (y - 120),
        200000000000 * (y - 120),
        9872689603092,
    )
}

/// Truncating division leaves a remainder smaller than the divisor.
proof fn lemma_trunc_div_rem(n: int, d: int)
    requires
        d > 0,
    ensures
        abs(n - d * trunc_div(n, d)) < d,
{
    if n >= 0 {
        vstd::arithmetic::div_mod::lemma_fundamental_div_mod(n, d);
        vstd::arithmetic::div_mod::lemma_mod_division_less_than_divisor(n, d);
    } else {
        vstd::arithmetic::div_mod::lemma_fundamental_div_mod(-n, d);
        vstd::arithmetic::div_mod::lemma_mod_division_less_than_divisor(-n, d);
        assert(d * (-((-n) / d)) == -(d * ((-n) / d))) by (nonlinear_arith);
    }
}

/// Quotient of `n / d` truncated towards zero.
fn trunc_div_exec(n: i128, d: i128) -> (r: i128)
    requires
        0 < d,
        -0x1000_0000_0000_0000_0000_0000 <= n <= 0x1000_0000_0000_0000_0000_0000,
    ensures
        r == trunc_div(n as int, d as int),
{
    if n >= 0 {
        n / d
    } else {
        -((-n) / d)
    }
}

impl Coordinates {
    /// Pixel position of the hex center under the viewport projection.
    pub fn to_pixel(self) -> (p: (i32, i32))
        requires
            -PIXEL_COORD_LIMIT <= self.q <= PIXEL_COORD_LIMIT,
            -PIXEL_COORD_LIMIT <= self.r <= PIXEL_COORD_LIMIT,
        ensures
            p.0 == pixel_x(self),
            p.1 == pixel_y(self),
    {
        let xn: i128 = 114 * (self.q as i128) + 57 * (self.r as i128);
        let yn: i128 = 4936344801546 * (self.r as i128);
        let x = trunc_div_exec(xn, 2) + VIEW_X_OFFSET;
        let y = trunc_div_exec(yn, 100000000000) + VIEW_Y_OFFSET;
        proof {
            lemma_trunc_div_rem(xn as int, 2);
            lemma_trunc_div_rem(yn as int, 100000000000);
        }
        (x as i32, y as i32)
    }

    /// The hex containing a pixel position: the inverse projection into
    /// fractional axial coordinates, cube-rounded.
    pub fn from_pixel(x: i32, y: i32) -> (c: Coordinates)
        requires
            -PIXEL_INPUT_LIMIT <= x <= PIXEL_INPUT_LIMIT,
            -PIXEL_INPUT_LIMIT <= y <= PIXEL_INPUT_LIMIT,
        ensures
            c.q == pixel_to_hex(x as int, y as int).0,
            c.r == pixel_to_hex(x as int, y as int).1,
    {
        let xa: i128 = (x as i128) - VIEW_X_OFFSET;
        let ya: i128 = (y as i128) - VIEW_Y_OFFSET;
        let qn: i128 = 173205080756 * xa - 100000000000 * ya;
        let rn: i128 = 200000000000 * ya;
        let den: i128 = 9872689603092;
        proof {
            let b: int = 40000000;
            assert((-b) * (den as int) <= qn <= b * (den as int));
            assert((-b) * (den as int) <= rn <= b * (den as int));
            lemma_cube_round_range(qn as int, rn as int, den as int, -b, b, -b, b);
        }
        let (cq, cr) = cube_round_exec(qn, rn, den);
        Coordinates { q: cq as i32, r: cr as i32 }
    }
}

/// Pixel offset of hex corner `i` from the hex center: the hex size of
/// 30 pixels times the cosine and sine of `60 * i - 30` degrees, each
/// rounded to the nearest pixel.
pub open spec fn corner_offset(i: int) -> (int, int) {
    if i == 0 {
        (26, -15)
    } else if i == 1 {
        (26, 15)
    } else if i == 2 {
        (0, 30)
    } else if i == 3 {
        (-26, 15)
    } else if i == 4 {
        (-26, -15)
    } else {
        (0, -30)
    }
}

impl Coordinates {
    /// Pixel position of one corner of the hex, for drawing its outline.
    pub fn corner_pixel(self, i: i32) -> (p: (i32, i32))
        requires
            0 <= i < 6,
            -PIXEL_COORD_LIMIT <= self.q <= PIXEL_COORD_LIMIT,
            -PIXEL_COORD_LIMIT <= self.r <= PIXEL_COORD_LIMIT,
        ensures
            p.0 == pixel_x(self) + corner_offset(i as int).0,
            p.1 == pixel_y(self) + corner_offset(i as int).1,
    {
        let (cx, cy) = self.to_pixel();
        let (dx, dy): (i32, i32) = if i == 0 {
            (26, -15)
        } else if i == 1 {
            (26, 15)
        } else if i == 2 {
            (0, 30)
        } else if i == 3 {
            (-26, 15)
        } else if i == 4 {
            (-26, -15)
        } else {
            (0, -30)
        };
        (cx + dx, cy + dy)
    }
}

/// Projecting a hex to its pixel center and rounding that pixel back
/// through the inverse projection returns the original hex.
pub proof fn lemma_pixel_round_trip(c: Coordinates)
    requires
        -PIXEL_COORD_LIMIT <= c.q <= PIXEL_COORD_LIMIT,
        -PIXEL_COORD_LIMIT <= c.r <= PIXEL_COORD_LIMIT,
    ensures
        pixel_to_hex(pixel_x(c), pixel_y(c)) == (c.q as int, c.r as int),
{
    let den: int = 9872689603092;
    let xn: int = 114 * c.q + 57 * c.r;
    let yn: int = 4936344801546 * c.r;
    let xt = trunc_div(xn, 2);
    let yt = trunc_div(yn, 100000000000);
    let ex = xn - 2 * xt;
    let ey = yn - 100000000000 * yt;
    lemma_trunc_div_rem(xn, 2);
    lemma_trunc_div_rem(yn, 100000000000);
    let qn = 173205080756 * xt - 100000000000 * yt;
    let rn = 200000000000 * yt;
    let eq = ey - 86602540378 * ex;
    let er = -2 * ey;
    assert(qn == den * c.q + eq);
    assert(rn == den * c.r + er);
    assert(abs(eq) < 100000000000 + 2 * 86602540378);
    assert(abs(er) < 200000000000);
    assert(3 * (abs(eq) + abs(er)) < den);
    lemma_cube_round_exact(c.q as int, c.r as int, eq, er, den);
    assert(pixel_x(c) - 320 == xt && pixel_y(c) - 120 == yt);
}

} // verus!
