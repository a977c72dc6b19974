use vstd::prelude::*;

use crate::coordinates::{hex_dist, Coordinates, COORD_LIMIT};
use crate::rounding::{cube_round, cube_round_exec, lemma_cube_round_range};

verus! {

// A line between two hexes is traced in fractional axial space. The
// start point is first nudged by a fixed tiny vector, once towards
// (+1, +2) and once towards (-1, -2) millionths of a hex: a sample that
// would fall exactly on a tile edge is pushed to one deterministic side,
// and the two nudges give the caller both candidate polylines.
/// Number of interpolated hexes strictly between `a` and `b`.
pub open spec fn line_len(a: Coordinates, b: Coordinates) -> int {
    if hex_dist(a, b) == 0 {
        0
    } else {
        hex_dist(a, b) - 1
    }
}

/// Interpolation step count of the line from `a` to `b`: the hex
/// distance, except that coincident endpoints count as one step.
pub open spec fn line_steps(a: Coordinates, b: Coordinates) -> int {
    if hex_dist(a, b) == 0 {
        1
    } else {
        hex_dist(a, b)
    }
}

/// Cube rounding of the `i`-th of `d` interpolation samples between `a`
/// nudged up or down and `b`, as exact numerators over `1000000 * d`.
pub open spec fn line_sample(a: Coordinates, b: Coordinates, up: bool, i: int, d: int) -> (
    int,
    int,
) {
    let nq: int = if up {
        1
    } else {
        -1
    };
    let nr: int = if up {
        2
    } else {
        -2
    };
    cube_round(
        (a.q * 1000000 + nq) * (d - i) + (b.q * 1000000) * i,
        (a.r * 1000000 + nr) * (d - i) + (b.r * 1000000) * i,
        1000000 * d,
    )
}

/// The polyline of hexes strictly between `a` and `b`, for one nudge.
pub open spec fn line_points(a: Coordinates, b: Coordinates, up: bool) -> Seq<Coordinates> {
    Seq::new(
        line_len(a, b) as nat,
        |j: int|
            Coordinates {
                q: line_sample(a, b, up, j + 1, line_steps(a, b)).0 as i32,
                r: line_sample(a, b, up, j + 1, line_steps(a, b)).1 as i32,
            },
    )
}

/// A convex combination of two fractions bounded by the same integer
/// range stays inside that range, scaled to the combined denominator.
pub(crate) proof fn lemma_interp_range(s: int, t: int, i: int, d: int, lo: int, hi: int, scale: int)
    requires
        0 < scale,
        0 <= i <= d,
        1 <= d,
        lo * scale <= s <= hi * scale,
        lo * scale <= t <= hi * scale,
    ensures
        lo * (scale * d) <= s * (d - i) + t * i <= hi * (scale * d),
{
    assert((s - lo * scale) * (d - i) >= 0 && (t - lo * scale) * i >= 0) by (nonlinear_arith)
        requires
            lo * scale <= s,
            lo * scale <= t,
            0 <= i <= d,
    ;
    assert(s * (d - i) + t * i == lo * (scale * d) + ((s - lo * scale) * (d - i) + (t - lo * scale)
        * i)) by (nonlinear_arith);
    assert((hi * scale - s) * (d - i) >= 0 && (hi * scale - t) * i >= 0) by (nonlinear_arith)
        requires
            s <= hi * scale,
            t <= hi * scale,
            0 <= i <= d,
    ;
    assert(s * (d - i) + t * i == hi * (scale * d) - ((hi * scale - s) * (d - i) + (hi * scale - t)
        * i)) by (nonlinear_arith);
}

/// One interpolated hex of the nudged line from `a` to `b`.
fn line_point(a: Coordinates, b: Coordinates, up: bool, i: i128, d: i128) -> (c: Coordinates)
    requires
        -COORD_LIMIT <= a.q <= COORD_LIMIT,
        -COORD_LIMIT <= a.r <= COORD_LIMIT,
        -COORD_LIMIT <= b.q <= COORD_LIMIT,
        -COORD_LIMIT <= b.r <= COORD_LIMIT,
        1 <= d <= 0x10_0000_0000,
        1 <= i < d,
    ensures
        c.q == line_sample(a, b, up, i as int, d as int).0,
        c.r == line_sample(a, b, up, i as int, d as int).1,
{
    let nq: i128 = if up {
        1
    } else {
        -1
    };
    let nr: i128 = if up {
        2
    } else {
        -2
    };
    let ghost loq: int = (if a.q <= b.q {
        a.q
    } else {
        b.q
    }) - 1;
    let ghost hiq: int = (if a.q <= b.q {
        b.q
    } else {
        a.q
    }) + 1;
    let ghost lor: int = (if a.r <= b.r {
        a.r
    } else {
        b.r
    }) - 1;
    let ghost hir: int = (if a.r <= b.r {
        b.r
    } else {
        a.r
    }) + 1;
    let sq = (a.q as i128) * 1000000 + nq;
    let sr = (a.r as i128) * 1000000 + nr;
    let tq = (b.q as i128) * 1000000;
    let tr = (b.r as i128) * 1000000;
    proof {
        assert(loq * 1000000 <= sq <= hiq * 1000000);
        assert(lor * 1000000 <= sr <= hir * 1000000);
        assert(loq * 1000000 <= tq <= hiq * 1000000);
        assert(lor * 1000000 <= tr <= hir * 1000000);
        lemma_interp_range(sq as int, tq as int, i as int, d as int, loq, hiq, 1000000);
        lemma_interp_range(sr as int, tr as int, i as int, d as int, lor, hir, 1000000);
        assert(sq * (d - i) + tq * i <= hiq * (1000000 * d) && hiq * (1000000 * d) < crate::rounding::FRAC_BOUND) by (nonlinear_arith)
            requires
                sq * (d - i) + tq * i <= hiq * ((1000000 as int) * d),
                hiq <= COORD_LIMIT + 1,
                1 <= d <= 0x10_0000_0000,
        ;
        assert(loq * (1000000 * d) <= sq * (d - i) + tq * i && -crate::rounding::FRAC_BOUND < loq
            * (1000000 * d)) by (nonlinear_arith)
            requires
                loq * ((1000000 as int) * d) <= sq * (d - i) + tq * i,
                loq >= -COORD_LIMIT - 1,
                1 <= d <= 0x10_0000_0000,
        ;
        assert(sr * (d - i) + tr * i <= hir * (1000000 * d) && hir * (1000000 * d) < crate::rounding::FRAC_BOUND) by (nonlinear_arith)
            requires
                sr * (d - i) + tr * i <= hir * ((1000000 as int) * d),
                hir <= COORD_LIMIT + 1,
                1 <= d <= 0x10_0000_0000,
        ;
        assert(lor * (1000000 * d) <= sr * (d - i) + tr * i && -crate::rounding::FRAC_BOUND < lor
            * (1000000 * d)) by (nonlinear_arith)
            requires
                lor * ((1000000 as int) * d) <= sr * (d - i) + tr * i,
                lor >= -COORD_LIMIT - 1,
                1 <= d <= 0x10_0000_0000,
        ;
    }
    proof {
        assert forall|u: int, v: int|
            -0x10_0000_0000_0000 <= u <= 0x10_0000_0000_0000 && 0 <= v <= 0x10_0000_0000 implies -0x100_0000_0000_0000_0000_0000
            <= #[trigger] (u * v) <= 0x100_0000_0000_0000_0000_0000 by {
            assert(-0x100_0000_0000_0000_0000_0000 <= u * v <= 0x100_0000_0000_0000_0000_0000)
                by (nonlinear_arith)
                requires
                    -0x10_0000_0000_0000 <= u <= 0x10_0000_0000_0000,
                    0 <= v <= 0x10_0000_0000,
            ;
        }
        assert(sq * ((d - i) as int) == (sq as int) * ((d - i) as int));
    }
    let qn = sq * (d - i) + tq * i;
    let rn = sr * (d - i) + tr * i;
    let den = 1000000 * d;
    proof {
        lemma_cube_round_range(qn as int, rn as int, den as int, loq, hiq, lor, hir);
    }
    let (cq, cr) = cube_round_exec(qn, rn, den);
    Coordinates { q: cq as i32, r: cr as i32 }
}

impl Coordinates {
    /// Returns the two polylines between two hexes, one traced with the
    /// start nudged towards (+1, +2) millionths of a hex and one with it
    /// nudged the opposite way, endpoints excluded.
    /// The coordinates do not have to exist on a board.
    pub fn line(self, target: Coordinates) -> (r: (Vec<Coordinates>, Vec<Coordinates>))
        requires
            -COORD_LIMIT <= self.q <= COORD_LIMIT,
            -COORD_LIMIT <= self.r <= COORD_LIMIT,
            -COORD_LIMIT <= target.q <= COORD_LIMIT,
            -COORD_LIMIT <= target.r <= COORD_LIMIT,
        ensures
            r.0@ == line_points(self, target, true),
            r.1@ == line_points(self, target, false),
    {
        let dist = self.distance_wide(target);
        let d: i128 = if dist == 0 {
            1
        } else {
            dist as i128
        };
        proof {
            assert(d == line_steps(self, target));
            assert(hex_dist(self, target) <= 4 * COORD_LIMIT);
        }
        let mut first: Vec<Coordinates> = Vec::new();
        let mut second: Vec<Coordinates> = Vec::new();
        let mut i: i128 = 1;
        while i < d
            invariant
                1 <= i <= d,
                d == line_steps(self, target),
                1 <= d <= 0x10_0000_0000,
                -COORD_LIMIT <= self.q <= COORD_LIMIT,
                -COORD_LIMIT <= self.r <= COORD_LIMIT,
                -COORD_LIMIT <= target.q <= COORD_LIMIT,
                -COORD_LIMIT <= target.r <= COORD_LIMIT,
                first@.len() == i - 1,
                second@.len() == i - 1,
                forall|j: int|
                    0 <= j < i - 1 ==> #[trigger] first@[j] == line_points(self, target, true)[j],
                forall|j: int|
                    0 <= j < i - 1 ==> #[trigger] second@[j] == line_points(self, target, false)[j],
            decreases d - i,
        {
            let plus = line_point(self, target, true, i, d);
            let minus = line_point(self, target, false, i, d);
            first.push(plus);
            second.push(minus);
            i = i + 1;
        }
        proof {
            assert(first@ =~= line_points(self, target, true));
            assert(second@ =~= line_points(self, target, false));
        }
        (first, second)
    }
}

} // verus!
