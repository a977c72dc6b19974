use vstd::prelude::*;

use crate::board::Board;
use crate::coordinates::{hex_dist, Coordinates, COORD_LIMIT};
use crate::line::lemma_interp_range;
use crate::rounding::{cube_round, cube_round_exec, lemma_cube_round_range, FRAC_BOUND};
use crate::tile::Tile;

verus! {

// Line of sight treats every hex as having six geometric corners. For
// each pair of a start corner and a target corner, the straight segment
// between the two corner points is sampled at sixteen points per unit of
// hex distance; a sight line exists as soon as one pair's samples all
// satisfy the caller's tile predicate.
//
// A corner sits at radius 10 / (19 * sqrt(3)) of a hex in axial units —
// the pixel corner radius carried through the inverse projection —
// written as the fraction 30387 / 100000. In those units the six
// corners, clockwise from the top-right one, are that radius times
// (2, -1), (1, 1), (-1, 2), (-2, 1), (-1, -1) and (1, -2).
/// Axial `q` direction of a corner, in corner-radius units.
pub open spec fn corner_q_num(i: int) -> int {
    if i == 0 {
        2
    } else if i == 1 {
        1
    } else if i == 2 {
        -1
    } else if i == 3 {
        -2
    } else if i == 4 {
        -1
    } else {
        1
    }
}

/// Axial `r` direction of a corner, in corner-radius units.
pub open spec fn corner_r_num(i: int) -> int {
    if i == 0 {
        -1
    } else if i == 1 {
        1
    } else if i == 2 {
        2
    } else if i == 3 {
        1
    } else if i == 4 {
        -1
    } else {
        -2
    }
}

/// Number of interpolation steps between two corner points: sixteen per
/// unit of hex distance, and sixteen for coincident hexes.
pub open spec fn los_steps(a: Coordinates, b: Coordinates) -> int {
    16 * (if hex_dist(a, b) == 0 {
        1
    } else {
        hex_dist(a, b)
    })
}

/// The hex containing the `j`-th sample of the segment from corner `s`
/// of `a` to corner `t` of `b`.
pub open spec fn los_sample(a: Coordinates, b: Coordinates, s: int, t: int, j: int) -> Coordinates {
    let n = los_steps(a, b);
    let qn = (a.q * 100000 + corner_q_num(s) * 30387) * (n - j) + (b.q * 100000 + corner_q_num(t)
        * 30387) * j;
    let rn = (a.r * 100000 + corner_r_num(s) * 30387) * (n - j) + (b.r * 100000 + corner_r_num(t)
        * 30387) * j;
    Coordinates {
        q: cube_round(qn, rn, 100000 * n).0 as i32,
        r: cube_round(qn, rn, 100000 * n).1 as i32,
    }
}

/// What the board shows at the `j`-th sample of a corner pair.
pub open spec fn los_tile(
    m: Map<Coordinates, Tile>,
    a: Coordinates,
    b: Coordinates,
    s: int,
    t: int,
    j: int,
) -> Option<Tile> {
    if m.dom().contains(los_sample(a, b, s, t, j)) {
        Some(m[los_sample(a, b, s, t, j)])
    } else {
        None
    }
}

/// Every sample of the corner pair `(s, t)` was accepted by the
/// predicate.
pub open spec fn los_pair_passes<F: Fn(Option<Tile>) -> bool>(
    pred: F,
    m: Map<Coordinates, Tile>,
    a: Coordinates,
    b: Coordinates,
    s: int,
    t: int,
) -> bool {
    forall|j: int|
        0 <= j <= los_steps(a, b) ==> pred.ensures((los_tile(m, a, b, s, t, j),), true)
}

/// Some sample of the corner pair `(s, t)` was rejected by the
/// predicate.
pub open spec fn los_pair_fails<F: Fn(Option<Tile>) -> bool>(
    pred: F,
    m: Map<Coordinates, Tile>,
    a: Coordinates,
    b: Coordinates,
    s: int,
    t: int,
) -> bool {
    exists|j: int|
        0 <= j <= los_steps(a, b) && pred.ensures((los_tile(m, a, b, s, t, j),), false)
}

/// Axial `q` direction of a corner, in corner-radius units.
fn corner_q_exec(i: i32) -> (v: i32)
    requires
        0 <= i < 6,
    ensures
        v == corner_q_num(i as int),
{
    if i == 0 {
        2
    } else if i == 1 {
        1
    } else if i == 2 {
        -1
    } else if i == 3 {
        -2
    } else if i == 4 {
        -1
    } else {
        1
    }
}

/// Axial `r` direction of a corner, in corner-radius units.
fn corner_r_exec(i: i32) -> (v: i32)
    requires
        0 <= i < 6,
    ensures
        v == corner_r_num(i as int),
{
    if i == 0 {
        -1
    } else if i == 1 {
        1
    } else if i == 2 {
        2
    } else if i == 3 {
        1
    } else if i == 4 {
        -1
    } else {
        -2
    }
}

/// One sample hex of the segment between two corners.
fn los_point(a: Coordinates, b: Coordinates, s: i32, t: i32, j: i128, n: i128) -> (c: Coordinates)
    requires
        -COORD_LIMIT <= a.q <= COORD_LIMIT,
        -COORD_LIMIT <= a.r <= COORD_LIMIT,
        -COORD_LIMIT <= b.q <= COORD_LIMIT,
        -COORD_LIMIT <= b.r <= COORD_LIMIT,
        0 <= s < 6,
        0 <= t < 6,
        n == los_steps(a, b),
        0 <= j <= n,
    ensures
        c == los_sample(a, b, s as int, t as int, j as int),
{
    proof {
        assert(16 <= n <= 0x400_0000_0000);
    }
    let sq = (a.q as i128) * 100000 + (corner_q_exec(s) as i128) * 30387;
    let sr = (a.r as i128) * 100000 + (corner_r_exec(s) as i128) * 30387;
    let tq = (b.q as i128) * 100000 + (corner_q_exec(t) as i128) * 30387;
    let tr = (b.r as i128) * 100000 + (corner_r_exec(t) as i128) * 30387;
    let ghost loq: int = (if a.q <= b.q {
        a.q
    } else {
        b.q
    }) - 1;
    let ghost hiq: int = (if a.q <= b.q {
        b.q
    } else {
        a.q
    }) + 1;
    let ghost lor: int = (if a.r <= b.r {
        a.r
    } else {
        b.r
    }) - 1;
    let ghost hir: int = (if a.r <= b.r {
        b.r
    } else {
        a.r
    }) + 1;
    proof {
        assert(loq * 100000 <= sq <= hiq * 100000);
        assert(lor * 100000 <= sr <= hir * 100000);
        assert(loq * 100000 <= tq <= hiq * 100000);
        assert(lor * 100000 <= tr <= hir * 100000);
        lemma_interp_range(sq as int, tq as int, j as int, n as int, loq, hiq, 100000);
        lemma_interp_range(sr as int, tr as int, j as int, n as int, lor, hir, 100000);
        assert forall|u: int, v: int|
            -0x1_0000_0000_0000 <= u <= 0x1_0000_0000_0000 && 0 <= v
                <= 0x400_0000_0000 implies -0x10_0000_0000_0000_0000_0000_0000 <= #[trigger] (u
            * v) <= 0x10_0000_0000_0000_0000_0000_0000 by {
            assert(-0x10_0000_0000_0000_0000_0000_0000 <= u * v
                <= 0x10_0000_0000_0000_0000_0000_0000) by (nonlinear_arith)
                requires
                    -0x1_0000_0000_0000 <= u <= 0x1_0000_0000_0000,
                    0 <= v <= 0x400_0000_0000,
            ;
        }
        assert(sq * ((n - j) as int) == (sq as int) * ((n - j) as int));
        assert((hiq + 1) * (100000 * n) < FRAC_BOUND && (loq - 1) * (100000 * n) > -FRAC_BOUND
            && (hir + 1) * (100000 * n) < FRAC_BOUND && (lor - 1) * (100000 * n) > -FRAC_BOUND)
            by (nonlinear_arith)
            requires
                -COORD_LIMIT - 2 <= loq <= hiq <= COORD_LIMIT + 2,
                -COORD_LIMIT - 2 <= lor <= hir <= COORD_LIMIT + 2,
                16 <= n <= 0x400_0000_0000,
        ;
        assert((loq - 1) * (100000 * n) < loq * (100000 * n) && hiq * (100000 * n) < (hiq + 1) * (
        100000 * n) && (lor - 1) * (100000 * n) < lor * (100000 * n) && hir * (100000 * n) < (hir
            + 1) * (100000 * n)) by (nonlinear_arith)
            requires
                16 <= n,
        ;
    }
    let qn = sq * (n - j) + tq * j;
    let rn = sr * (n - j) + tr * j;
    let den = 100000 * n;
    proof {
        lemma_cube_round_range(qn as int, rn as int, den as int, loq, hiq, lor, hir);
    }
    let (cq, cr) = cube_round_exec(qn, rn, den);
    Coordinates { q: cq as i32, r: cr as i32 }
}

impl Coordinates {
    /// Whether an unobstructed sight line exists from this hex to the
    /// target: for each of the thirty-six pairs of a start corner and a
    /// target corner, the segment between the two corner points is
    /// sampled, and the sight line exists as soon as the caller's
    /// predicate accepts the board's tile under every sample of one
    /// pair.
    pub fn strict_line<F: Fn(Option<Tile>) -> bool>(
        self,
        board: &Board,
        target: Coordinates,
        predicate: F,
    ) -> (r: bool)
        requires
            -COORD_LIMIT <= self.q <= COORD_LIMIT,
            -COORD_LIMIT <= self.r <= COORD_LIMIT,
            -COORD_LIMIT <= target.q <= COORD_LIMIT,
            -COORD_LIMIT <= target.r <= COORD_LIMIT,
            forall|t: Option<Tile>| predicate.requires((t,)),
        ensures
            r ==> exists|s: int, t: int|
                0 <= s < 6 && 0 <= t < 6 && #[trigger] los_pair_passes(
                    predicate,
                    board@,
                    self,
                    target,
                    s,
                    t,
                ),
            !r ==> forall|s: int, t: int|
                0 <= s < 6 && 0 <= t < 6 ==> #[trigger] los_pair_fails(
                    predicate,
                    board@,
                    self,
                    target,
                    s,
                    t,
                ),
    {
        let ghost m = board@;
        let dist = self.distance_wide(target);
        let d: i128 = if dist == 0 {
            1
        } else {
            dist as i128
        };
        let n: i128 = 16 * d;
        proof {
            assert(n == los_steps(self, target));
        }
        let mut s: i32 = 0;
        while s < 6
            invariant
                -COORD_LIMIT <= self.q <= COORD_LIMIT,
                -COORD_LIMIT <= self.r <= COORD_LIMIT,
                -COORD_LIMIT <= target.q <= COORD_LIMIT,
                -COORD_LIMIT <= target.r <= COORD_LIMIT,
                forall|t: Option<Tile>| predicate.requires((t,)),
                m == board@,
                n == los_steps(self, target),
                0 <= s <= 6,
                forall|s2: int, t2: int|
                    0 <= s2 < s && 0 <= t2 < 6 ==> #[trigger] los_pair_fails(
                        predicate,
                        m,
                        self,
                        target,
                        s2,
                        t2,
                    ),
            decreases 6 - s,
        {
            let mut t: i32 = 0;
            while t < 6
                invariant
                    -COORD_LIMIT <= self.q <= COORD_LIMIT,
                    -COORD_LIMIT <= self.r <= COORD_LIMIT,
                    -COORD_LIMIT <= target.q <= COORD_LIMIT,
                    -COORD_LIMIT <= target.r <= COORD_LIMIT,
                    forall|t: Option<Tile>| predicate.requires((t,)),
                    m == board@,
                    n == los_steps(self, target),
                    0 <= s < 6,
                    0 <= t <= 6,
                    forall|s2: int, t2: int|
                        0 <= s2 < s && 0 <= t2 < 6 ==> #[trigger] los_pair_fails(
                            predicate,
                            m,
                            self,
                            target,
                            s2,
                            t2,
                        ),
                    forall|t2: int|
                        0 <= t2 < t ==> los_pair_fails(
                            predicate,
                            m,
                            self,
                            target,
                            s as int,
                            t2,
                        ),
                decreases 6 - t,
            {
                let mut j: i128 = 0;
                let mut all_passed = true;
                while all_passed && j <= n
                    invariant
                        -COORD_LIMIT <= self.q <= COORD_LIMIT,
                        -COORD_LIMIT <= self.r <= COORD_LIMIT,
                        -COORD_LIMIT <= target.q <= COORD_LIMIT,
                        -COORD_LIMIT <= target.r <= COORD_LIMIT,
                        forall|t: Option<Tile>| predicate.requires((t,)),
                        m == board@,
                        n == los_steps(self, target),
                        0 <= s < 6,
                        0 <= t < 6,
                        0 <= j <= n + 1,
                        all_passed ==> forall|j2: int|
                            0 <= j2 < j ==> predicate.ensures(
                                (los_tile(m, self, target, s as int, t as int, j2),),
                                true,
                            ),
                        !all_passed ==> los_pair_fails(
                            predicate,
                            m,
                            self,
                            target,
                            s as int,
                            t as int,
                        ),
                    decreases n + 1 - j, (if all_passed {
                        1int
                    } else {
                        0int
                    }),
                {
                    let c = los_point(self, target, s, t, j, n);
                    let tile = board.get(c);
                    proof {
                        assert(tile == los_tile(m, self, target, s as int, t as int, j as int));
                    }
                    let ok = predicate(tile);
                    if ok {
                        j = j + 1;
                    } else {
                        all_passed = false;
                    }
                }
                if all_passed {
                    proof {
                        assert(j == n + 1);
                        assert(los_pair_passes(predicate, m, self, target, s as int, t as int));
                    }
                    return true;
                }
                t = t + 1;
            }
            s = s + 1;
        }
        false
    }
}

} // verus!
