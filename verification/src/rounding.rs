use vstd::arithmetic::div_mod::{
    lemma_fundamental_div_mod, lemma_fundamental_div_mod_converse,
    lemma_mod_division_less_than_divisor,
};
use vstd::math::abs;
use vstd::prelude::*;

verus! {

// Fractional axial coordinates are kept as exact fractions: a pair of
// numerators over one positive denominator. Rounding a fraction to its
// hex is then pure integer arithmetic, with no drift for points that sit
// exactly on a tile edge.
/// Magnitude bound under which the rounding helpers accept numerators
/// and denominators without overflowing their 128-bit arithmetic.
pub const FRAC_BOUND: i128 = 1267650600228229401496703205376;

/// Nearest integer to the fraction `n / d`, halves rounded away from zero.
pub open spec fn rat_round(n: int, d: int) -> int
    recommends
        d > 0,
{
    if n >= 0 {
        (2 * n + d) / (2 * d)
    } else {
        -((2 * (-n) + d) / (2 * d))
    }
}

/// Rounding error of `rat_round`, as a numerator over the same denominator.
pub open spec fn rat_rem(n: int, d: int) -> int {
    n - rat_round(n, d) * d
}

/// Cube rounding of the fractional axial coordinate `(qn / d, rn / d)`:
/// round both axes to the nearest integer, then correct the axis with
/// the larger rounding error (the `q` axis on ties) so that the result
/// is the hex whose cube coordinates are nearest overall.
pub open spec fn cube_round(qn: int, rn: int, d: int) -> (int, int)
    recommends
        d > 0,
{
    let qg = rat_round(qn, d);
    let rg = rat_round(rn, d);
    let qrem = rat_rem(qn, d);
    let rrem = rat_rem(rn, d);
    if abs(qrem) >= abs(rrem) {
        (qg + rat_round(2 * qrem + rrem, 2 * d), rg)
    } else {
        (qg, rg + rat_round(2 * rrem + qrem, 2 * d))
    }
}

/// The rounding error of `rat_round` is at most half the denominator.
pub proof fn lemma_rat_round_rem(n: int, d: int)
    requires
        d > 0,
    ensures
        -d <= 2 * rat_rem(n, d) <= d,
{
    if n >= 0 {
        let t = 2 * n + d;
        lemma_fundamental_div_mod(t, 2 * d);
        lemma_mod_division_less_than_divisor(t, 2 * d);
        assert(2 * rat_rem(n, d) == t % (2 * d) - d) by {
            assert(t == (2 * d) * (t / (2 * d)) + t % (2 * d));
            assert((2 * d) * (t / (2 * d)) == 2 * ((t / (2 * d)) * d)) by (nonlinear_arith);
        }
    } else {
        let t = 2 * (-n) + d;
        lemma_fundamental_div_mod(t, 2 * d);
        lemma_mod_division_less_than_divisor(t, 2 * d);
        assert(2 * rat_rem(n, d) == d - t % (2 * d)) by {
            assert(t == (2 * d) * (t / (2 * d)) + t % (2 * d));
            assert((2 * d) * (t / (2 * d)) == 2 * ((t / (2 * d)) * d)) by (nonlinear_arith);
            assert((-(t / (2 * d))) * d == -((t / (2 * d)) * d)) by (nonlinear_arith);
        }
    }
}

/// A fraction within half a unit of the integer `a` rounds to `a`.
pub proof fn lemma_rat_round_exact(a: int, e: int, d: int)
    requires
        d > 0,
        2 * abs(e) < d,
    ensures
        rat_round(a * d + e, d) == a,
        rat_rem(a * d + e, d) == e,
{
    let n = a * d + e;
    if n >= 0 {
        let t = 2 * n + d;
        assert(t == (2 * d) * a + (2 * e + d)) by {
            assert(2 * (a * d + e) + d == (2 * d) * a + (2 * e + d)) by (nonlinear_arith);
        }
        assert(0 <= 2 * e + d < 2 * d);
        lemma_fundamental_div_mod_converse(t, 2 * d, a, 2 * e + d);
    } else {
        let t = 2 * (-n) + d;
        assert(t == (2 * d) * (-a) + (d - 2 * e)) by {
            assert(2 * (-(a * d + e)) + d == (2 * d) * (-a) + (d - 2 * e)) by (nonlinear_arith);
        }
        assert(0 <= d - 2 * e < 2 * d);
        lemma_fundamental_div_mod_converse(t, 2 * d, -a, d - 2 * e);
    }
}

/// A fraction bounded between two integer multiples of the denominator
/// rounds to an integer between those two bounds.
pub proof fn lemma_rat_round_in_range(n: int, d: int, lo: int, hi: int)
    requires
        d > 0,
        lo * d <= n <= hi * d,
    ensures
        lo <= rat_round(n, d) <= hi,
{
    let g = rat_round(n, d);
    lemma_rat_round_rem(n, d);
    assert(2 * (g * d) >= 2 * (lo * d) - d && 2 * (g * d) <= 2 * (hi * d) + d);
    assert(lo <= g && g <= hi) by {
        assert(2 * (g * d) == (2 * g) * d && 2 * (lo * d) == (2 * lo) * d && 2 * (hi * d) == (2
            * hi) * d) by (nonlinear_arith);
        assert((2 * g) * d >= (2 * lo - 1) * d ==> 2 * g >= 2 * lo - 1) by (nonlinear_arith)
            requires
                d > 0,
        ;
        assert((2 * g) * d <= (2 * hi + 1) * d ==> 2 * g <= 2 * hi + 1) by (nonlinear_arith)
            requires
                d > 0,
        ;
        assert((2 * lo - 1) * d == 2 * (lo * d) - d && (2 * hi + 1) * d == 2 * (hi * d) + d)
            by (nonlinear_arith);
    }
}

/// Cube rounding recovers the integer hex `(q, r)` from any fraction that
/// deviates from it by a small enough error on both axes.
pub proof fn lemma_cube_round_exact(q: int, r: int, eq: int, er: int, d: int)
    requires
        d > 0,
        3 * (abs(eq) + abs(er)) < d,
    ensures
        cube_round(q * d + eq, r * d + er, d) == (q, r),
{
    lemma_rat_round_exact(q, eq, d);
    lemma_rat_round_exact(r, er, d);
    assert(abs(2 * eq + er) < d);
    assert(abs(2 * er + eq) < d);
    lemma_rat_round_exact(0, 2 * eq + er, 2 * d);
    lemma_rat_round_exact(0, 2 * er + eq, 2 * d);
}

/// Both components of a cube-rounded fraction stay within one hex of the
/// integer range that bounds the fraction itself.
pub proof fn lemma_cube_round_range(qn: int, rn: int, d: int, loq: int, hiq: int, lor: int, hir: int)
    requires
        d > 0,
        loq * d <= qn <= hiq * d,
        lor * d <= rn <= hir * d,
    ensures
        loq - 1 <= cube_round(qn, rn, d).0 <= hiq + 1,
        lor - 1 <= cube_round(qn, rn, d).1 <= hir + 1,
{
    let qg = rat_round(qn, d);
    let rg = rat_round(rn, d);
    let qrem = rat_rem(qn, d);
    let rrem = rat_rem(rn, d);
    lemma_rat_round_in_range(qn, d, loq, hiq);
    lemma_rat_round_in_range(rn, d, lor, hir);
    lemma_rat_round_rem(qn, d);
    lemma_rat_round_rem(rn, d);
    assert(-1 <= rat_round(2 * qrem + rrem, 2 * d) <= 1) by {
        assert((-1) * (2 * d) <= 2 * qrem + rrem <= 1 * (2 * d));
        lemma_rat_round_in_range(2 * qrem + rrem, 2 * d, -1, 1);
    }
    assert(-1 <= rat_round(2 * rrem + qrem, 2 * d) <= 1) by {
        assert((-1) * (2 * d) <= 2 * rrem + qrem <= 1 * (2 * d));
        lemma_rat_round_in_range(2 * rrem + qrem, 2 * d, -1, 1);
    }
}

impl crate::coordinates::Coordinates {
    /// Round a fractional axial coordinate, given as two numerators over
    /// one positive denominator, to the hex that contains it.
    pub fn round(qn: i128, rn: i128, den: i128) -> (c: crate::coordinates::Coordinates)
        requires
            0 < den <= FRAC_BOUND,
            -FRAC_BOUND <= qn <= FRAC_BOUND,
            -FRAC_BOUND <= rn <= FRAC_BOUND,
            i32::MIN <= cube_round(qn as int, rn as int, den as int).0 <= i32::MAX,
            i32::MIN <= cube_round(qn as int, rn as int, den as int).1 <= i32::MAX,
        ensures
            c.q == cube_round(qn as int, rn as int, den as int).0,
            c.r == cube_round(qn as int, rn as int, den as int).1,
    {
        let (cq, cr) = cube_round_exec(qn, rn, den);
        crate::coordinates::Coordinates { q: cq as i32, r: cr as i32 }
    }
}

/// Nearest integer to `n / d`, halves rounded away from zero.
pub(crate) fn rat_round_exec(n: i128, d: i128) -> (r: i128)
    requires
        0 < d <= 4 * FRAC_BOUND,
        -4 * FRAC_BOUND <= n <= 4 * FRAC_BOUND,
    ensures
        r == rat_round(n as int, d as int),
{
    if n >= 0 {
        (2 * n + d) / (2 * d)
    } else {
        -((2 * (-n) + d) / (2 * d))
    }
}

/// Round the fractional axial coordinate `(qn / d, rn / d)` to the hex
/// that contains it, by the cube rounding rule.
pub(crate) fn cube_round_exec(qn: i128, rn: i128, d: i128) -> (c: (i128, i128))
    requires
        0 < d <= FRAC_BOUND,
        -FRAC_BOUND <= qn <= FRAC_BOUND,
        -FRAC_BOUND <= rn <= FRAC_BOUND,
    ensures
        c.0 == cube_round(qn as int, rn as int, d as int).0,
        c.1 == cube_round(qn as int, rn as int, d as int).1,
{
    let qg = rat_round_exec(qn, d);
    let rg = rat_round_exec(rn, d);
    proof {
        lemma_rat_round_rem(qn as int, d as int);
        lemma_rat_round_rem(rn as int, d as int);
    }
    let qrem = qn - qg * d;
    let rrem = rn - rg * d;
    let aq = if qrem >= 0 {
        qrem
    } else {
        -qrem
    };
    let ar = if rrem >= 0 {
        rrem
    } else {
        -rrem
    };
    if aq >= ar {
        (qg + rat_round_exec(2 * qrem + rrem, 2 * d), rg)
    } else {
        (qg, rg + rat_round_exec(2 * rrem + qrem, 2 * d))
    }
}

} // verus!
