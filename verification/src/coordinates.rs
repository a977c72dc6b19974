use vstd::math::abs;
use vstd::prelude::*;

use crate::direction::Direction;

verus! {

/// Largest coordinate magnitude accepted by the geometric queries whose
/// intermediate arithmetic needs headroom beyond the coordinate range.
pub const COORD_LIMIT: i32 = 0x4000_0000;

/// Axial coordinates of one hex tile, in q/r form.
///
/// The implicit third cube coordinate is `s = -q - r`.
#[derive(Clone, Copy, Debug, PartialEq, Eq, Hash, Structural)]
pub struct Coordinates {
    pub q: i32,
    pub r: i32,
}

/// Change of the `q` coordinate when stepping in a direction.
pub open spec fn delta_q(d: Direction) -> int {
    match d {
        Direction::TopRight => 1,
        Direction::Right => 1,
        Direction::BottomRight => 0,
        Direction::BottomLeft => -1,
        Direction::Left => -1,
        Direction::TopLeft => 0,
    }
}

/// Change of the `r` coordinate when stepping in a direction.
pub open spec fn delta_r(d: Direction) -> int {
    match d {
        Direction::TopRight => -1,
        Direction::Right => 0,
        Direction::BottomRight => 1,
        Direction::BottomLeft => 1,
        Direction::Left => 0,
        Direction::TopLeft => -1,
    }
}

/// Hex Manhattan distance between two coordinates, over the cube
/// identity `s = -q - r`: half the sum of the absolute cube deltas.
pub open spec fn hex_dist(a: Coordinates, b: Coordinates) -> int {
    (abs(a.q - b.q) + abs(a.q + a.r - b.q - b.r) + abs(a.r - b.r)) as int / 2
}

/// `b` is one step away from `a` in some direction.
pub open spec fn adjacent(a: Coordinates, b: Coordinates) -> bool {
    exists|d: Direction| b == a.spec_step(d)
}

/// Axial `q` coordinate of the offset grid index `(x, y)`: the even-row
/// correction subtracts half of `y` rounded down.
pub open spec fn offset_q(x: int, y: int) -> int {
    x - (y - y % 2) / 2
}

impl Coordinates {
    /// The neighbouring coordinate in a direction, at the spec level.
    pub open spec fn spec_step(self, d: Direction) -> Coordinates
        recommends
            i32::MIN <= self.q + delta_q(d) <= i32::MAX,
            i32::MIN <= self.r + delta_r(d) <= i32::MAX,
    {
        Coordinates { q: (self.q + delta_q(d)) as i32, r: (self.r + delta_r(d)) as i32 }
    }

    /// Transforms offset x/y grid indices into axial coordinates.
    pub fn from_offset(x: i32, y: i32) -> (r: Coordinates)
        requires
            i32::MIN <= offset_q(x as int, y as int) <= i32::MAX,
        ensures
            r.q == offset_q(x as int, y as int),
            r.r == y,
    {
        let yw: i64 = y as i64;
        let half: i64 = if yw >= 0 {
            (yw - yw % 2) / 2
        } else {
            let p = -yw;
            proof {
                lemma_floor_half(yw as int);
            }
            -((p + 1) / 2)
        };
        proof {
            if yw >= 0 {
                assert((yw as int - yw as int % 2) / 2 == (y as int - y as int % 2) / 2);
            }
        }
        let q = (x as i64) - half;
        Coordinates { q: q as i32, r: y }
    }

    /// Compute the coordinate one step away in the given direction.
    pub fn add_direction(&self, direction: Direction) -> (r: Coordinates)
        requires
            i32::MIN <= self.q + delta_q(direction) <= i32::MAX,
            i32::MIN <= self.r + delta_r(direction) <= i32::MAX,
        ensures
            r == self.spec_step(direction),
    {
        match direction {
            Direction::TopRight => Coordinates { q: self.q + 1, r: self.r - 1 },
            Direction::Right => Coordinates { q: self.q + 1, r: self.r },
            Direction::BottomRight => Coordinates { q: self.q, r: self.r + 1 },
            Direction::BottomLeft => Coordinates { q: self.q - 1, r: self.r + 1 },
            Direction::Left => Coordinates { q: self.q - 1, r: self.r },
            Direction::TopLeft => Coordinates { q: self.q, r: self.r - 1 },
        }
    }

    /// Hex Manhattan distance to `target`, with no bound on the inputs.
    pub(crate) fn distance_wide(self, target: Coordinates) -> (r: u64)
        ensures
            r == hex_dist(self, target),
    {
        let dq: i64 = self.q as i64 - target.q as i64;
        let dr: i64 = self.r as i64 - target.r as i64;
        let aq: i64 = if dq >= 0 {
            dq
        } else {
            -dq
        };
        let ar: i64 = if dr >= 0 {
            dr
        } else {
            -dr
        };
        let ds: i64 = dq + dr;
        let as_: i64 = if ds >= 0 {
            ds
        } else {
            -ds
        };
        ((aq + as_ + ar) / 2) as u64
    }

    /// Hex Manhattan distance between two hexes.
    /// The coordinates do not have to exist on a board.
    pub fn distance(self, target: Coordinates) -> (r: u32)
        requires
            hex_dist(self, target) <= u32::MAX,
        ensures
            r == hex_dist(self, target),
    {
        self.distance_wide(target) as u32
    }

    /// Whether `other` lies in the sixth of the plane that opens away
    /// from `self` in the given direction, at the spec level: each
    /// direction constrains the two cube axes its step moves along.
    pub open spec fn spec_in_cone(self, other: Coordinates, d: Direction) -> bool {
        let dq = other.q - self.q;
        let dr = other.r - self.r;
        let ds = -dq - dr;
        match d {
            Direction::TopRight => dq >= 0 && dr <= 0,
            Direction::Right => dq >= 0 && ds <= 0,
            Direction::BottomRight => dr >= 0 && ds <= 0,
            Direction::BottomLeft => dq <= 0 && dr >= 0,
            Direction::Left => dq <= 0 && ds >= 0,
            Direction::TopLeft => dr <= 0 && ds >= 0,
        }
    }

    /// Test whether `other` lies within the angular sector pointing away
    /// from `self` in the given direction.
    pub fn in_cone(self, other: Coordinates, direction: Direction) -> (r: bool)
        ensures
            r == self.spec_in_cone(other, direction),
    {
        let dq: i64 = other.q as i64 - self.q as i64;
        let dr: i64 = other.r as i64 - self.r as i64;
        let ds: i64 = -dq - dr;
        match direction {
            Direction::TopRight => dq >= 0 && dr <= 0,
            Direction::Right => dq >= 0 && ds <= 0,
            Direction::BottomRight => dr >= 0 && ds <= 0,
            Direction::BottomLeft => dq <= 0 && dr >= 0,
            Direction::Left => dq <= 0 && ds >= 0,
            Direction::TopLeft => dr <= 0 && ds >= 0,
        }
    }
}

/// Rounding a negative integer down to half: the floor of `y / 2` is the
/// negated rounded-up half of `-y`.
proof fn lemma_floor_half(y: int)
    requires
        y < 0,
    ensures
        (y - y % 2) / 2 == -((-y + 1) / 2),
{
    let p = -y;
    assert(p == 2 * (p / 2) + p % 2) by {
        vstd::arithmetic::div_mod::lemma_fundamental_div_mod(p, 2);
    }
    let k = p / 2;
    let m = p % 2;
    if m == 0 {
        assert(y == 2 * (-k));
        assert(y % 2 == 0) by {
            vstd::arithmetic::div_mod::lemma_fundamental_div_mod_converse(y, 2, -k, 0);
        }
        assert(y / 2 == -k) by {
            vstd::arithmetic::div_mod::lemma_fundamental_div_mod_converse(y, 2, -k, 0);
        }
        assert((p + 1) / 2 == k) by {
            vstd::arithmetic::div_mod::lemma_fundamental_div_mod_converse(p + 1, 2, k, 1);
        }
    } else {
        assert(y == 2 * (-k - 1) + 1);
        assert(y % 2 == 1 && y / 2 == -k - 1) by {
            vstd::arithmetic::div_mod::lemma_fundamental_div_mod_converse(y, 2, -k - 1, 1);
        }
        assert((y - 1) / 2 == -k - 1) by {
            vstd::arithmetic::div_mod::lemma_fundamental_div_mod_converse(y - 1, 2, -k - 1, 0);
        }
        assert((p + 1) / 2 == k + 1) by {
            vstd::arithmetic::div_mod::lemma_fundamental_div_mod_converse(p + 1, 2, k + 1, 0);
        }
    }
}

/// Distinct offset grid indices always map to distinct axial coordinates:
/// the offset-to-axial conversion is injective.
pub proof fn lemma_from_offset_injective(x1: int, y1: int, x2: int, y2: int)
    requires
        offset_q(x1, y1) == offset_q(x2, y2),
        y1 == y2,
    ensures
        x1 == x2,
{
}

/// The hex distance is a metric: it is zero exactly on equal coordinates,
/// it is symmetric, and it satisfies the triangle inequality.
#[verifier::rlimit(30)]
pub proof fn lemma_distance_metric(a: Coordinates, b: Coordinates, c: Coordinates)
    ensures
        hex_dist(a, a) == 0,
        hex_dist(a, b) == hex_dist(b, a),
        hex_dist(a, b) == 0 <==> a == b,
        hex_dist(a, b) >= 0,
        hex_dist(a, c) <= hex_dist(a, b) + hex_dist(b, c),
{
}

/// A step in any direction moves to a coordinate adjacent to the start,
/// exactly one hex away, and the start is adjacent to it in turn through
/// the opposite direction.
pub proof fn lemma_step_adjacent(c: Coordinates, d: Direction)
    requires
        i32::MIN <= c.q + delta_q(d) <= i32::MAX,
        i32::MIN <= c.r + delta_r(d) <= i32::MAX,
    ensures
        adjacent(c, c.spec_step(d)),
        hex_dist(c, c.spec_step(d)) == 1,
        c.spec_step(d).spec_step(d.spec_opposite()) == c,
        adjacent(c.spec_step(d), c),
{
    let n = c.spec_step(d);
    assert(n == c.spec_step(d));
    assert(delta_q(d.spec_opposite()) == -delta_q(d) && delta_r(d.spec_opposite()) == -delta_r(
        d,
    ));
    assert(n.spec_step(d.spec_opposite()) == c);
    assert(adjacent(n, c));
}

/// A neighbour lies in the cone of the direction that reaches it.
pub proof fn lemma_cone_step(c: Coordinates, d: Direction)
    requires
        i32::MIN <= c.q + delta_q(d) <= i32::MAX,
        i32::MIN <= c.r + delta_r(d) <= i32::MAX,
    ensures
        c.spec_in_cone(c.spec_step(d), d),
{
}

/// Point symmetry of cones: `b` seen from `a` in a direction is the same
/// as `a` seen from `b` in the opposite direction.
pub proof fn lemma_cone_opposite(a: Coordinates, b: Coordinates, d: Direction)
    ensures
        a.spec_in_cone(b, d) == b.spec_in_cone(a, d.spec_opposite()),
{
}

} // verus!
