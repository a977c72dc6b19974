use vstd::prelude::*;

verus! {

/// One step from a hex tile to one of its six neighbours, listed in
/// clockwise order starting from `TopRight`.
#[derive(Clone, Copy, Debug, PartialEq, Eq, Structural)]
pub enum Direction {
    TopRight,
    Right,
    BottomRight,
    BottomLeft,
    Left,
    TopLeft,
}

impl Direction {
    /// Position of the direction in clockwise order, `TopRight` being 0.
    pub open spec fn index(self) -> int {
        match self {
            Direction::TopRight => 0,
            Direction::Right => 1,
            Direction::BottomRight => 2,
            Direction::BottomLeft => 3,
            Direction::Left => 4,
            Direction::TopLeft => 5,
        }
    }

    /// The direction sitting at a given position in clockwise order.
    pub open spec fn of_index(i: int) -> Direction
        recommends
            0 <= i < 6,
    {
        if i == 0 {
            Direction::TopRight
        } else if i == 1 {
            Direction::Right
        } else if i == 2 {
            Direction::BottomRight
        } else if i == 3 {
            Direction::BottomLeft
        } else if i == 4 {
            Direction::Left
        } else {
            Direction::TopLeft
        }
    }

    /// The direction pointing the opposite way.
    pub open spec fn spec_opposite(self) -> Direction {
        match self {
            Direction::TopRight => Direction::BottomLeft,
            Direction::Right => Direction::Left,
            Direction::BottomRight => Direction::TopLeft,
            Direction::BottomLeft => Direction::TopRight,
            Direction::Left => Direction::Right,
            Direction::TopLeft => Direction::BottomRight,
        }
    }

    /// Turn a direction into its clockwise index.
    pub fn to_index(self) -> (r: i32)
        ensures
            r == self.index(),
    {
        match self {
            Direction::TopRight => 0,
            Direction::Right => 1,
            Direction::BottomRight => 2,
            Direction::BottomLeft => 3,
            Direction::Left => 4,
            Direction::TopLeft => 5,
        }
    }

    /// Interpret any integer as a direction, wrapping modulo 6 so that
    /// index -1 becomes `TopLeft`.
    pub fn from_index(value: i32) -> (r: Direction)
        ensures
            r == Direction::of_index(value as int % 6),
    {
        let rem: i32 = if value >= 0 {
            value % 6
        } else {
            let flipped: i64 = (-(value as i64) - 1) % 6;
            proof {
                lemma_wrap_negative(value as int);
            }
            5 - (flipped as i32)
        };
        match rem {
            0 => Direction::TopRight,
            1 => Direction::Right,
            2 => Direction::BottomRight,
            3 => Direction::BottomLeft,
            4 => Direction::Left,
            _ => Direction::TopLeft,
        }
    }

    /// The direction pointing the opposite way.
    pub fn opposite(self) -> (r: Direction)
        ensures
            r == self.spec_opposite(),
    {
        match self {
            Direction::TopRight => Direction::BottomLeft,
            Direction::Right => Direction::Left,
            Direction::BottomRight => Direction::TopLeft,
            Direction::BottomLeft => Direction::TopRight,
            Direction::Left => Direction::Right,
            Direction::TopLeft => Direction::BottomRight,
        }
    }
}

/// Wrapping a negative integer modulo 6 is the mirror image of wrapping
/// the non-negative integer just below its negation.
proof fn lemma_wrap_negative(v: int)
    requires
        v < 0,
    ensures
        v % 6 == 5 - ((-v - 1) % 6),
{
    let u = -v - 1;
    assert(u >= 0);
    assert(u == 6 * (u / 6) + u % 6) by {
        vstd::arithmetic::div_mod::lemma_fundamental_div_mod(u, 6);
    }
    let k = u / 6;
    let m = u % 6;
    assert(0 <= m < 6);
    assert(v == -6 * k - m - 1);
    assert(v == 6 * (-k - 1) + (5 - m));
    assert(v % 6 == 5 - m) by {
        vstd::arithmetic::div_mod::lemma_fundamental_div_mod_converse(
            v,
            6,
            -k - 1,
            5 - m,
        );
    }
}

/// Every direction's opposite lies three steps away in clockwise order,
/// and taking the opposite twice returns the original direction.
pub proof fn lemma_opposite_involutive(d: Direction)
    ensures
        d.spec_opposite().spec_opposite() == d,
        d.spec_opposite().index() == (d.index() + 3) % 6,
{
}

} // verus!
