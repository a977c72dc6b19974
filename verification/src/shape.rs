use vstd::prelude::*;

use crate::coordinates::{Coordinates, COORD_LIMIT};

verus! {

/// Clockwise rotation of a coordinate by sixty degrees around the
/// origin: in cube coordinates `(q, r, s)` the axes permute and negate
/// to `(-r, -s, -q)`, with `s = -q - r`.
pub open spec fn rot_cw(c: Coordinates) -> Coordinates
    recommends
        rotatable(c),
{
    Coordinates { q: (-c.r) as i32, r: (c.q + c.r) as i32 }
}

/// Counterclockwise rotation by sixty degrees: `(q, r, s)` becomes
/// `(-s, -q, -r)`.
pub open spec fn rot_ccw(c: Coordinates) -> Coordinates
    recommends
        rotatable(c),
{
    Coordinates { q: (c.q + c.r) as i32, r: (-c.q) as i32 }
}

/// All three cube components of the coordinate stay within the range the
/// rotations accept; rotation permutes the components' magnitudes, so it
/// never leaves this range.
pub open spec fn rotatable(c: Coordinates) -> bool {
    &&& -COORD_LIMIT <= c.q <= COORD_LIMIT
    &&& -COORD_LIMIT <= c.r <= COORD_LIMIT
    &&& -COORD_LIMIT <= c.q + c.r <= COORD_LIMIT
}

/// A whole pattern rotated clockwise.
pub open spec fn rot_cw_seq(ts: Seq<Coordinates>) -> Seq<Coordinates> {
    ts.map_values(|c: Coordinates| rot_cw(c))
}

/// A whole pattern rotated counterclockwise.
pub open spec fn rot_ccw_seq(ts: Seq<Coordinates>) -> Seq<Coordinates> {
    ts.map_values(|c: Coordinates| rot_ccw(c))
}

/// A pattern of tiles: offsets relative to a center hex, as used by
/// area-effect templates. Rotation turns every offset around the center
/// and leaves the center itself untouched.
#[derive(Clone, Debug)]
pub struct Shape {
    /// Center of the shape.
    pub center: Coordinates,
    /// The coordinates relative to the center; whether they include the
    /// center itself depends on whether the shape is hollow.
    pub tiles: Vec<Coordinates>,
}

impl Shape {
    /// Rotate every offset of the pattern sixty degrees clockwise.
    pub fn rotate_clockwise(&mut self)
        requires
            forall|i: int|
                0 <= i < old(self).tiles@.len() ==> rotatable(#[trigger] old(self).tiles@[i]),
        ensures
            final(self).center == old(self).center,
            final(self).tiles@ == rot_cw_seq(old(self).tiles@),
            forall|i: int|
                0 <= i < final(self).tiles@.len() ==> rotatable(#[trigger] final(self).tiles@[i]),
    {
        let mut rotated: Vec<Coordinates> = Vec::new();
        let mut i: usize = 0;
        let len = self.tiles.len();
        while i < len
            invariant
                0 <= i <= len,
                len == self.tiles@.len(),
                forall|j: int| 0 <= j < len ==> rotatable(#[trigger] self.tiles@[j]),
                rotated@.len() == i,
                forall|j: int| 0 <= j < i ==> #[trigger] rotated@[j] == rot_cw(self.tiles@[j]),
            decreases len - i,
        {
            let tile = self.tiles[i];
            rotated.push(Coordinates { q: -tile.r, r: tile.q + tile.r });
            i = i + 1;
        }
        self.tiles = rotated;
        proof {
            assert(self.tiles@ =~= rot_cw_seq(old(self).tiles@));
        }
    }

    /// Rotate every offset of the pattern sixty degrees counterclockwise.
    pub fn rotate_counterclockwise(&mut self)
        requires
            forall|i: int|
                0 <= i < old(self).tiles@.len() ==> rotatable(#[trigger] old(self).tiles@[i]),
        ensures
            final(self).center == old(self).center,
            final(self).tiles@ == rot_ccw_seq(old(self).tiles@),
            forall|i: int|
                0 <= i < final(self).tiles@.len() ==> rotatable(#[trigger] final(self).tiles@[i]),
    {
        let mut rotated: Vec<Coordinates> = Vec::new();
        let mut i: usize = 0;
        let len = self.tiles.len();
        while i < len
            invariant
                0 <= i <= len,
                len == self.tiles@.len(),
                forall|j: int| 0 <= j < len ==> rotatable(#[trigger] self.tiles@[j]),
                rotated@.len() == i,
                forall|j: int| 0 <= j < i ==> #[trigger] rotated@[j] == rot_ccw(self.tiles@[j]),
            decreases len - i,
        {
            let tile = self.tiles[i];
            rotated.push(Coordinates { q: tile.q + tile.r, r: -tile.q });
            i = i + 1;
        }
        self.tiles = rotated;
        proof {
            assert(self.tiles@ =~= rot_ccw_seq(old(self).tiles@));
        }
    }
}

/// One rotation undoes the other, and six rotations the same way around
/// return any coordinate to where it started.
pub proof fn lemma_rotation_closure(c: Coordinates)
    requires
        rotatable(c),
    ensures
        rotatable(rot_cw(c)),
        rotatable(rot_ccw(c)),
        rot_ccw(rot_cw(c)) == c,
        rot_cw(rot_ccw(c)) == c,
        rot_cw(rot_cw(rot_cw(rot_cw(rot_cw(rot_cw(c)))))) == c,
        rot_ccw(rot_ccw(rot_ccw(rot_ccw(rot_ccw(rot_ccw(c)))))) == c,
{
}

/// Six clockwise rotations, or six counterclockwise rotations, return a
/// whole pattern of tiles to its original offsets.
pub proof fn lemma_shape_rotation_closure(ts: Seq<Coordinates>)
    requires
        forall|i: int| 0 <= i < ts.len() ==> rotatable(#[trigger] ts[i]),
    ensures
        rot_cw_seq(rot_cw_seq(rot_cw_seq(rot_cw_seq(rot_cw_seq(rot_cw_seq(ts)))))) == ts,
        rot_ccw_seq(rot_ccw_seq(rot_ccw_seq(rot_ccw_seq(rot_ccw_seq(rot_ccw_seq(ts)))))) == ts,
        rot_ccw_seq(rot_cw_seq(ts)) == ts,
{
    assert forall|i: int| 0 <= i < ts.len() implies rot_cw(
        rot_cw(rot_cw(rot_cw(rot_cw(rot_cw(#[trigger] ts[i])))))) == ts[i] && rot_ccw(
        rot_ccw(rot_ccw(rot_ccw(rot_ccw(rot_ccw(ts[i])))))) == ts[i] && rot_ccw(rot_cw(ts[i]))
        == ts[i] by {
        lemma_rotation_closure(ts[i]);
        lemma_rotation_closure(rot_cw(ts[i]));
        lemma_rotation_closure(rot_cw(rot_cw(ts[i])));
        lemma_rotation_closure(rot_cw(rot_cw(rot_cw(ts[i]))));
        lemma_rotation_closure(rot_cw(rot_cw(rot_cw(rot_cw(ts[i])))));
        lemma_rotation_closure(rot_cw(rot_cw(rot_cw(rot_cw(rot_cw(ts[i]))))));
        lemma_rotation_closure(rot_ccw(ts[i]));
        lemma_rotation_closure(rot_ccw(rot_ccw(ts[i])));
        lemma_rotation_closure(rot_ccw(rot_ccw(rot_ccw(ts[i]))));
        lemma_rotation_closure(rot_ccw(rot_ccw(rot_ccw(rot_ccw(ts[i])))));
        lemma_rotation_closure(rot_ccw(rot_ccw(rot_ccw(rot_ccw(rot_ccw(ts[i]))))));
    }
    assert(rot_cw_seq(rot_cw_seq(rot_cw_seq(rot_cw_seq(rot_cw_seq(rot_cw_seq(ts)))))) =~= ts);
    assert(rot_ccw_seq(rot_ccw_seq(rot_ccw_seq(rot_ccw_seq(rot_ccw_seq(rot_ccw_seq(ts)))))) =~= ts);
    assert(rot_ccw_seq(rot_cw_seq(ts)) =~= ts);
}

} // verus!
