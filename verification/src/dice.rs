use rand::rngs::SmallRng;
use vstd::prelude::*;

use crate::damage::Kind;
use crate::rng::rng_face;

pub mod dices;

verus! {

/// Throw result, naming which kind of die face came up.
#[derive(Clone, Copy, Debug, PartialEq, Eq, Structural)]
pub enum DiceResult {
    /// One hit.
    Single,
    /// Two hits.
    Double,
    /// Special hit.
    Special,
    /// Missed.
    Noop,
}

/// A die, described by how many of its faces carry each result; the
/// description is agnostic of the total number of faces.
#[derive(Clone, Copy, Debug)]
pub struct Die {
    /// Number of faces whose result is 1 hit.
    pub single: u8,
    /// Number of faces whose result is 2 hits.
    pub double: u8,
    /// Number of faces whose result is special damage.
    pub special: u8,
    /// Number of faces whose result is 0 hits (missed).
    pub noop: u8,
    /// Whether the damage can be split between enemies.
    pub distributable: bool,
    /// The kind of damage dealt, if relevant.
    pub damage: Option<Kind>,
}

impl Die {
    /// How many faces the die has in total.
    pub open spec fn faces(self) -> int {
        self.single + self.double + self.special + self.noop
    }

    /// The result shown by face number `value`: the faces are numbered
    /// from 1, singles first, then doubles, specials and misses, each
    /// band tested with inclusive bounds in that order.
    pub open spec fn spec_result(self, value: int) -> DiceResult {
        if 1 <= value <= self.single {
            DiceResult::Single
        } else if self.single <= value <= self.single + self.double {
            DiceResult::Double
        } else if self.single + self.double <= value <= self.single + self.double
            + self.special {
            DiceResult::Special
        } else {
            DiceResult::Noop
        }
    }

    /// Map a face number to the result it shows. On a given die, the
    /// same input always produces the same output.
    pub fn result(self, value: u8) -> (r: DiceResult)
        requires
            1 <= value,
            value <= self.faces(),
        ensures
            r == self.spec_result(value as int),
    {
        let v = value as u16;
        let single = self.single as u16;
        let double = self.double as u16;
        let special = self.special as u16;
        if 1 <= v && v <= single {
            DiceResult::Single
        } else if single <= v && v <= single + double {
            DiceResult::Double
        } else if single + double <= v && v <= single + double + special {
            DiceResult::Special
        } else {
            DiceResult::Noop
        }
    }

    /// Throw the die, using `rng` as the source of randomness: some face
    /// between 1 and the face count decides the result.
    pub fn throw(self, rng: &mut SmallRng) -> (r: DiceResult)
        requires
            1 <= self.faces() <= 255,
        ensures
            exists|v: int| 1 <= v <= self.faces() && r == self.spec_result(v),
    {
        let faces = self.single + self.double + self.special + self.noop;
        let v = rng_face(rng, faces);
        let r = self.result(v);
        proof {
            assert(1 <= v as int <= self.faces() && r == self.spec_result(v as int));
        }
        r
    }
}

} // verus!
