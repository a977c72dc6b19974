use vstd::prelude::*;

use crate::coordinates::Coordinates;

verus! {

/// One tile of the board: its own coordinates and whether it can be
/// entered. The `free` flag is the only part that changes after a board
/// is generated.
#[derive(Clone, Copy, Debug, PartialEq, Eq, Structural)]
pub struct Tile {
    pub coordinates: Coordinates,
    pub free: bool,
}

impl Tile {
    /// Build a tile at the given coordinates.
    pub fn new(coordinates: Coordinates, free: bool) -> (t: Tile)
        ensures
            t.coordinates == coordinates,
            t.free == free,
    {
        Tile { coordinates, free }
    }
}

} // verus!
