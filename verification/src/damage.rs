use vstd::prelude::*;

verus! {

/// Different kinds of damage a die can deal.
#[derive(Clone, Copy, Debug, PartialEq, Eq, Structural)]
pub enum Kind {
    Fire,
    Explosive,
    Enemy,
    Piercing,
    Bullet,
    Melee,
}

} // verus!
