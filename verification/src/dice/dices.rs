use vstd::prelude::*;

use crate::damage::Kind;
use crate::dice::Die;

verus! {

/// Fire die.
pub fn fire_dice() -> (d: Die)
    ensures
        d == (Die { single: 4, double: 1, special: 0, noop: 1, distributable: false, damage: Some(Kind::Fire), }),
{
    Die { single: 4, double: 1, special: 0, noop: 1, distributable: false, damage: Some(Kind::Fire), }
}

/// Explosive die.
pub fn explosive_dice() -> (d: Die)
    ensures
        d == (Die { single: 3, double: 2, special: 1, noop: 0, distributable: false, damage: Some(Kind::Explosive), }),
{
    Die { single: 3, double: 2, special: 1, noop: 0, distributable: false, damage: Some(Kind::Explosive), }
}

/// Enemy die, not usable with weapons.
pub fn enemy_dice() -> (d: Die)
    ensures
        d == (Die { single: 3, double: 0, special: 2, noop: 1, distributable: false, damage: Some(Kind::Enemy), }),
{
    Die { single: 3, double: 0, special: 2, noop: 1, distributable: false, damage: Some(Kind::Enemy), }
}

/// Melee die.
pub fn pickaxe_dice() -> (d: Die)
    ensures
        d == (Die { single: 3, double: 2, special: 0, noop: 1, distributable: true, damage: Some(Kind::Melee), }),
{
    Die { single: 3, double: 2, special: 0, noop: 1, distributable: true, damage: Some(Kind::Melee), }
}

/// Mining die: a single is gold, a special is nitra.
pub fn mineral_dice() -> (d: Die)
    ensures
        d == (Die { single: 2, double: 0, special: 2, noop: 2, distributable: false, damage: None, }),
{
    Die { single: 2, double: 0, special: 2, noop: 2, distributable: false, damage: None, }
}

/// Bullet die. Very unreliable.
pub fn bullet_dice() -> (d: Die)
    ensures
        d == (Die { single: 4, double: 0, special: 0, noop: 2, distributable: false, damage: Some(Kind::Bullet), }),
{
    Die { single: 4, double: 0, special: 0, noop: 2, distributable: false, damage: Some(Kind::Bullet), }
}

/// Armor-piercing die.
pub fn piercing_dice() -> (d: Die)
    ensures
        d == (Die { single: 3, double: 2, special: 0, noop: 1, distributable: false, damage: Some(Kind::Piercing), }),
{
    Die { single: 3, double: 2, special: 0, noop: 1, distributable: false, damage: Some(Kind::Piercing), }
}

} // verus!
