use hexgrid::dice::dices;
use hexgrid::dice::{Die, DiceResult};
use rand::SeedableRng;

fn assert_face_counts(dice: Die) {
    let results: Vec<DiceResult> = (1..=6).map(|i| dice.result(i)).collect();

    assert_eq!(
        results
            .iter()
            .filter(|&res| *res == DiceResult::Noop)
            .count() as u8,
        dice.noop
    );
    assert_eq!(
        results
            .iter()
            .filter(|&res| *res == DiceResult::Single)
            .count() as u8,
        dice.single
    );
    assert_eq!(
        results
            .iter()
            .filter(|&res| *res == DiceResult::Double)
            .count() as u8,
        dice.double
    );
    assert_eq!(
        results
            .iter()
            .filter(|&res| *res == DiceResult::Special)
            .count() as u8,
        dice.special
    );
}

#[test]
fn fire_dice() {
    let dice: Die = dices::fire_dice();
    assert_face_counts(dice);
}

#[test]
fn enemy_dice() {
    let dice: Die = dices::enemy_dice();
    assert_face_counts(dice);
}

#[test]
fn explosive_dice() {
    let dice: Die = dices::explosive_dice();
    assert_face_counts(dice);
}

#[test]
fn pickaxe_dice() {
    let dice: Die = dices::pickaxe_dice();
    assert_face_counts(dice);
}

#[test]
fn mineral_dice() {
    let dice: Die = dices::mineral_dice();
    assert_face_counts(dice);
}

#[test]
fn bullet_dice() {
    let dice: Die = dices::bullet_dice();
    assert_face_counts(dice);
}

#[test]
fn piercing_dice() {
    let dice: Die = dices::piercing_dice();
    assert_face_counts(dice);
}

#[test]
fn result_bands_follow_the_face_order() {
    let die = dices::fire_dice();
    assert_eq!(die.result(1), DiceResult::Single);
    assert_eq!(die.result(4), DiceResult::Single);
    assert_eq!(die.result(5), DiceResult::Double);
    assert_eq!(die.result(6), DiceResult::Noop);

    let die = dices::mineral_dice();
    assert_eq!(die.result(2), DiceResult::Single);
    assert_eq!(die.result(3), DiceResult::Special);
    assert_eq!(die.result(4), DiceResult::Special);
    assert_eq!(die.result(5), DiceResult::Noop);
    assert_eq!(die.result(6), DiceResult::Noop);
}

#[test]
fn thrown_dice_land_on_real_faces() {
    let mut rng = rand::rngs::SmallRng::seed_from_u64(7);
    let die = dices::explosive_dice();
    for _ in 0..50 {
        let r = die.throw(&mut rng);
        // the explosive die has no miss face
        assert_ne!(r, DiceResult::Noop);
    }
    let die = dices::bullet_dice();
    for _ in 0..50 {
        let r = die.throw(&mut rng);
        // the bullet die only hits singly or misses
        assert!(r == DiceResult::Single || r == DiceResult::Noop);
    }
}
