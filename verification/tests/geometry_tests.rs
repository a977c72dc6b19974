use hexgrid::coordinates::Coordinates;
use hexgrid::direction::Direction;

#[test]
fn from_offset_matches_the_even_row_correction() {
    assert_eq!(Coordinates::from_offset(0, 0), Coordinates { q: 0, r: 0 });
    assert_eq!(Coordinates::from_offset(3, 1), Coordinates { q: 3, r: 1 });
    assert_eq!(Coordinates::from_offset(3, 2), Coordinates { q: 2, r: 2 });
    assert_eq!(Coordinates::from_offset(0, 14), Coordinates { q: -7, r: 14 });
    assert_eq!(Coordinates::from_offset(-3, -3), Coordinates { q: -1, r: -3 });
}

#[test]
fn from_offset_is_injective_on_the_footprint() {
    let mut seen = Vec::new();
    for x in 0..15 {
        for y in 0..15 {
            let c = Coordinates::from_offset(x, y);
            assert!(!seen.contains(&c));
            seen.push(c);
        }
    }
}

#[test]
fn distance_is_a_metric() {
    let a = Coordinates { q: 0, r: 0 };
    let b = Coordinates { q: 2, r: -1 };
    let c = Coordinates { q: -3, r: 4 };
    assert_eq!(a.distance(a), 0);
    assert_eq!(b.distance(b), 0);
    assert_eq!(a.distance(b), b.distance(a));
    assert_eq!(a.distance(c), c.distance(a));
    assert!(a.distance(c) <= a.distance(b) + b.distance(c));
    assert_eq!(a.distance(b), 2);
    assert_eq!(a.distance(c), 4);
    assert_eq!(Coordinates { q: 1, r: 0 }.distance(Coordinates { q: 3, r: 0 }), 2);
}

#[test]
fn every_direction_steps_to_an_adjacent_hex() {
    let c = Coordinates { q: 5, r: -8 };
    for i in 0..6 {
        let d = Direction::from_index(i);
        let n = c.add_direction(d);
        assert_eq!(c.distance(n), 1);
        // stepping back through the opposite direction returns home
        assert_eq!(n.add_direction(d.opposite()), c);
    }
}

#[test]
fn direction_indices_wrap_modulo_six() {
    assert_eq!(Direction::from_index(0).to_index(), 0);
    assert_eq!(Direction::from_index(5).to_index(), 5);
    assert_eq!(Direction::from_index(6).to_index(), 0);
    assert_eq!(Direction::from_index(7).to_index(), 1);
    assert_eq!(Direction::from_index(-1).to_index(), 5);
    assert_eq!(Direction::from_index(-6).to_index(), 0);
    assert_eq!(Direction::from_index(-7).to_index(), 5);
}

#[test]
fn pixel_round_trip_returns_the_original_hex() {
    for q in -9..10 {
        for r in -9..10 {
            let c = Coordinates { q, r };
            let (x, y) = c.to_pixel();
            assert_eq!(Coordinates::from_pixel(x, y), c);
        }
    }
}

#[test]
fn pixel_projection_places_the_origin_at_the_viewport_offset() {
    let origin = Coordinates { q: 0, r: 0 };
    assert_eq!(origin.to_pixel(), (320, 120));
    // one step right is one hex diameter of 57 pixels
    assert_eq!(Coordinates { q: 1, r: 0 }.to_pixel(), (377, 120));
    // one row down moves half a diameter across and sin(60) of one down
    assert_eq!(Coordinates { q: 0, r: 1 }.to_pixel(), (348, 169));
}

#[test]
fn line_between_adjacent_hexes_is_empty() {
    let a = Coordinates { q: 0, r: 0 };
    let b = Coordinates { q: 1, r: 0 };
    let (first, second) = a.line(b);
    assert!(first.is_empty());
    assert!(second.is_empty());
}

#[test]
fn line_of_a_hex_with_itself_is_empty() {
    let a = Coordinates { q: 3, r: -2 };
    let (first, second) = a.line(a);
    assert!(first.is_empty());
    assert!(second.is_empty());
}

#[test]
fn line_walks_the_hexes_between_the_endpoints() {
    let a = Coordinates { q: 0, r: 0 };
    let b = Coordinates { q: 4, r: 0 };
    let (first, second) = a.line(b);
    assert_eq!(first, vec![
        Coordinates { q: 1, r: 0 },
        Coordinates { q: 2, r: 0 },
        Coordinates { q: 3, r: 0 },
    ]);
    assert_eq!(second, vec![
        Coordinates { q: 1, r: 0 },
        Coordinates { q: 2, r: 0 },
        Coordinates { q: 3, r: 0 },
    ]);
}

#[test]
fn the_two_line_nudges_split_ties() {
    // the straight segment runs along a tile edge, so the two nudged
    // polylines fall on opposite sides of it
    let a = Coordinates { q: 0, r: 0 };
    let b = Coordinates { q: 1, r: 1 };
    let (first, second) = a.line(b);
    assert_eq!(first.len(), 1);
    assert_eq!(second.len(), 1);
    assert_ne!(first[0], second[0]);
}

#[test]
fn cones_open_away_from_the_center() {
    let c = Coordinates { q: 0, r: 0 };
    for i in 0..6 {
        let d = Direction::from_index(i);
        let n = c.add_direction(d);
        assert!(c.in_cone(n, d));
        // the opposite neighbour is outside this cone except on an axis
        assert!(n.in_cone(c, d.opposite()));
    }
    let right = Coordinates { q: 5, r: 0 };
    assert!(c.in_cone(right, Direction::Right));
    assert!(!c.in_cone(right, Direction::Left));
    assert!(!c.in_cone(right, Direction::BottomLeft));
}

#[test]
fn fraction_rounding_pushes_ties_toward_the_smaller_axis() {
    // one half rounds away from zero first, then the cube correction
    // settles the tie on the q axis
    assert_eq!(Coordinates::round(1, 0, 2), Coordinates { q: 0, r: 0 });
    assert_eq!(Coordinates::round(3, 0, 2), Coordinates { q: 1, r: 0 });
    assert_eq!(Coordinates::round(7, 10, 10), Coordinates { q: 1, r: 1 });
    assert_eq!(Coordinates::round(-7, 29, 10), Coordinates { q: -1, r: 3 });
}
