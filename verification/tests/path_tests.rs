use hexgrid::board::Board;
use hexgrid::coordinates::Coordinates;

fn open_board() -> Board {
    let mut board = Board::new(23, 1, 1);
    board.free(Coordinates { q: 0, r: 0 });
    board
}

#[test]
fn open_board_paths_have_the_hex_distance_length() {
    let board = open_board();
    let cases = [
        (Coordinates { q: 1, r: 0 }, Coordinates { q: 6, r: 0 }),
        (Coordinates { q: 0, r: 0 }, Coordinates { q: 3, r: 3 }),
        (Coordinates { q: 2, r: 1 }, Coordinates { q: 0, r: 8 }),
        (Coordinates { q: 5, r: 5 }, Coordinates { q: 1, r: 2 }),
        (Coordinates { q: -2, r: 6 }, Coordinates { q: 7, r: 1 }),
    ];
    for (a, b) in cases {
        let p = board.path(a, b).unwrap();
        assert_eq!(p.len(), a.distance(b) as usize);
        assert_eq!(*p.last().unwrap(), b);
        // each step moves to an adjacent free tile
        let mut prev = a;
        for c in &p {
            assert_eq!(prev.distance(*c), 1);
            assert!(board.get(*c).unwrap().free);
            prev = *c;
        }
    }
}

#[test]
fn a_path_to_the_same_hex_does_not_exist() {
    let board = open_board();
    let a = Coordinates { q: 4, r: 4 };
    assert!(board.path(a, a).is_none());
}

#[test]
fn paths_detour_around_a_filled_tile() {
    // start at the origin, goal two steps right, the tile between filled
    let mut board = open_board();
    let a = Coordinates { q: 0, r: 0 };
    let b = Coordinates { q: 2, r: 0 };
    board.fill(Coordinates { q: 1, r: 0 });
    assert!(board.get(Coordinates { q: 1, r: 1 }).unwrap().free);
    let p = board.path(a, b).unwrap();
    assert!(p.len() >= (a.distance(b) + 1) as usize);
    for c in &p {
        assert_ne!(*c, Coordinates { q: 1, r: 0 });
        assert!(board.get(*c).unwrap().free);
    }
    assert_eq!(*p.last().unwrap(), b);
}

#[test]
fn an_enclosed_goal_is_unreachable() {
    let mut board = open_board();
    let b = Coordinates { q: 5, r: 5 };
    for i in 0..6 {
        let d = hexgrid::direction::Direction::from_index(i);
        let n = b.add_direction(d);
        assert!(board.get(n).is_some());
        board.fill(n);
    }
    let a = Coordinates { q: 1, r: 1 };
    assert!(board.path(a, b).is_none());
    // while a start inside the ring still reaches it
    let inside = b.add_direction(hexgrid::direction::Direction::Right);
    assert_eq!(board.path(inside, b).unwrap(), vec![b]);
}

#[test]
fn the_canonical_scenario_walks_straight_to_the_goal() {
    // a fully free board except the forced obstacle at the origin
    let board = Board::new(99, 1, 1);
    let p = board.path(Coordinates { q: 1, r: 0 }, Coordinates { q: 3, r: 0 }).unwrap();
    assert_eq!(p, vec![Coordinates { q: 2, r: 0 }, Coordinates { q: 3, r: 0 }]);
}

#[test]
fn a_goal_off_the_board_is_unreachable() {
    let board = open_board();
    let a = Coordinates { q: 1, r: 1 };
    assert!(board.path(a, Coordinates { q: 50, r: 50 }).is_none());
}
