use hexgrid::board::Board;
use hexgrid::coordinates::Coordinates;
use hexgrid::tile::Tile;

fn open_board() -> Board {
    // every footprint tile free, including the origin that generation
    // always fills
    let mut board = Board::new(11, 1, 1);
    board.free(Coordinates { q: 0, r: 0 });
    board
}

#[test]
fn generation_fills_the_origin_and_frees_the_rest() {
    let board = Board::new(42, 1, 1);
    let origin = board.get(Coordinates { q: 0, r: 0 }).unwrap();
    assert!(!origin.free);
    for x in 0..15 {
        for y in 0..15 {
            let c = Coordinates::from_offset(x, y);
            if let Some(tile) = board.get(c) {
                assert_eq!(tile.coordinates, c);
                if (x, y) != (0, 0) {
                    assert!(tile.free);
                }
            }
        }
    }
}

#[test]
fn generation_with_zero_probability_fills_everything() {
    let board = Board::new(42, 0, 100);
    for x in 0..15 {
        for y in 0..15 {
            if let Some(tile) = board.get(Coordinates::from_offset(x, y)) {
                assert!(!tile.free);
            }
        }
    }
}

#[test]
fn the_footprint_thins_the_last_column_and_the_corners() {
    let board = Board::new(7, 92, 100);
    let mut count = 0;
    for x in 0..15 {
        for y in 0..15 {
            let present = board.get(Coordinates::from_offset(x, y)).is_some();
            let skipped = (x == 14 && y % 2 == 1) || ((x == 0 || x == 14) && (y == 4 || y == 10));
            assert_eq!(present, !skipped);
            if present {
                count += 1;
            }
        }
    }
    // 225 indices, minus 7 odd rows of the last column, minus the four
    // corner positions, all of which sit on even rows
    assert_eq!(count, 225 - 7 - 4);
    // far-away coordinates are off the board
    assert!(board.get(Coordinates { q: 100, r: 100 }).is_none());
}

#[test]
fn free_and_fill_toggle_one_tile() {
    let mut board = Board::new(3, 1, 1);
    let c = Coordinates { q: 2, r: 2 };
    assert!(board.get(c).unwrap().free);
    board.fill(c);
    assert!(!board.get(c).unwrap().free);
    board.free(c);
    assert!(board.get(c).unwrap().free);
    // out-of-board coordinates are silently ignored
    let outside = Coordinates { q: 77, r: 77 };
    board.fill(outside);
    board.free(outside);
    assert!(board.get(outside).is_none());
}

#[test]
fn neighbours_are_filtered_by_the_board_edge() {
    let board = Board::new(5, 1, 1);
    // an interior tile has all six neighbours, whatever their occupancy
    let inner = board.neighbours(Coordinates { q: 3, r: 3 });
    assert_eq!(inner.len(), 6);
    for n in &inner {
        assert_eq!(Coordinates { q: 3, r: 3 }.distance(*n), 1);
        assert!(board.get(*n).is_some());
    }
    // the origin corner keeps only two: top-right (1, -1) is off board,
    // and so are (-1, 0), (0, -1) and (-1, 1)
    let corner = board.neighbours(Coordinates { q: 0, r: 0 });
    assert_eq!(corner, vec![Coordinates { q: 1, r: 0 }, Coordinates { q: 0, r: 1 }]);
}

#[test]
fn tiles_remember_their_coordinates() {
    let c = Coordinates { q: -4, r: 9 };
    let tile = Tile::new(c, true);
    assert_eq!(tile.coordinates, c);
    assert!(tile.free);
    let tile = Tile::new(c, false);
    assert!(!tile.free);
}

#[test]
fn an_open_board_is_fully_free() {
    let board = open_board();
    for x in 0..15 {
        for y in 0..15 {
            if let Some(tile) = board.get(Coordinates::from_offset(x, y)) {
                assert!(tile.free);
            }
        }
    }
}
