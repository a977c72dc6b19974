use hexgrid::board::Board;
use hexgrid::coordinates::Coordinates;
use hexgrid::tile::Tile;

fn open_board() -> Board {
    let mut board = Board::new(31, 1, 1);
    board.free(Coordinates { q: 0, r: 0 });
    board
}

fn sees_free(tile: Option<Tile>) -> bool {
    match tile {
        Some(t) => t.free,
        None => false,
    }
}

#[test]
fn an_open_board_has_sight_lines_everywhere() {
    let board = open_board();
    let cases = [
        (Coordinates { q: 1, r: 1 }, Coordinates { q: 6, r: 1 }),
        (Coordinates { q: 0, r: 0 }, Coordinates { q: 4, r: 4 }),
        (Coordinates { q: 3, r: 2 }, Coordinates { q: 3, r: 2 }),
        (Coordinates { q: 7, r: 0 }, Coordinates { q: 0, r: 7 }),
        (Coordinates { q: 2, r: 5 }, Coordinates { q: 5, r: 8 }),
    ];
    for (a, b) in cases {
        assert!(a.strict_line(&board, b, sees_free));
        assert!(b.strict_line(&board, a, sees_free));
    }
}

#[test]
fn a_wall_across_the_line_blocks_sight() {
    let mut board = open_board();
    let a = Coordinates { q: 1, r: 4 };
    let b = Coordinates { q: 7, r: 4 };
    // fill every tile strictly between the two, as the line walks them,
    // together with their immediate row neighbours, so no corner path
    // can squeeze through
    let (first, second) = a.line(b);
    for c in first.iter().chain(second.iter()) {
        board.fill(*c);
        board.fill(Coordinates { q: c.q + 1, r: c.r - 1 });
        board.fill(Coordinates { q: c.q - 1, r: c.r + 1 });
    }
    assert!(!a.strict_line(&board, b, sees_free));
}

#[test]
fn blocking_the_interpolated_line_blocks_a_straight_sight_line() {
    let mut board = open_board();
    let a = Coordinates { q: 1, r: 2 };
    let b = Coordinates { q: 6, r: 2 };
    let (first, second) = a.line(b);
    for c in first.iter().chain(second.iter()) {
        board.fill(*c);
    }
    assert!(!a.strict_line(&board, b, sees_free));
}

#[test]
fn sight_ends_at_the_board_edge() {
    let board = open_board();
    let a = Coordinates { q: 1, r: 1 };
    let off = Coordinates { q: 40, r: 1 };
    assert!(!a.strict_line(&board, off, sees_free));
}
