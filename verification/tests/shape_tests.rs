use hexgrid::coordinates::Coordinates;
use hexgrid::shape::Shape;

#[test]
fn rotate_clockwise() {
    let mut shape = Shape {
        center: Coordinates { q: -1, r: -2 },
        tiles: vec![
            Coordinates { q: 0, r: -1 },
            Coordinates { q: 1, r: -1 },
            Coordinates { q: -1, r: 2 },
        ],
    };

    shape.rotate_clockwise();

    assert_eq!(
        shape.tiles,
        vec![
            Coordinates { q: 1, r: -1 },
            Coordinates { q: 1, r: 0 },
            Coordinates { q: -2, r: 1 }
        ]
    );
}

#[test]
fn rotate_counterclockwise() {
    let mut shape = Shape {
        center: Coordinates { q: -1, r: -2 },
        tiles: vec![
            Coordinates { q: 0, r: -1 },
            Coordinates { q: 1, r: -1 },
            Coordinates { q: -1, r: 2 },
        ],
    };

    shape.rotate_counterclockwise();

    assert_eq!(
        shape.tiles,
        vec![
            Coordinates { q: -1, r: 0 },
            Coordinates { q: 0, r: -1 },
            Coordinates { q: 1, r: 1 }
        ]
    );
}

#[test]
fn six_clockwise_rotations_restore_the_tiles() {
    let original = vec![
        Coordinates { q: 2, r: -3 },
        Coordinates { q: 0, r: 0 },
        Coordinates { q: -4, r: 1 },
        Coordinates { q: 5, r: 5 },
    ];
    let mut shape = Shape { center: Coordinates { q: 7, r: -7 }, tiles: original.clone() };
    for _ in 0..6 {
        shape.rotate_clockwise();
    }
    assert_eq!(shape.tiles, original);
    assert_eq!(shape.center, Coordinates { q: 7, r: -7 });
}

#[test]
fn six_counterclockwise_rotations_restore_the_tiles() {
    let original = vec![
        Coordinates { q: 1, r: 0 },
        Coordinates { q: -2, r: 2 },
        Coordinates { q: 3, r: -1 },
    ];
    let mut shape = Shape { center: Coordinates { q: 0, r: 0 }, tiles: original.clone() };
    for _ in 0..6 {
        shape.rotate_counterclockwise();
    }
    assert_eq!(shape.tiles, original);
}

#[test]
fn counterclockwise_undoes_clockwise() {
    let original = vec![Coordinates { q: 4, r: -2 }, Coordinates { q: -1, r: -1 }];
    let mut shape = Shape { center: Coordinates { q: 0, r: 1 }, tiles: original.clone() };
    shape.rotate_clockwise();
    shape.rotate_counterclockwise();
    assert_eq!(shape.tiles, original);
}
