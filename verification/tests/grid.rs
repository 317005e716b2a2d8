use a_star::{Field, FieldError, Point, Tile};

fn build_grid(width: usize, height: usize, walls: &[(usize, usize)]) -> Field {
    let mut tiles = vec![Tile::Floor; width * height];
    for &(x, y) in walls {
        tiles[x + y * width] = Tile::Wall;
    }
    Field::from_tiles(width, height, tiles).unwrap()
}

#[test]
fn point_accessors() {
    let p = Point::new(3, 4);
    assert_eq!(p.x(), 3);
    assert_eq!(p.y(), 4);
    let q = Point::new(7, 1);
    assert_eq!(p.x_distance(&q), 4);
    assert_eq!(q.x_distance(&p), 4);
    assert_eq!(p.y_distance(&q), 3);
    assert_eq!(q.y_distance(&p), 3);
}

#[test]
fn octile_distance_values() {
    let origin = Point::new(0, 0);
    assert_eq!(origin.distance(&Point::new(3, 1)), 34);
    assert_eq!(origin.distance(&Point::new(2, 2)), 28);
    assert_eq!(origin.distance(&Point::new(0, 4)), 40);
    assert_eq!(origin.distance(&origin), 0);
}

#[test]
fn from_tiles_layout_is_row_major() {
    let tiles = vec![
        Tile::Floor,
        Tile::Wall,
        Tile::Floor,
        Tile::Floor,
        Tile::Floor,
        Tile::Wall,
    ];
    let f = Field::from_tiles(3, 2, tiles).unwrap();
    assert_eq!(f.width(), 3);
    assert_eq!(f.height(), 2);
    assert_eq!(f.get_tile(&Point::new(0, 0)), Tile::Floor);
    assert_eq!(f.get_tile(&Point::new(1, 0)), Tile::Wall);
    assert_eq!(f.get_tile(&Point::new(2, 0)), Tile::Floor);
    assert_eq!(f.get_tile(&Point::new(0, 1)), Tile::Floor);
    assert_eq!(f.get_tile(&Point::new(1, 1)), Tile::Floor);
    assert_eq!(f.get_tile(&Point::new(2, 1)), Tile::Wall);
}

#[test]
fn from_tiles_wrong_length_rejected() {
    let tiles = vec![Tile::Floor; 5];
    match Field::from_tiles(2, 3, tiles) {
        Err(FieldError::InvalidParameter) => {}
        _ => panic!("a tile vector of the wrong length must be rejected"),
    }
}

#[test]
fn try_get_tile_reports_out_of_bounds() {
    let f = build_grid(2, 2, &[(1, 1)]);
    assert_eq!(f.try_get_tile(&Point::new(1, 1)), Ok(Tile::Wall));
    assert_eq!(f.try_get_tile(&Point::new(0, 0)), Ok(Tile::Floor));
    assert_eq!(
        f.try_get_tile(&Point::new(2, 0)),
        Err(FieldError::OutOfBounds)
    );
    assert_eq!(
        f.try_get_tile(&Point::new(0, 2)),
        Err(FieldError::OutOfBounds)
    );
}

#[test]
fn random_grid_dimensions() {
    let f = Field::new(4, 5, 1, 2).unwrap();
    assert_eq!(f.width(), 4);
    assert_eq!(f.height(), 5);
    for y in 0..5 {
        for x in 0..4 {
            let t = f.get_tile(&Point::new(x, y));
            assert!(t == Tile::Floor || t == Tile::Wall);
        }
    }
}

#[test]
fn random_grid_invalid_ratio_rejected() {
    match Field::new(3, 3, 2, 1) {
        Err(FieldError::InvalidParameter) => {}
        _ => panic!("a probability above one must be rejected"),
    }
    match Field::new(3, 3, 1, 0) {
        Err(FieldError::InvalidParameter) => {}
        _ => panic!("a zero denominator must be rejected"),
    }
}

#[test]
fn random_grid_extreme_ratios() {
    let all_floor = Field::new(3, 3, 0, 1).unwrap();
    let all_wall = Field::new(3, 3, 1, 1).unwrap();
    for y in 0..3 {
        for x in 0..3 {
            assert_eq!(all_floor.get_tile(&Point::new(x, y)), Tile::Floor);
            assert_eq!(all_wall.get_tile(&Point::new(x, y)), Tile::Wall);
        }
    }
}

#[test]
fn neighbours_of_center_on_open_grid() {
    let f = build_grid(3, 3, &[]);
    let n = f.get_neighbours(&Point::new(1, 1));
    assert_eq!(n.len(), 8);
    for x in 0..3 {
        for y in 0..3 {
            let p = Point::new(x, y);
            if (x, y) != (1, 1) {
                assert!(n.contains(&p));
            } else {
                assert!(!n.contains(&p));
            }
        }
    }
}

#[test]
fn neighbours_of_corner_clipped_to_bounds() {
    let f = build_grid(3, 3, &[]);
    let n = f.get_neighbours(&Point::new(0, 0));
    assert_eq!(n.len(), 3);
    assert!(n.contains(&Point::new(1, 0)));
    assert!(n.contains(&Point::new(0, 1)));
    assert!(n.contains(&Point::new(1, 1)));
}

#[test]
fn neighbours_exclude_walls_and_self() {
    let f = build_grid(3, 3, &[(1, 0)]);
    let n = f.get_neighbours(&Point::new(0, 0));
    assert_eq!(n.len(), 2);
    assert!(n.contains(&Point::new(0, 1)));
    assert!(n.contains(&Point::new(1, 1)));
    assert!(!n.contains(&Point::new(1, 0)));
    assert!(!n.contains(&Point::new(0, 0)));
    // every listed cell is in bounds, passable, adjacent and not the center
    for p in n.iter() {
        assert!(p.x() < 3 && p.y() < 3);
        assert_eq!(f.get_tile(p), Tile::Floor);
        assert!(p.x_distance(&Point::new(0, 0)) <= 1);
        assert!(p.y_distance(&Point::new(0, 0)) <= 1);
        assert!(!(p.x() == 0 && p.y() == 0));
    }
}
