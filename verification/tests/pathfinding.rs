use a_star::{Field, FieldError, Path, Point, Tile};

fn make_grid(width: usize, height: usize, walls: &[(usize, usize)]) -> Field {
    let mut tiles = vec![Tile::Floor; width * height];
    for &(x, y) in walls {
        tiles[x + y * width] = Tile::Wall;
    }
    Field::from_tiles(width, height, tiles).unwrap()
}

fn move_cost(a: &Point, b: &Point) -> usize {
    if a.x_distance(b) + a.y_distance(b) == 2 {
        14
    } else {
        10
    }
}

fn total_cost(path: &Path) -> usize {
    let steps = path.steps();
    let mut cost = 0;
    for i in 0..steps.len() - 1 {
        cost += move_cost(&steps[i], &steps[i + 1]);
    }
    cost
}

fn assert_valid(field: &Field, path: &Path, start: &Point, goal: &Point) {
    let steps = path.steps();
    assert!(!steps.is_empty());
    assert_eq!(steps[0], *start);
    assert_eq!(steps[steps.len() - 1], *goal);
    assert_eq!(*path.start(), *start);
    assert_eq!(*path.goal(), *goal);
    for i in 0..steps.len() - 1 {
        let n = field.get_neighbours(&steps[i]);
        assert!(n.contains(&steps[i + 1]));
    }
}

fn cheapest_simple_path(
    field: &Field,
    at: Point,
    goal: Point,
    visited: &mut Vec<bool>,
    cost: usize,
    best: &mut Option<usize>,
) {
    if at == goal {
        if best.map_or(true, |b| cost < b) {
            *best = Some(cost);
        }
        return;
    }
    for n in field.get_neighbours(&at) {
        let idx = n.x() + n.y() * field.width();
        if !visited[idx] {
            visited[idx] = true;
            cheapest_simple_path(field, n, goal, visited, cost + move_cost(&at, &n), best);
            visited[idx] = false;
        }
    }
}

fn brute_force_cost(field: &Field, start: Point, goal: Point) -> Option<usize> {
    if field.get_tile(&start) == Tile::Wall || field.get_tile(&goal) == Tile::Wall {
        return None;
    }
    let mut visited = vec![false; field.width() * field.height()];
    visited[start.x() + start.y() * field.width()] = true;
    let mut best = None;
    cheapest_simple_path(field, start, goal, &mut visited, 0, &mut best);
    best
}

#[test]
fn open_grid_takes_the_diagonal() {
    let f = make_grid(3, 3, &[]);
    let start = Point::new(0, 0);
    let goal = Point::new(2, 2);
    let path = f.find_path(&start, &goal).unwrap();
    assert_valid(&f, &path, &start, &goal);
    assert_eq!(path.steps().len(), 3);
    assert_eq!(total_cost(&path), 28);
}

#[test]
fn walled_row_forces_detour_through_corridor() {
    let f = make_grid(3, 3, &[(0, 1), (1, 1)]);
    let start = Point::new(0, 0);
    let goal = Point::new(2, 2);
    let path = f.find_path(&start, &goal).unwrap();
    assert_valid(&f, &path, &start, &goal);
    assert!(path.steps().len() > 3);
    assert!(path.steps().contains(&Point::new(2, 1)));
}

#[test]
fn blocked_start_yields_none() {
    let f = make_grid(3, 3, &[(0, 0)]);
    assert!(f.find_path(&Point::new(0, 0), &Point::new(2, 2)).is_none());
    assert!(f.find_path(&Point::new(0, 0), &Point::new(1, 0)).is_none());
}

#[test]
fn blocked_goal_yields_none() {
    let f = make_grid(3, 3, &[(2, 2)]);
    assert!(f.find_path(&Point::new(0, 0), &Point::new(2, 2)).is_none());
}

#[test]
fn single_column_path_is_all_orthogonal() {
    let f = make_grid(1, 5, &[]);
    let start = Point::new(0, 0);
    let goal = Point::new(0, 4);
    let path = f.find_path(&start, &goal).unwrap();
    assert_valid(&f, &path, &start, &goal);
    assert_eq!(path.steps().len(), 5);
    for i in 0..4 {
        assert_eq!(move_cost(&path.steps()[i], &path.steps()[i + 1]), 10);
    }
    assert_eq!(total_cost(&path), 40);
}

#[test]
fn start_equals_goal_gives_single_cell_path() {
    let f = make_grid(3, 3, &[]);
    let p = Point::new(1, 1);
    let path = f.find_path(&p, &p).unwrap();
    assert_eq!(path.steps().len(), 1);
    assert_eq!(path.steps()[0], p);
    assert_eq!(total_cost(&path), 0);
}

#[test]
fn separated_regions_yield_none() {
    let f = make_grid(3, 3, &[(1, 0), (1, 1), (1, 2)]);
    assert!(f.find_path(&Point::new(0, 0), &Point::new(2, 0)).is_none());
    assert!(f.find_path(&Point::new(0, 2), &Point::new(2, 2)).is_none());
}

#[test]
fn repeated_search_returns_identical_path() {
    let f = make_grid(4, 4, &[(1, 1), (2, 1)]);
    let start = Point::new(0, 0);
    let goal = Point::new(3, 3);
    let first = f.find_path(&start, &goal).unwrap();
    let second = f.find_path(&start, &goal).unwrap();
    assert_eq!(first.steps(), second.steps());
    assert_eq!(first.start(), second.start());
    assert_eq!(first.goal(), second.goal());
}

#[test]
fn cost_is_minimal_on_open_grid() {
    let f = make_grid(3, 3, &[]);
    let start = Point::new(0, 0);
    let goal = Point::new(2, 2);
    let path = f.find_path(&start, &goal).unwrap();
    assert_eq!(Some(total_cost(&path)), brute_force_cost(&f, start, goal));
}

#[test]
fn cost_is_minimal_with_obstacles() {
    let f = make_grid(4, 4, &[(1, 1), (2, 1), (1, 2)]);
    let start = Point::new(0, 0);
    let goal = Point::new(3, 3);
    let path = f.find_path(&start, &goal).unwrap();
    assert_valid(&f, &path, &start, &goal);
    assert_eq!(Some(total_cost(&path)), brute_force_cost(&f, start, goal));
}

#[test]
fn cost_is_minimal_on_sparse_maze() {
    let walls = [
        (1, 0),
        (3, 0),
        (1, 1),
        (3, 2),
        (0, 3),
        (1, 3),
        (2, 3),
        (3, 4),
        (1, 4),
    ];
    let f = make_grid(5, 5, &walls);
    let start = Point::new(0, 0);
    let goal = Point::new(4, 4);
    match f.find_path(&start, &goal) {
        Some(path) => {
            assert_valid(&f, &path, &start, &goal);
            assert_eq!(Some(total_cost(&path)), brute_force_cost(&f, start, goal));
        }
        None => {
            assert_eq!(brute_force_cost(&f, start, goal), None);
        }
    }
}

#[test]
fn zero_sized_grid_has_no_valid_coordinates() {
    let f = Field::from_tiles(0, 0, Vec::new()).unwrap();
    assert_eq!(f.width(), 0);
    assert_eq!(f.height(), 0);
    assert!(matches!(
        f.try_get_tile(&Point::new(0, 0)),
        Err(FieldError::OutOfBounds)
    ));
    assert!(matches!(
        f.try_find_path(&Point::new(0, 0), &Point::new(0, 0)),
        Err(FieldError::OutOfBounds)
    ));
}

#[test]
fn try_find_path_reports_out_of_bounds() {
    let f = make_grid(3, 3, &[]);
    assert!(matches!(
        f.try_find_path(&Point::new(3, 0), &Point::new(2, 2)),
        Err(FieldError::OutOfBounds)
    ));
    assert!(matches!(
        f.try_find_path(&Point::new(0, 0), &Point::new(0, 3)),
        Err(FieldError::OutOfBounds)
    ));
    let found = f.try_find_path(&Point::new(0, 0), &Point::new(2, 2)).unwrap();
    assert!(found.is_some());
}
