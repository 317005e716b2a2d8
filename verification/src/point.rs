use vstd::prelude::*;

verus! {

/// A grid coordinate: column `x` and row `y`.
#[derive(Clone, Copy, PartialEq, Eq, Hash, Debug, Structural)]
pub struct Point {
    pub x: usize,
    pub y: usize,
}

/// Absolute difference of two mathematical integers.
pub open spec fn abs_diff(a: int, b: int) -> int {
    if a >= b {
        a - b
    } else {
        b - a
    }
}

/// Two distinct cells within Chebyshev distance one of each other: the
/// 8-connected adjacency relation (orthogonal and diagonal moves).
pub open spec fn adjacent(a: Point, b: Point) -> bool {
    &&& a != b
    &&& abs_diff(a.x as int, b.x as int) <= 1
    &&& abs_diff(a.y as int, b.y as int) <= 1
}

/// Octile distance between two cells in step-cost units: each diagonal step
/// counts 14, each orthogonal step counts 10. This is the exact cost of a
/// cheapest 8-connected route on an unobstructed grid, so it never
/// overestimates the true remaining cost and is an admissible heuristic.
pub open spec fn octile_distance(a: Point, b: Point) -> int {
    let dx = abs_diff(a.x as int, b.x as int);
    let dy = abs_diff(a.y as int, b.y as int);
    if dx <= dy {
        14 * dx + 10 * (dy - dx)
    } else {
        14 * dy + 10 * (dx - dy)
    }
}

/// Cost of one move between adjacent cells: 14 for a diagonal step, 10 for an
/// orthogonal one.
pub open spec fn step_cost(a: Point, b: Point) -> int {
    if abs_diff(a.x as int, b.x as int) + abs_diff(a.y as int, b.y as int) == 2 {
        14
    } else {
        10
    }
}

/// Total cost of a cell sequence: the sum of the step costs of its
/// consecutive pairs.
pub open spec fn path_cost(s: Seq<Point>) -> int
    decreases s.len(),
{
    if s.len() <= 1 {
        0
    } else {
        path_cost(s.drop_last()) + step_cost(s[s.len() - 2], s[s.len() - 1])
    }
}

/// Between adjacent cells the octile distance is exactly the step cost.
pub proof fn lemma_octile_adjacent(a: Point, b: Point)
    requires
        adjacent(a, b),
    ensures
        octile_distance(a, b) == step_cost(a, b),
{
}

/// The octile distance obeys the triangle inequality.
pub proof fn lemma_octile_triangle(a: Point, b: Point, c: Point)
    ensures
        octile_distance(a, c) <= octile_distance(a, b) + octile_distance(b, c),
{
}

/// The octile distance between the two ends of a chain of adjacent cells
/// never exceeds the chain's total step cost: the heuristic is admissible.
pub proof fn lemma_chain_admissible(s: Seq<Point>)
    requires
        s.len() >= 1,
        forall|k: int| 0 <= k < s.len() - 1 ==> #[trigger] adjacent(s[k], s[k + 1]),
    ensures
        octile_distance(s[0], s.last()) <= path_cost(s),
    decreases s.len(),
{
    if s.len() > 1 {
        let s0 = s.drop_last();
        lemma_chain_admissible(s0);
        lemma_octile_triangle(s[0], s[s.len() - 2], s[s.len() - 1]);
        assert(adjacent(s[s.len() - 2], s[(s.len() - 2) + 1]));
        lemma_octile_adjacent(s[s.len() - 2], s[s.len() - 1]);
    }
}

/// A path's cost splits at any cell into the cost up to it plus the cost
/// from it on.
pub proof fn lemma_path_cost_split(s: Seq<Point>, k: int)
    requires
        0 <= k < s.len(),
    ensures
        path_cost(s) == path_cost(s.take(k + 1)) + path_cost(s.skip(k)),
    decreases s.len(),
{
    if k == s.len() - 1 {
        assert(s.take(k + 1) =~= s);
        assert(s.skip(k).len() == 1);
    } else {
        let s0 = s.drop_last();
        lemma_path_cost_split(s0, k);
        assert(s0.take(k + 1) =~= s.take(k + 1));
        assert(s.skip(k).drop_last() =~= s0.skip(k));
        assert(s.skip(k).len() >= 2);
        assert(s.skip(k)[s.skip(k).len() - 2] == s[s.len() - 2]);
        assert(s.skip(k)[s.skip(k).len() - 1] == s[s.len() - 1]);
    }
}

/// Appending a cell adds one step's cost.
pub proof fn lemma_path_cost_push(s: Seq<Point>, v: Point)
    requires
        s.len() >= 1,
    ensures
        path_cost(s.push(v)) == path_cost(s) + step_cost(s.last(), v),
{
    assert(s.push(v).drop_last() =~= s);
    assert(s.push(v)[s.push(v).len() - 2] == s.last());
    assert(s.push(v)[s.push(v).len() - 1] == v);
}

/// The deterministic tie-break order on coordinates: primarily by column
/// descending, then by row ascending. It has no spatial meaning; it only makes
/// the open-set ordering total, so that searches are reproducible.
pub open spec fn point_before(a: Point, b: Point) -> bool {
    a.x > b.x || (a.x == b.x && a.y < b.y)
}

impl Point {
    pub fn new(x: usize, y: usize) -> (r: Point)
        ensures
            r == (Point { x, y }),
    {
        Point { x, y }
    }

    pub fn x(&self) -> (r: usize)
        ensures
            r == self.x,
    {
        self.x
    }

    pub fn y(&self) -> (r: usize)
        ensures
            r == self.y,
    {
        self.y
    }

    /// Horizontal distance between two cells, in columns.
    pub fn x_distance(&self, other: &Point) -> (r: usize)
        ensures
            r == abs_diff(self.x as int, other.x as int),
    {
        if self.x > other.x {
            self.x - other.x
        } else {
            other.x - self.x
        }
    }

    /// Vertical distance between two cells, in rows.
    pub fn y_distance(&self, other: &Point) -> (r: usize)
        ensures
            r == abs_diff(self.y as int, other.y as int),
    {
        if self.y > other.y {
            self.y - other.y
        } else {
            other.y - self.y
        }
    }

    /// Octile distance to `other` in step-cost units (diagonal 14,
    /// orthogonal 10): the heuristic estimate used by the pathfinder.
    pub fn distance(&self, other: &Point) -> (r: usize)
        requires
            octile_distance(*self, *other) <= usize::MAX,
        ensures
            r == octile_distance(*self, *other),
    {
        let dx = self.x_distance(other);
        let dy = self.y_distance(other);
        if dx <= dy {
            14 * dx + 10 * (dy - dx)
        } else {
            14 * dy + 10 * (dx - dy)
        }
    }

    /// Whether `self` comes before `other` in the tie-break order.
    pub fn before(&self, other: &Point) -> (r: bool)
        ensures
            r == point_before(*self, *other),
    {
        self.x > other.x || (self.x == other.x && self.y < other.y)
    }
}

} // verus!
