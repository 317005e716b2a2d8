use vstd::prelude::*;

use crate::point::{abs_diff, adjacent, Point};
use rand::distributions::{Bernoulli, Distribution};

verus! {

/// What occupies one cell of the grid.
#[derive(Clone, Copy, PartialEq, Eq, Debug, Structural)]
pub enum Tile {
    /// A passable cell.
    Floor,
    /// A blocked cell.
    Wall,
}

/// The ways a grid operation can be asked something outside its domain.
#[derive(Clone, Copy, PartialEq, Eq, Debug, Structural)]
pub enum FieldError {
    /// A construction parameter lies outside its valid range.
    InvalidParameter,
    /// A queried coordinate lies outside the grid.
    OutOfBounds,
}

/// Declares rand's `Bernoulli` distribution type, which the constructor
/// holds only to draw samples from; its inside stays opaque.
#[verifier::external_type_specification]
#[verifier::external_body]
pub struct ExBernoulli(Bernoulli);

/// Relies on rand's `Bernoulli::from_ratio`: it returns a distribution with
/// success probability `numerator / denominator` exactly when
/// `0 < denominator` and `numerator <= denominator`, and an
/// `InvalidProbability` error (the only variant, mapped to `None` here)
/// otherwise.
#[verifier::external_body]
fn bernoulli_from_ratio(numerator: u32, denominator: u32) -> (r: Option<Bernoulli>)
    ensures
        r is Some <==> (0 < denominator && numerator <= denominator),
{
    match Bernoulli::from_ratio(numerator, denominator) {
        Ok(dist) => Some(dist),
        Err(rand::distributions::BernoulliError::InvalidProbability) => None,
    }
}

/// Relies on rand's `Distribution::<bool>::sample` for `Bernoulli`, drawing
/// from `rand::thread_rng`: one independent draw. Nothing can be promised of
/// a random outcome, so this has no contract. (`thread_rng` aborts only if
/// the operating system cannot supply entropy at all.)
#[verifier::external_body]
fn bernoulli_sample(dist: &Bernoulli) -> bool {
    dist.sample(&mut rand::thread_rng())
}

/// A fixed rectangular map of tiles, immutable once constructed. Tiles are
/// stored densely in row-major order: the cell `(x, y)` lives at index
/// `x + y * width`.
pub struct Field {
    width: usize,
    height: usize,
    array: Vec<Tile>,
}

impl Field {
    /// The dense array has exactly one entry per in-bounds cell.
    #[verifier::type_invariant]
    pub(crate) closed spec fn wf(self) -> bool {
        &&& self.array@.len() == self.width * self.height
        &&& self.width * self.height <= usize::MAX
    }

    /// Width of the grid, in columns.
    pub closed spec fn spec_width(self) -> usize {
        self.width
    }

    /// Height of the grid, in rows.
    pub closed spec fn spec_height(self) -> usize {
        self.height
    }

    /// Whether a coordinate lies inside the grid.
    pub open spec fn in_bounds(self, p: Point) -> bool {
        p.x < self.spec_width() && p.y < self.spec_height()
    }

    /// Row-major index of a cell.
    pub open spec fn spec_ix(self, p: Point) -> int {
        p.x + p.y * self.spec_width()
    }

    /// The tile at a cell.
    pub closed spec fn tile_of(self, p: Point) -> Tile {
        self.array@[self.spec_ix(p)]
    }

    /// `q` may be entered in one move from `c`: both are in bounds, they are
    /// distinct 8-connected neighbors, and `q` is passable.
    pub open spec fn is_neighbor(self, c: Point, q: Point) -> bool {
        &&& self.in_bounds(c)
        &&& self.in_bounds(q)
        &&& adjacent(c, q)
        &&& self.tile_of(q) == Tile::Floor
    }

    /// An ordered cell sequence that a mover may follow across the grid: it
    /// begins at `start` on a passable cell, ends at `goal`, and each
    /// consecutive pair is a neighbor pair.
    pub open spec fn valid_path(self, s: Seq<Point>, start: Point, goal: Point) -> bool {
        &&& s.len() >= 1
        &&& s[0] == start
        &&& s[s.len() - 1] == goal
        &&& self.in_bounds(start)
        &&& self.tile_of(start) == Tile::Floor
        &&& forall|i: int|
            0 <= i < s.len() - 1 ==> #[trigger] self.is_neighbor(s[i], s[i + 1])
    }

    /// The row-major index is in range for every in-bounds cell, the grid
    /// area fits in a `usize`, and distinct in-bounds cells have distinct
    /// indices.
    pub(crate) proof fn lemma_grid_props(self)
        requires
            self.wf(),
        ensures
            self.spec_width() * self.spec_height() <= usize::MAX,
            forall|p: Point|
                self.in_bounds(p) ==> 0 <= #[trigger] self.spec_ix(p) < self.spec_width()
                    * self.spec_height(),
            forall|p: Point, q: Point|
                #![trigger self.spec_ix(p), self.spec_ix(q)]
                self.in_bounds(p) && self.in_bounds(q) && self.spec_ix(p) == self.spec_ix(q)
                    ==> p == q,
    {
        let w = self.spec_width() as int;
        let h = self.spec_height() as int;
        assert forall|p: Point| self.in_bounds(p) implies 0 <= #[trigger] self.spec_ix(p) < w
            * h by {
            assert(p.x + p.y * w < w * h) by (nonlinear_arith)
                requires
                    p.x < w,
                    p.y < h,
            ;
        }
        assert forall|p: Point, q: Point|
            #![trigger self.spec_ix(p), self.spec_ix(q)]
            self.in_bounds(p) && self.in_bounds(q) && self.spec_ix(p) == self.spec_ix(
                q,
            ) implies p == q by {
            assert(p.x == q.x && p.y == q.y) by (nonlinear_arith)
                requires
                    p.x < w,
                    q.x < w,
                    p.x + p.y * w == q.x + q.y * w,
            ;
        }
    }

    /// Builds the grid that holds exactly the given tiles, row-major: the
    /// cell `(x, y)` receives `tiles[x + y * width]`. Rejects a tile vector
    /// whose length is not `width * height`.
    pub fn from_tiles(width: usize, height: usize, tiles: Vec<Tile>) -> (r: Result<
        Field,
        FieldError,
    >)
        ensures
            r is Ok <==> tiles@.len() == width * height,
            r matches Ok(f) ==> {
                &&& f.spec_width() == width
                &&& f.spec_height() == height
                &&& forall|p: Point|
                    f.in_bounds(p) ==> #[trigger] f.tile_of(p) == tiles@[f.spec_ix(p)]
            },
            r matches Err(e) ==> e == FieldError::InvalidParameter,
    {
        let len = tiles.len();
        match width.checked_mul(height) {
            Some(total) => {
                if len == total {
                    let f = Field { width, height, array: tiles };
                    Ok(f)
                } else {
                    Err(FieldError::InvalidParameter)
                }
            },
            None => {
                // the area exceeds usize::MAX, so no tile vector can match it
                Err(FieldError::InvalidParameter)
            },
        }
    }

    /// Fills a `width` by `height` grid cell by cell, each cell drawn
    /// independently as `Wall` with probability `numerator / denominator`.
    /// Rejects a ratio outside [0, 1], that is `numerator > denominator` or
    /// `denominator == 0`.
    #[verifier::loop_isolation(false)]
    pub fn new(width: usize, height: usize, numerator: u32, denominator: u32) -> (r: Result<
        Field,
        FieldError,
    >)
        requires
            width * height <= usize::MAX,
        ensures
            r is Ok <==> (0 < denominator && numerator <= denominator),
            r matches Ok(f) ==> f.spec_width() == width && f.spec_height() == height,
            r matches Err(e) ==> e == FieldError::InvalidParameter,
    {
        let dist = match bernoulli_from_ratio(numerator, denominator) {
            Some(d) => d,
            None => {
                return Err(FieldError::InvalidParameter);
            },
        };
        let total = width * height;
        let mut tiles: Vec<Tile> = Vec::new();
        let mut i: usize = 0;
        while i < total
            invariant
                i <= total,
                tiles@.len() == i,
            decreases total - i,
        {
            if bernoulli_sample(&dist) {
                tiles.push(Tile::Wall);
            } else {
                tiles.push(Tile::Floor);
            }
            i = i + 1;
        }
        Ok(Field { width, height, array: tiles })
    }

    pub fn width(&self) -> (r: usize)
        ensures
            r == self.spec_width(),
    {
        self.width
    }

    pub fn height(&self) -> (r: usize)
        ensures
            r == self.spec_height(),
    {
        self.height
    }

    /// The tile at an in-bounds cell.
    pub fn get_tile(&self, point: &Point) -> (r: Tile)
        requires
            self.in_bounds(*point),
        ensures
            r == self.tile_of(*point),
    {
        proof {
            use_type_invariant(self);
            self.lemma_grid_props();
        }
        self.array[point.x + point.y * self.width]
    }

    /// The tile at a cell, or `OutOfBounds` for a coordinate outside the
    /// grid.
    pub fn try_get_tile(&self, point: &Point) -> (r: Result<Tile, FieldError>)
        ensures
            r is Ok <==> self.in_bounds(*point),
            r matches Ok(t) ==> t == self.tile_of(*point),
            r matches Err(e) ==> e == FieldError::OutOfBounds,
    {
        if point.x < self.width && point.y < self.height {
            Ok(self.get_tile(point))
        } else {
            Err(FieldError::OutOfBounds)
        }
    }

    /// All cells that may be entered in one move from `center_point`: the
    /// 8-connected neighbors clipped to the grid bounds, excluding the center
    /// itself and every blocked cell. The result contains exactly the cells
    /// related to `center_point` by `is_neighbor`.
    #[verifier::loop_isolation(false)]
    pub fn get_neighbours(&self, center_point: &Point) -> (r: Vec<Point>)
        requires
            self.in_bounds(*center_point),
        ensures
            forall|i: int| 0 <= i < r@.len() ==> self.is_neighbor(*center_point, #[trigger] r@[i]),
            forall|q: Point| self.is_neighbor(*center_point, q) ==> r@.contains(q),
    {
        proof {
            use_type_invariant(self);
        }
        let c = *center_point;
        let lower_y = if c.y > 0 {
            c.y - 1
        } else {
            0
        };
        let lower_x = if c.x > 0 {
            c.x - 1
        } else {
            0
        };
        let upper_y = if c.y < self.height - 1 {
            c.y + 1
        } else {
            c.y
        };
        let upper_x = if c.x < self.width - 1 {
            c.x + 1
        } else {
            c.x
        };
        proof {
            assert forall|q: Point| self.is_neighbor(c, q) implies lower_x <= q.x <= upper_x
                && lower_y <= q.y <= upper_y by {}
        }
        let mut neighbours: Vec<Point> = Vec::new();
        let mut y = lower_y;
        while y <= upper_y
            invariant
                lower_y <= y,
                y <= upper_y + 1,
                forall|q: Point|
                    #[trigger] neighbours@.contains(q) <==> (self.is_neighbor(c, q) && q.y < y),
            decreases upper_y + 1 - y,
        {
            let mut x = lower_x;
            while x <= upper_x
                invariant
                    lower_x <= x,
                    x <= upper_x + 1,
                    lower_y <= y <= upper_y,
                    forall|q: Point|
                        #[trigger] neighbours@.contains(q) <==> (self.is_neighbor(c, q) && (q.y < y
                            || (q.y == y && q.x < x))),
                decreases upper_x + 1 - x,
            {
                let point = Point { x, y };
                let ghost pre = neighbours@;
                if point != c {
                    let t = self.get_tile(&point);
                    if t == Tile::Floor {
                        neighbours.push(point);
                        proof {
                            lemma_push_contains(pre, point);
                            assert(self.is_neighbor(c, point));
                        }
                    }
                }
                proof {
                    assert forall|q: Point|
                        #[trigger] neighbours@.contains(q) <==> (self.is_neighbor(c, q) && (q.y < y
                            || (q.y == y && q.x < x + 1))) by {
                        if q.y == y && q.x == x {
                            assert(q == point);
                        }
                    }
                }
                x = x + 1;
            }
            y = y + 1;
        }
        proof {
            assert forall|i: int|
                0 <= i < neighbours@.len() implies self.is_neighbor(
                c,
                #[trigger] neighbours@[i],
            ) by {
                assert(neighbours@.contains(neighbours@[i]));
            }
        }
        neighbours
    }
}

/// Appending one element extends the membership of a sequence by exactly that
/// element.
pub(crate) proof fn lemma_push_contains(s: Seq<Point>, v: Point)
    ensures
        forall|q: Point| #[trigger] s.push(v).contains(q) <==> (s.contains(q) || q == v),
{
    assert forall|q: Point| #[trigger] s.push(v).contains(q) implies (s.contains(q) || q
        == v) by {
        let i = choose|i: int| 0 <= i < s.push(v).len() && s.push(v)[i] == q;
        if i < s.len() {
            assert(s[i] == q);
        }
    }
    assert forall|q: Point| (s.contains(q) || q == v) implies #[trigger] s.push(v).contains(
        q,
    ) by {
        if s.contains(q) {
            let i = choose|i: int| 0 <= i < s.len() && s[i] == q;
            assert(s.push(v)[i] == q);
        } else {
            assert(s.push(v)[s.len() as int] == q);
        }
    }
}

} // verus!
