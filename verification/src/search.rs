use vstd::prelude::*;
use vstd::set_lib::{lemma_int_range, lemma_len_subset, set_int_range};

use crate::field::{lemma_push_contains, Field, Tile};
use crate::path::Path;
use crate::point::{
    lemma_chain_admissible, lemma_path_cost_push, lemma_path_cost_split, octile_distance,
    path_cost, point_before, step_cost, Point,
};

verus! {

broadcast use vstd::set::group_set_axioms;

/// Weight of one g-score slot in the termination measure: an undiscovered
/// slot counts as `cap`, a bound that every recorded cost stays under.
pub(crate) open spec fn slot_weight(o: Option<u128>, cap: int) -> int {
    match o {
        Some(v) => v as int,
        None => cap,
    }
}

/// Sum of the slot weights of all g-score slots. Every discovery and every
/// cost improvement strictly lowers it, which bounds the search loop.
pub(crate) open spec fn potential(g: Seq<Option<u128>>, cap: int) -> int
    decreases g.len(),
{
    if g.len() == 0 {
        0
    } else {
        potential(g.drop_last(), cap) + slot_weight(g.last(), cap)
    }
}

proof fn lemma_potential_nonneg(g: Seq<Option<u128>>, cap: int)
    requires
        cap >= 0,
    ensures
        potential(g, cap) >= 0,
    decreases g.len(),
{
    if g.len() > 0 {
        lemma_potential_nonneg(g.drop_last(), cap);
    }
}

proof fn lemma_potential_update(g: Seq<Option<u128>>, i: int, v: Option<u128>, cap: int)
    requires
        0 <= i < g.len(),
    ensures
        potential(g.update(i, v), cap) == potential(g, cap) - slot_weight(g[i], cap)
            + slot_weight(v, cap),
    decreases g.len(),
{
    let gu = g.update(i, v);
    if i == g.len() - 1 {
        assert(gu.drop_last() =~= g.drop_last());
        assert(gu.last() == v);
    } else {
        assert(gu.drop_last() =~= g.drop_last().update(i, v));
        lemma_potential_update(g.drop_last(), i, v, cap);
        assert(gu.last() == g.last());
    }
}

/// No coordinate is listed twice.
pub(crate) open spec fn distinct_seq(s: Seq<Point>) -> bool {
    forall|i: int, j: int| 0 <= i < j < s.len() ==> s[i] != s[j]
}

/// Swap-removing index `i` from a duplicate-free sequence removes exactly the
/// element at `i` from its membership and keeps it duplicate-free.
proof fn lemma_swap_remove_distinct(s: Seq<Point>, i: int)
    requires
        0 <= i < s.len(),
        distinct_seq(s),
    ensures
        ({
            let t = s.update(i, s.last()).drop_last();
            &&& distinct_seq(t)
            &&& forall|q: Point| #[trigger] t.contains(q) <==> (s.contains(q) && q != s[i])
        }),
{
    let t = s.update(i, s.last()).drop_last();
    assert forall|q: Point| #[trigger] t.contains(q) implies (s.contains(q) && q != s[i]) by {
        let k = choose|k: int| 0 <= k < t.len() && t[k] == q;
        if k == i {
            assert(s[s.len() - 1] == q);
        } else {
            assert(s[k] == q);
        }
    }
    assert forall|q: Point| (s.contains(q) && q != s[i]) implies #[trigger] t.contains(q) by {
        let k = choose|k: int| 0 <= k < s.len() && s[k] == q;
        if k == s.len() - 1 {
            assert(t[i] == q);
        } else {
            assert(t[k] == q);
        }
    }
    assert forall|a: int, b: int| 0 <= a < b < t.len() implies t[a] != t[b] by {
        if a == i {
            assert(t[a] == s[s.len() - 1]);
            assert(t[b] == s[b]);
        } else if b == i {
            assert(t[b] == s[s.len() - 1]);
            assert(t[a] == s[a]);
        }
    }
}

/// Builds a vector of `n` empty slots.
#[verifier::loop_isolation(false)]
fn none_vec<T>(n: usize) -> (r: Vec<Option<T>>)
    ensures
        r@.len() == n,
        forall|i: int| 0 <= i < n ==> r@[i] is None,
{
    let mut v: Vec<Option<T>> = Vec::new();
    let mut i: usize = 0;
    while i < n
        invariant
            i <= n,
            v@.len() == i,
            forall|k: int| 0 <= k < i ==> v@[k] is None,
        decreases n - i,
    {
        v.push(None);
        i = i + 1;
    }
    v
}

/// Whether the vector lists the coordinate.
#[verifier::loop_isolation(false)]
fn vec_contains(v: &Vec<Point>, p: &Point) -> (r: bool)
    ensures
        r == v@.contains(*p),
{
    let mut i: usize = 0;
    while i < v.len()
        invariant
            i <= v@.len(),
            forall|j: int| 0 <= j < i ==> v@[j] != *p,
        decreases v@.len() - i,
    {
        if v[i] == *p {
            assert(v@.contains(*p)) by { assert(v@[i as int] == *p); }
            return true;
        }
        i = i + 1;
    }
    proof {
        if v@.contains(*p) {
            let j = choose|j: int| 0 <= j < v@.len() && v@[j] == *p;
            assert(false);
        }
    }
    false
}

/// Cost of the move between two adjacent cells.
fn step_cost_exec(a: &Point, b: &Point) -> (r: u128)
    requires
        crate::point::adjacent(*a, *b),
    ensures
        r as int == step_cost(*a, *b),
        10 <= r <= 14,
{
    let dx = a.x_distance(b);
    let dy = a.y_distance(b);
    if dx + dy == 2 {
        14
    } else {
        10
    }
}

/// Heuristic estimate from `p` to `goal`: the octile distance, computed in a
/// width that cannot overflow.
fn h_cost(p: &Point, goal: &Point) -> (r: u128)
    ensures
        r as int == octile_distance(*p, *goal),
        r as int <= 14 * (usize::MAX as int),
{
    let dx = p.x_distance(goal);
    let dy = p.y_distance(goal);
    if dx <= dy {
        14 * (dx as u128) + 10 * ((dy - dx) as u128)
    } else {
        14 * (dy as u128) + 10 * ((dx - dy) as u128)
    }
}

impl Field {
    /// The cell has received a g-score.
    pub(crate) open spec fn discovered(self, g: Seq<Option<u128>>, p: Point) -> bool {
        g[self.spec_ix(p)] is Some
    }

    /// The recorded cost from the start to this cell.
    pub(crate) open spec fn g_of(self, g: Seq<Option<u128>>, p: Point) -> u128 {
        g[self.spec_ix(p)].unwrap()
    }

    /// The f-score of a discovered cell: recorded cost plus heuristic.
    pub(crate) open spec fn f_of(self, g: Seq<Option<u128>>, p: Point, goal: Point) -> int {
        self.g_of(g, p) + octile_distance(p, goal)
    }

    /// Strict open-set preference: lower f-score first, ties broken by the
    /// coordinate order.
    pub(crate) open spec fn preferred(
        self,
        g: Seq<Option<u128>>,
        a: Point,
        b: Point,
        goal: Point,
    ) -> bool {
        ||| self.f_of(g, a, goal) < self.f_of(g, b, goal)
        ||| (self.f_of(g, a, goal) == self.f_of(g, b, goal) && point_before(a, b))
    }

    /// The predecessor structure built by a search: the start is discovered
    /// at cost zero and has no predecessor; every other discovered cell has
    /// one; every link steps from a discovered neighbor with a strictly
    /// smaller recorded cost, so following links must end at the start.
    pub(crate) open spec fn links_inv(
        self,
        g: Seq<Option<u128>>,
        cf: Seq<Option<Point>>,
        start: Point,
    ) -> bool {
        let n = self.spec_width() * self.spec_height();
        &&& g.len() == n
        &&& cf.len() == n
        &&& self.in_bounds(start)
        &&& self.discovered(g, start)
        &&& self.g_of(g, start) == 0
        &&& cf[self.spec_ix(start)] is None
        &&& forall|p: Point|
            self.in_bounds(p) && #[trigger] self.discovered(g, p) ==> self.tile_of(p)
                == Tile::Floor
        &&& forall|p: Point|
            self.in_bounds(p) && #[trigger] self.discovered(g, p) && p != start ==> cf[self.spec_ix(
                p,
            )] is Some
        &&& forall|p: Point|
            #![trigger cf[self.spec_ix(p)]]
            self.in_bounds(p) && cf[self.spec_ix(p)] is Some ==> {
                let q = cf[self.spec_ix(p)].unwrap();
                &&& p != start
                &&& self.discovered(g, p)
                &&& self.is_neighbor(q, p)
                &&& self.discovered(g, q)
                &&& self.g_of(g, q) + step_cost(q, p) <= self.g_of(g, p)
            }
    }

    /// Cells queued in the open set are discovered, in bounds and listed
    /// once; the goal, once discovered, stays queued until it is expanded.
    pub(crate) open spec fn open_inv(
        self,
        g: Seq<Option<u128>>,
        open: Seq<Point>,
        goal: Point,
    ) -> bool {
        &&& forall|i: int|
            0 <= i < open.len() ==> self.in_bounds(#[trigger] open[i]) && self.discovered(
                g,
                open[i],
            )
        &&& distinct_seq(open)
        &&& (self.discovered(g, goal) ==> open.contains(goal))
    }

    /// Every neighbor of a settled cell (discovered but no longer queued,
    /// other than the cell currently being expanded, if any) has been
    /// discovered.
    pub(crate) open spec fn closure_except(
        self,
        g: Seq<Option<u128>>,
        open: Seq<Point>,
        except: Option<Point>,
    ) -> bool {
        forall|p: Point, q: Point|
            self.in_bounds(p) && #[trigger] self.discovered(g, p) && !open.contains(p) && except
                != Some(p) && #[trigger] self.is_neighbor(p, q) ==> self.discovered(g, q)
                && self.g_of(g, q) as int <= self.g_of(g, p) + step_cost(p, q)
    }

    /// Bookkeeping that bounds every recorded cost: `disc` is the set of
    /// dense indices of discovered cells, and each discovery adds at most 14
    /// to the largest recorded cost.
    pub(crate) open spec fn disc_inv(self, g: Seq<Option<u128>>, disc: Set<int>) -> bool {
        let n = self.spec_width() * self.spec_height();
        &&& forall|i: int|
            #![trigger disc.contains(i)]
            #![trigger g[i]]
            0 <= i < n ==> (disc.contains(i) <==> g[i] is Some)
        &&& disc.finite()
        &&& disc.subset_of(set_int_range(0, n))
        &&& forall|p: Point|
            self.in_bounds(p) && #[trigger] self.discovered(g, p) ==> self.g_of(g, p) as int <= 14
                * disc.len()
    }

    /// Everything the search loop maintains.
    pub(crate) open spec fn search_inv(
        self,
        g: Seq<Option<u128>>,
        cf: Seq<Option<Point>>,
        open: Seq<Point>,
        disc: Set<int>,
        start: Point,
        goal: Point,
    ) -> bool {
        &&& self.links_inv(g, cf, start)
        &&& self.in_bounds(goal)
        &&& self.open_inv(g, open, goal)
        &&& self.closure_except(g, open, None)
        &&& self.disc_inv(g, disc)
    }

    /// Recording a first or strictly improved cost for `nb`, reached from
    /// `current`, preserves the predecessor structure.
    proof fn lemma_relax_links(
        self,
        gpre: Seq<Option<u128>>,
        cfpre: Seq<Option<Point>>,
        start: Point,
        current: Point,
        nb: Point,
        cand: u128,
    )
        requires
            self.wf(),
            self.links_inv(gpre, cfpre, start),
            self.is_neighbor(current, nb),
            self.in_bounds(current),
            self.discovered(gpre, current),
            self.g_of(gpre, current) + step_cost(current, nb) <= cand,
            nb != start,
            self.discovered(gpre, nb) ==> cand < self.g_of(gpre, nb),
        ensures
            self.links_inv(
                gpre.update(self.spec_ix(nb), Some(cand)),
                cfpre.update(self.spec_ix(nb), Some(current)),
                start,
            ),
    {
        self.lemma_grid_props();
        let gq = gpre.update(self.spec_ix(nb), Some(cand));
        let cq = cfpre.update(self.spec_ix(nb), Some(current));
        assert(current != nb);
        assert(self.spec_ix(current) != self.spec_ix(nb));
        assert(self.spec_ix(start) != self.spec_ix(nb));
        assert forall|p: Point|
            self.in_bounds(p) && #[trigger] self.discovered(gq, p) implies self.tile_of(p)
            == Tile::Floor by {
            if self.spec_ix(p) == self.spec_ix(nb) {
                assert(p == nb);
            } else {
                assert(self.discovered(gpre, p));
            }
        }
        assert forall|p: Point|
            self.in_bounds(p) && #[trigger] self.discovered(gq, p) && p != start implies cq[self.spec_ix(
            p,
        )] is Some by {
            if self.spec_ix(p) != self.spec_ix(nb) {
                assert(self.discovered(gpre, p));
            }
        }
        assert forall|p: Point|
            #![trigger cq[self.spec_ix(p)]]
            self.in_bounds(p) && cq[self.spec_ix(p)] is Some implies {
            let q = cq[self.spec_ix(p)].unwrap();
            &&& p != start
            &&& self.discovered(gq, p)
            &&& self.is_neighbor(q, p)
            &&& self.discovered(gq, q)
            &&& self.g_of(gq, q) + step_cost(q, p) <= self.g_of(gq, p)
        } by {
            if self.spec_ix(p) == self.spec_ix(nb) {
                assert(p == nb);
                assert(cq[self.spec_ix(p)].unwrap() == current);
                assert(self.g_of(gq, current) == self.g_of(gpre, current));
                assert(self.g_of(gq, nb) == cand);
            } else {
                assert(cfpre[self.spec_ix(p)] is Some);
                let q = cfpre[self.spec_ix(p)].unwrap();
                assert(self.discovered(gpre, p));
                assert(self.discovered(gpre, q));
                assert(self.g_of(gpre, q) < self.g_of(gpre, p));
                assert(self.g_of(gq, p) == self.g_of(gpre, p));
                if self.spec_ix(q) == self.spec_ix(nb) {
                    assert(q == nb);
                    assert(self.g_of(gq, q) == cand);
                } else {
                    assert(self.g_of(gq, q) == self.g_of(gpre, q));
                }
            }
        }
    }

    /// Recording a first or strictly improved cost for a queued cell `nb`
    /// preserves the closure property of the settled cells.
    proof fn lemma_relax_closure(
        self,
        gpre: Seq<Option<u128>>,
        openpre: Seq<Point>,
        open2: Seq<Point>,
        current: Point,
        nb: Point,
        cand: u128,
    )
        requires
            self.wf(),
            self.in_bounds(nb),
            gpre.len() == self.spec_width() * self.spec_height(),
            self.closure_except(gpre, openpre, Some(current)),
            self.discovered(gpre, nb) ==> cand < self.g_of(gpre, nb),
            open2.contains(nb),
            forall|q: Point| openpre.contains(q) ==> open2.contains(q),
        ensures
            self.closure_except(gpre.update(self.spec_ix(nb), Some(cand)), open2, Some(current)),
    {
        self.lemma_grid_props();
        let g2 = gpre.update(self.spec_ix(nb), Some(cand));
        assert forall|p: Point, q: Point|
            self.in_bounds(p) && #[trigger] self.discovered(g2, p) && !open2.contains(p) && Some(
                current,
            ) != Some(p) && #[trigger] self.is_neighbor(p, q) implies self.discovered(g2, q)
            && self.g_of(g2, q) as int <= self.g_of(g2, p) + step_cost(p, q) by {
            assert(p != nb);
            assert(self.spec_ix(p) != self.spec_ix(nb));
            assert(self.discovered(gpre, p));
            assert(self.g_of(g2, p) == self.g_of(gpre, p));
            assert(!openpre.contains(p));
            assert(self.discovered(gpre, q));
            assert(self.g_of(gpre, q) as int <= self.g_of(gpre, p) + step_cost(p, q));
            if self.spec_ix(q) == self.spec_ix(nb) {
                assert(q == nb);
                assert(self.g_of(g2, q) == cand);
            } else {
                assert(self.g_of(g2, q) == self.g_of(gpre, q));
            }
        }
    }

    /// Walking any neighbor chain from the start, one either meets a queued
    /// cell whose recorded cost is at most the chain's cost up to that cell,
    /// or arrives at the chain's end with its full cost already matched:
    /// each settled cell passes its cost bound one step further along the
    /// chain.
    proof fn lemma_settled_chain(self, g: Seq<Option<u128>>, open: Seq<Point>, s: Seq<Point>)
        requires
            self.closure_except(g, open, None),
            s.len() >= 1,
            self.in_bounds(s[0]),
            self.discovered(g, s[0]),
            self.g_of(g, s[0]) == 0,
            forall|k: int| 0 <= k < s.len() - 1 ==> #[trigger] self.is_neighbor(s[k], s[k + 1]),
        ensures
            (exists|k: int|
                0 <= k < s.len() && #[trigger] open.contains(s[k]) && self.discovered(g, s[k])
                    && self.g_of(g, s[k]) as int <= path_cost(s.take(k + 1))) || (self.discovered(
                g,
                s.last(),
            ) && self.g_of(g, s.last()) as int <= path_cost(s)),
        decreases s.len(),
    {
        if s.len() == 1 {
            assert(s.take(1) =~= s);
            if open.contains(s[0]) {
                assert(open.contains(s[0]) && self.discovered(g, s[0]) && self.g_of(g, s[0]) as int
                    <= path_cost(s.take(0int + 1)));
            }
        } else {
            let s0 = s.drop_last();
            assert forall|k: int| 0 <= k < s0.len() - 1 implies #[trigger] self.is_neighbor(
                s0[k],
                s0[k + 1],
            ) by {
                assert(self.is_neighbor(s[k], s[k + 1]));
            }
            self.lemma_settled_chain(g, open, s0);
            if exists|k: int|
                0 <= k < s0.len() && #[trigger] open.contains(s0[k]) && self.discovered(g, s0[k])
                    && self.g_of(g, s0[k]) as int <= path_cost(s0.take(k + 1)) {
                let k = choose|k: int|
                    0 <= k < s0.len() && #[trigger] open.contains(s0[k]) && self.discovered(
                        g,
                        s0[k],
                    ) && self.g_of(g, s0[k]) as int <= path_cost(s0.take(k + 1));
                assert(s0.take(k + 1) =~= s.take(k + 1));
                assert(open.contains(s[k]) && self.discovered(g, s[k]) && self.g_of(g, s[k]) as int
                    <= path_cost(s.take(k + 1)));
            } else {
                let z = s0.last();
                assert(z == s[s.len() - 2]);
                assert(self.discovered(g, z) && self.g_of(g, z) as int <= path_cost(s0));
                assert(self.is_neighbor(s[s.len() - 2], s[(s.len() - 2) + 1]));
                if open.contains(z) {
                    assert(s.take((s.len() - 2) + 1) =~= s0);
                    assert(open.contains(s[s.len() - 2]) && self.discovered(g, s[s.len() - 2])
                        && self.g_of(g, s[s.len() - 2]) as int <= path_cost(
                        s.take((s.len() - 2) + 1),
                    ));
                } else {
                    assert(self.discovered(g, s.last()) && self.g_of(g, s.last()) as int
                        <= self.g_of(g, z) + step_cost(z, s.last()));
                }
            }
        }
    }

    /// When the goal leaves the open set as the entry that no other entry is
    /// preferred to, its recorded cost is already minimal: no valid path is
    /// cheaper.
    proof fn lemma_goal_cost_minimal(
        self,
        g: Seq<Option<u128>>,
        open: Seq<Point>,
        best: int,
        s: Seq<Point>,
        start: Point,
        goal: Point,
    )
        requires
            self.wf(),
            self.in_bounds(start),
            self.discovered(g, start),
            self.g_of(g, start) == 0,
            self.discovered(g, goal),
            self.closure_except(g, open, None),
            0 <= best < open.len(),
            open[best] == goal,
            forall|i: int|
                0 <= i < open.len() ==> !self.preferred(g, #[trigger] open[i], open[best], goal),
            self.valid_path(s, start, goal),
        ensures
            self.g_of(g, goal) as int <= path_cost(s),
    {
        self.lemma_settled_chain(g, open, s);
        if exists|k: int|
            0 <= k < s.len() && #[trigger] open.contains(s[k]) && self.discovered(g, s[k])
                && self.g_of(g, s[k]) as int <= path_cost(s.take(k + 1)) {
            let k = choose|k: int|
                0 <= k < s.len() && #[trigger] open.contains(s[k]) && self.discovered(g, s[k])
                    && self.g_of(g, s[k]) as int <= path_cost(s.take(k + 1));
            let j = choose|j: int| 0 <= j < open.len() && open[j] == s[k];
            assert(!self.preferred(g, open[j], open[best], goal));
            assert(octile_distance(goal, goal) == 0);
            assert(self.g_of(g, goal) as int <= self.g_of(g, s[k]) + octile_distance(s[k], goal));
            lemma_path_cost_split(s, k);
            let suf = s.skip(k);
            assert forall|m: int| 0 <= m < suf.len() - 1 implies #[trigger] crate::point::adjacent(
                suf[m],
                suf[m + 1],
            ) by {
                assert(self.is_neighbor(s[m + k], s[(m + k) + 1]));
                assert(suf[m] == s[m + k]);
                assert(suf[m + 1] == s[m + k + 1]);
            }
            assert(suf[0] == s[k]);
            assert(suf.last() == s[s.len() - 1]);
            lemma_chain_admissible(suf);
            assert(octile_distance(s[k], goal) <= path_cost(suf));
        } else {
            assert(self.g_of(g, s.last()) as int <= path_cost(s));
        }
    }

    /// Along a chain of neighbor steps that begins at a discovered cell,
    /// every cell is discovered, provided no discovered cell still has an
    /// undiscovered neighbor.
    proof fn lemma_chain_discovered(self, g: Seq<Option<u128>>, s: Seq<Point>, i: int)
        requires
            forall|p: Point, q: Point|
                self.in_bounds(p) && #[trigger] self.discovered(g, p) && #[trigger] self.is_neighbor(
                    p,
                    q,
                ) ==> self.discovered(g, q),
            forall|k: int| 0 <= k < s.len() - 1 ==> #[trigger] self.is_neighbor(s[k], s[k + 1]),
            0 <= i < s.len(),
            self.in_bounds(s[0]),
            self.discovered(g, s[0]),
        ensures
            self.in_bounds(s[i]),
            self.discovered(g, s[i]),
        decreases i,
    {
        if i > 0 {
            self.lemma_chain_discovered(g, s, i - 1);
            assert(self.is_neighbor(s[i - 1], s[(i - 1) + 1]));
        }
    }

    /// A blocked start or goal admits no valid path at all.
    proof fn lemma_blocked_no_path(self, start: Point, goal: Point)
        requires
            self.tile_of(start) == Tile::Wall || self.tile_of(goal) == Tile::Wall,
        ensures
            !(exists|s: Seq<Point>| self.valid_path(s, start, goal)),
    {
        assert forall|s: Seq<Point>|
            #![trigger self.valid_path(s, start, goal)]
            !self.valid_path(s, start, goal) by {
            if self.valid_path(s, start, goal) {
                if self.tile_of(start) != Tile::Wall {
                    if s.len() == 1 {
                        assert(start == goal);
                    } else {
                        assert(self.is_neighbor(s[s.len() - 2], s[(s.len() - 2) + 1]));
                    }
                }
                assert(false);
            }
        }
    }

    /// Dense row-major index of an in-bounds cell.
    fn index_of(&self, p: &Point) -> (r: usize)
        requires
            self.in_bounds(*p),
        ensures
            r == self.spec_ix(*p),
    {
        proof {
            use_type_invariant(self);
            self.lemma_grid_props();
            assert(0 <= self.spec_ix(*p) < self.spec_width() * self.spec_height());
        }
        p.x + p.y * self.width()
    }

    /// The f-score of a discovered cell, as executable arithmetic.
    fn f_value(&self, g: &Vec<Option<u128>>, p: &Point, goal: &Point) -> (r: u128)
        requires
            self.in_bounds(*p),
            g@.len() == self.spec_width() * self.spec_height(),
            self.discovered(g@, *p),
            self.g_of(g@, *p) as int <= 14 * (usize::MAX as int),
        ensures
            r as int == self.f_of(g@, *p, *goal),
    {
        proof {
            use_type_invariant(self);
            self.lemma_grid_props();
            assert(0 <= self.spec_ix(*p) < self.spec_width() * self.spec_height());
        }
        let idx = self.index_of(p);
        let gv = g[idx].unwrap();
        let h = h_cost(p, goal);
        gv + h
    }

    /// Index of the open-set entry that no other entry is preferred to:
    /// lowest f-score, ties broken by the coordinate order, so the choice is
    /// deterministic.
    #[verifier::loop_isolation(false)]
    fn select_best(&self, open: &Vec<Point>, g: &Vec<Option<u128>>, goal: &Point) -> (best: usize)
        requires
            open@.len() >= 1,
            g@.len() == self.spec_width() * self.spec_height(),
            forall|i: int|
                0 <= i < open@.len() ==> self.in_bounds(#[trigger] open@[i]) && self.discovered(
                    g@,
                    open@[i],
                ) && self.g_of(g@, open@[i]) as int <= 14 * (usize::MAX as int),
        ensures
            best < open@.len(),
            forall|i: int|
                0 <= i < open@.len() ==> !self.preferred(
                    g@,
                    #[trigger] open@[i],
                    open@[best as int],
                    *goal,
                ),
    {
        let mut best: usize = 0;
        let mut best_f = self.f_value(g, &open[0], goal);
        let mut i: usize = 1;
        while i < open.len()
            invariant
                1 <= i <= open@.len(),
                best < i,
                best_f as int == self.f_of(g@, open@[best as int], *goal),
                forall|j: int|
                    0 <= j < i ==> !self.preferred(g@, #[trigger] open@[j], open@[best as int], *goal),
            decreases open@.len() - i,
        {
            let cand_f = self.f_value(g, &open[i], goal);
            if cand_f < best_f || (cand_f == best_f && open[i].before(&open[best])) {
                best = i;
                best_f = cand_f;
            }
            i = i + 1;
        }
        best
    }

    /// Walks the predecessor links back from the goal, then reverses the
    /// collected cells into a path from start to goal.
    #[verifier::loop_isolation(false)]
    fn reconstruct_path(
        &self,
        start: &Point,
        goal: &Point,
        g: &Vec<Option<u128>>,
        cf: &Vec<Option<Point>>,
    ) -> (r: Path)
        requires
            self.links_inv(g@, cf@, *start),
            self.in_bounds(*goal),
            self.discovered(g@, *goal),
        ensures
            self.valid_path(r.spec_steps(), *start, *goal),
            path_cost(r.spec_steps()) <= self.g_of(g@, *goal) as int,
    {
        proof {
            use_type_invariant(self);
            self.lemma_grid_props();
        }
        let mut rev: Vec<Point> = Vec::new();
        let mut current: Point = *goal;
        rev.push(current);
        let mut pred: Option<Point> = cf[self.index_of(&current)];
        while pred.is_some()
            invariant
                self.in_bounds(current),
                self.discovered(g@, current),
                pred == cf@[self.spec_ix(current)],
                rev@.len() >= 1,
                rev@[0] == *goal,
                rev@.last() == current,
                forall|k: int|
                    0 <= k < rev@.len() - 1 ==> #[trigger] self.is_neighbor(rev@[k + 1], rev@[k]),
                self.g_of(g@, current) as int + path_cost(rev@) <= self.g_of(g@, *goal) as int,
            decreases self.g_of(g@, current),
        {
            let ghost prev_cell = current;
            let prev = pred.unwrap();
            proof {
                assert(cf@[self.spec_ix(prev_cell)] is Some);
                lemma_path_cost_push(rev@, prev);
            }
            current = prev;
            rev.push(current);
            pred = cf[self.index_of(&current)];
        }
        proof {
            assert(current == *start);
        }
        let mut steps: Vec<Point> = Vec::new();
        let mut k = rev.len();
        while k > 0
            invariant
                k <= rev@.len(),
                steps@.len() == rev@.len() - k,
                forall|m: int|
                    0 <= m < steps@.len() ==> #[trigger] steps@[m] == rev@[rev@.len() - 1 - m],
                path_cost(steps@) == path_cost(rev@.skip(k as int)),
            decreases k,
        {
            k = k - 1;
            proof {
                let tail = rev@.skip(k as int);
                if steps@.len() > 0 {
                    lemma_path_cost_push(steps@, rev@[k as int]);
                    lemma_path_cost_split(tail, 1);
                    assert(tail.skip(1) =~= rev@.skip(k as int + 1));
                    assert(tail.take(2).drop_last() =~= tail.take(1));
                    assert(tail.take(1).len() == 1);
                    assert(path_cost(tail.take(1)) == 0);
                    assert(tail.take(2).len() == 2);
                    assert(tail.take(2)[0] == tail[0]);
                    assert(tail.take(2)[1] == tail[1]);
                    assert(path_cost(tail.take(2)) == step_cost(tail[0], tail[1]));
                    assert(steps@.last() == rev@[k as int + 1]);
                } else {
                    assert(rev@.skip(k as int).len() == 1);
                }
            }
            steps.push(rev[k]);
        }
        proof {
            assert(rev@.skip(0) =~= rev@);
        }
        proof {
            let s = steps@;
            let n = rev@.len();
            assert(s[0] == rev@[n - 1]);
            assert(s[s.len() - 1] == rev@[0]);
            assert forall|i: int| 0 <= i < s.len() - 1 implies #[trigger] self.is_neighbor(
                s[i],
                s[i + 1],
            ) by {
                assert(s[i] == rev@[n - 1 - i]);
                assert(s[i + 1] == rev@[n - 1 - (i + 1)]);
                assert(self.is_neighbor(rev@[(n - 2 - i) + 1], rev@[n - 2 - i]));
            }
            assert(self.tile_of(*start) == Tile::Floor);
        }
        Path::from_steps(steps)
    }

    /// Relaxes one neighbor `nb` of the cell being expanded: records a first
    /// or strictly improved cost reached through that cell, sets the
    /// predecessor link accordingly and queues `nb` if it is not queued;
    /// otherwise changes nothing.
    #[verifier::loop_isolation(false)]
    #[verifier::rlimit(100)]
    fn relax_neighbor(
        &self,
        current: &Point,
        nb: Point,
        gc: u128,
        g: &mut Vec<Option<u128>>,
        cf: &mut Vec<Option<Point>>,
        open: &mut Vec<Point>,
        Ghost(disc_in): Ghost<Set<int>>,
        start: &Point,
        goal: &Point,
    ) -> (disc_out: Ghost<Set<int>>)
        requires
            self.wf(),
            self.in_bounds(*current),
            self.in_bounds(*goal),
            self.is_neighbor(*current, nb),
            self.links_inv(old(g)@, old(cf)@, *start),
            self.open_inv(old(g)@, old(open)@, *goal),
            self.closure_except(old(g)@, old(open)@, Some(*current)),
            self.disc_inv(old(g)@, disc_in),
            old(g)@[self.spec_ix(*current)] == Some(gc),
        ensures
            self.links_inv(final(g)@, final(cf)@, *start),
            self.open_inv(final(g)@, final(open)@, *goal),
            self.closure_except(final(g)@, final(open)@, Some(*current)),
            self.disc_inv(final(g)@, disc_out@),
            final(g)@[self.spec_ix(*current)] == Some(gc),
            self.discovered(final(g)@, nb),
            self.g_of(final(g)@, nb) as int <= gc + step_cost(*current, nb),
            forall|p: Point|
                self.in_bounds(p) && #[trigger] self.discovered(old(g)@, p) ==> self.discovered(
                    final(g)@,
                    p,
                ) && self.g_of(final(g)@, p) <= self.g_of(old(g)@, p),
            ({
                let cap = 14 * (self.spec_width() * self.spec_height()) + 1;
                ||| potential(final(g)@, cap) < potential(old(g)@, cap)
                ||| (final(g)@ == old(g)@ && final(open)@ == old(open)@)
            }),
    {
        proof {
            self.lemma_grid_props();
        }
        let ghost n = self.spec_width() * self.spec_height();
        let ghost cap: int = 14 * n + 1;
        let ghost mut disc = disc_in;
        proof {
            lemma_int_range(0, n);
            lemma_len_subset(disc, set_int_range(0, n));
            assert(self.discovered(g@, *current));
            assert(self.g_of(g@, *current) == gc);
            assert(gc as int <= 14 * disc.len());
            assert(disc.len() <= n);
        }
        let ni = self.index_of(&nb);
        let sc = step_cost_exec(current, &nb);
        let cand = gc + sc;
        let gn = g[ni];
        match gn {
            None => {
                let ghost gpre = g@;
                let ghost openpre = open@;
                let ghost cfpre = cf@;
                proof {
                    assert(nb != *start);
                    if openpre.contains(nb) {
                        let k = choose|k: int| 0 <= k < openpre.len() && openpre[k] == nb;
                        assert(self.discovered(gpre, openpre[k]));
                        assert(false);
                    }
                }
                g[ni] = Some(cand);
                cf[ni] = Some(*current);
                open.push(nb);
                proof {
                    let dpre = disc;
                    disc = disc.insert(ni as int);
                    self.lemma_relax_links(gpre, cfpre, *start, *current, nb, cand);
                    lemma_push_contains(openpre, nb);
                    self.lemma_relax_closure(gpre, openpre, open@, *current, nb, cand);
                    lemma_potential_update(gpre, ni as int, Some(cand), cap);
                    assert(!dpre.contains(ni as int));
                    assert(disc.len() == dpre.len() + 1);
                    assert forall|i: int| disc.contains(i) implies set_int_range(0, n).contains(
                        i,
                    ) by {
                        if i != ni as int {
                            assert(dpre.contains(i));
                        }
                    }
                    lemma_len_subset(disc, set_int_range(0, n));
                    assert forall|i: int| 0 <= i < n implies (disc.contains(i) <==> g@[i] is Some) by {
                        if i != ni as int {
                            assert(g@[i] == gpre[i]);
                        }
                    }
                    assert forall|p: Point|
                        self.in_bounds(p) && #[trigger] self.discovered(g@, p) implies self.g_of(
                        g@,
                        p,
                    ) as int <= 14 * disc.len() by {
                        if self.spec_ix(p) == ni as int {
                            assert(p == nb);
                            assert(self.g_of(g@, p) == cand);
                        } else {
                            assert(self.discovered(gpre, p));
                            assert(self.g_of(g@, p) == self.g_of(gpre, p));
                        }
                    }
                }
            },
            Some(old_g) => {
                if cand < old_g {
                    proof {
                        assert(nb != *start);
                    }
                    let ghost gpre = g@;
                    let ghost cfpre = cf@;
                    let ghost open0 = open@;
                    g[ni] = Some(cand);
                    cf[ni] = Some(*current);
                    proof {
                        self.lemma_relax_links(gpre, cfpre, *start, *current, nb, cand);
                        lemma_potential_update(gpre, ni as int, Some(cand), cap);
                        assert(self.discovered(gpre, nb));
                        assert(self.g_of(gpre, nb) == old_g);
                        assert forall|i: int|
                            0 <= i < n implies (disc.contains(i) <==> g@[i] is Some) by {
                            if i != ni as int {
                                assert(g@[i] == gpre[i]);
                            }
                        }
                        assert forall|p: Point|
                            self.in_bounds(p) && #[trigger] self.discovered(g@, p) implies self.g_of(
                            g@,
                            p,
                        ) as int <= 14 * disc.len() by {
                            if self.spec_ix(p) == ni as int {
                                assert(p == nb);
                                assert(self.g_of(g@, p) == cand);
                            } else {
                                assert(self.discovered(gpre, p));
                                assert(self.g_of(g@, p) == self.g_of(gpre, p));
                            }
                        }
                    }
                    if !vec_contains(&open, &nb) {
                        let ghost openpre = open@;
                        open.push(nb);
                        proof {
                            lemma_push_contains(openpre, nb);
                        }
                    }
                    proof {
                        self.lemma_relax_closure(gpre, open0, open@, *current, nb, cand);
                    }
                }
            },
        }
        Ghost(disc)
    }

    /// Expands one dequeued cell: relaxes every neighbor, recording a first
    /// or strictly improved cost together with its predecessor link and
    /// (re)queueing the neighbor. Restores the full closure property, and
    /// either strictly lowers the termination potential or leaves the
    /// g-scores and the open set exactly as they were.
    #[verifier::loop_isolation(false)]
    #[verifier::rlimit(100)]
    fn expand_current(
        &self,
        current: &Point,
        g: &mut Vec<Option<u128>>,
        cf: &mut Vec<Option<Point>>,
        open: &mut Vec<Point>,
        Ghost(disc_in): Ghost<Set<int>>,
        start: &Point,
        goal: &Point,
    ) -> (disc_out: Ghost<Set<int>>)
        requires
            self.wf(),
            self.in_bounds(*current),
            self.in_bounds(*goal),
            self.discovered(old(g)@, *current),
            self.links_inv(old(g)@, old(cf)@, *start),
            self.open_inv(old(g)@, old(open)@, *goal),
            self.closure_except(old(g)@, old(open)@, Some(*current)),
            self.disc_inv(old(g)@, disc_in),
            *current != *goal,
        ensures
            self.links_inv(final(g)@, final(cf)@, *start),
            self.open_inv(final(g)@, final(open)@, *goal),
            self.closure_except(final(g)@, final(open)@, None),
            self.disc_inv(final(g)@, disc_out@),
            ({
                let cap = 14 * (self.spec_width() * self.spec_height()) + 1;
                ||| potential(final(g)@, cap) < potential(old(g)@, cap)
                ||| (final(g)@ == old(g)@ && final(open)@ == old(open)@)
            }),
    {
        proof {
            self.lemma_grid_props();
        }
        let ghost n = self.spec_width() * self.spec_height();
        let ghost cap: int = 14 * n + 1;
        let ghost mut disc = disc_in;
        let ghost g_in = g@;
        let ghost open_in = open@;
        let ci = self.index_of(current);
        let gc = g[ci].unwrap();
        let neighbours = self.get_neighbours(current);
        let mut j: usize = 0;
        while j < neighbours.len()
            invariant
                j <= neighbours@.len(),
                self.links_inv(g@, cf@, *start),
                self.open_inv(g@, open@, *goal),
                self.closure_except(g@, open@, Some(*current)),
                self.disc_inv(g@, disc),
                g@[self.spec_ix(*current)] == Some(gc),
                forall|jj: int|
                    0 <= jj < j ==> self.discovered(g@, #[trigger] neighbours@[jj]) && self.g_of(
                        g@,
                        neighbours@[jj],
                    ) as int <= gc + step_cost(*current, neighbours@[jj]),
                potential(g@, cap) < potential(g_in, cap) || (g@ == g_in && open@ == open_in),
            decreases neighbours@.len() - j,
        {
            let nb = neighbours[j];
            proof {
                assert(self.is_neighbor(*current, nb));
            }
            let ghost gpre = g@;
            let disc_step = self.relax_neighbor(
                current,
                nb,
                gc,
                g,
                cf,
                open,
                Ghost(disc),
                start,
                goal,
            );
            proof {
                disc = disc_step@;
                if potential(gpre, cap) < potential(g_in, cap) {
                    lemma_potential_nonneg(g@, cap);
                }
            }
            j = j + 1;
        }
        proof {
            assert forall|p: Point, q: Point|
                self.in_bounds(p) && #[trigger] self.discovered(g@, p) && !open@.contains(p)
                    && #[trigger] self.is_neighbor(p, q) implies self.discovered(g@, q)
                && self.g_of(g@, q) as int <= self.g_of(g@, p) + step_cost(p, q) by {
                if p == *current {
                    assert(neighbours@.contains(q));
                    let k = choose|k: int| 0 <= k < neighbours@.len() && neighbours@[k] == q;
                    assert(self.discovered(g@, neighbours@[k]));
                    assert(self.g_of(g@, neighbours@[k]) as int <= gc + step_cost(
                        *current,
                        neighbours@[k],
                    ));
                    assert(self.g_of(g@, p) == gc);
                }
            }
        }
        Ghost(disc)
    }

    /// Finds a route from `start` to `goal` across this grid with a
    /// best-first search, or reports that none exists.
    ///
    /// Returns a path exactly when some valid path exists: the result is
    /// `None` precisely for a blocked start, a blocked goal, or endpoints in
    /// separate passable regions. A returned path begins at `start`, ends at
    /// `goal`, and moves only between neighbor pairs.
    #[verifier::loop_isolation(false)]
    #[verifier::rlimit(100)]
    pub fn find_path(&self, start: &Point, goal: &Point) -> (r: Option<Path>)
        requires
            self.in_bounds(*start),
            self.in_bounds(*goal),
        ensures
            (r is Some) <==> (exists|s: Seq<Point>| self.valid_path(s, *start, *goal)),
            self.tile_of(*start) == Tile::Wall || self.tile_of(*goal) == Tile::Wall ==> r is None,
            r matches Some(p) ==> self.valid_path(p.spec_steps(), *start, *goal),
            r matches Some(p) ==> forall|s: Seq<Point>|
                self.valid_path(s, *start, *goal) ==> path_cost(p.spec_steps()) <= path_cost(s),
    {
        proof {
            use_type_invariant(self);
            self.lemma_grid_props();
        }
        if self.get_tile(start) == Tile::Wall || self.get_tile(goal) == Tile::Wall {
            proof {
                self.lemma_blocked_no_path(*start, *goal);
            }
            return None;
        }
        let n = self.width() * self.height();
        let ghost cap: int = 14 * (n as int) + 1;
        let mut g: Vec<Option<u128>> = none_vec(n);
        let mut cf: Vec<Option<Point>> = none_vec(n);
        let si = self.index_of(start);
        g[si] = Some(0u128);
        let mut open: Vec<Point> = Vec::new();
        open.push(*start);
        let ghost mut disc: Set<int> = Set::empty().insert(si as int);
        proof {
            lemma_int_range(0, n as int);
            assert(open@.contains(*start)) by { assert(open@[0] == *start); }
            assert(self.search_inv(g@, cf@, open@, disc, *start, *goal));
        }
        while open.len() > 0
            invariant
                self.search_inv(g@, cf@, open@, disc, *start, *goal),
            decreases potential(g@, cap), open@.len(),
        {
            proof {
                lemma_int_range(0, n as int);
                lemma_len_subset(disc, set_int_range(0, n as int));
                lemma_potential_nonneg(g@, cap);
            }
            let ghost g0 = g@;
            let ghost open0 = open@;
            let best = self.select_best(&open, &g, goal);
            let ghost pre_swap = open@;
            let current = open.swap_remove(best);
            proof {
                lemma_swap_remove_distinct(pre_swap, best as int);
            }
            if current == *goal {
                let p = self.reconstruct_path(start, goal, &g, &cf);
                proof {
                    assert(self.valid_path(p.spec_steps(), *start, *goal));
                    assert forall|s: Seq<Point>|
                        self.valid_path(s, *start, *goal) implies path_cost(p.spec_steps())
                        <= path_cost(s) by {
                        self.lemma_goal_cost_minimal(g@, pre_swap, best as int, s, *start, *goal);
                    }
                }
                return Some(p);
            }
            let disc_out = self.expand_current(
                &current,
                &mut g,
                &mut cf,
                &mut open,
                Ghost(disc),
                start,
                goal,
            );
            proof {
                disc = disc_out@;
                lemma_potential_nonneg(g@, cap);
            }
        }
        proof {
            assert forall|s: Seq<Point>|
                #![trigger self.valid_path(s, *start, *goal)]
                !self.valid_path(s, *start, *goal) by {
                if self.valid_path(s, *start, *goal) {
                    assert forall|p: Point, q: Point|
                        self.in_bounds(p) && #[trigger] self.discovered(g@, p)
                            && #[trigger] self.is_neighbor(p, q) implies self.discovered(
                        g@,
                        q,
                    ) by {
                        assert(!open@.contains(p));
                    }
                    self.lemma_chain_discovered(g@, s, s.len() - 1);
                    assert(self.discovered(g@, *goal));
                    assert(open@.contains(*goal));
                    assert(false);
                }
            }
        }
        None
    }

    /// Finds a route between two cells, reporting `OutOfBounds` for a start
    /// or goal coordinate outside the grid instead of requiring callers to
    /// check first.
    pub fn try_find_path(&self, start: &Point, goal: &Point) -> (r: Result<
        Option<Path>,
        crate::field::FieldError,
    >)
        ensures
            r is Ok <==> self.in_bounds(*start) && self.in_bounds(*goal),
            r matches Ok(o) ==> {
                &&& (o is Some) <==> (exists|s: Seq<Point>| self.valid_path(s, *start, *goal))
                &&& (self.tile_of(*start) == Tile::Wall || self.tile_of(*goal) == Tile::Wall)
                    ==> o is None
                &&& o matches Some(p) ==> self.valid_path(p.spec_steps(), *start, *goal)
                &&& o matches Some(p) ==> forall|s: Seq<Point>|
                    self.valid_path(s, *start, *goal) ==> path_cost(p.spec_steps()) <= path_cost(s)
            },
            r matches Err(e) ==> e == crate::field::FieldError::OutOfBounds,
    {
        let w = self.width();
        let h = self.height();
        if start.x < w && start.y < h && goal.x < w && goal.y < h {
            Ok(self.find_path(start, goal))
        } else {
            Err(crate::field::FieldError::OutOfBounds)
        }
    }

    /// Two paths that are each no costlier than every valid path between the
    /// same endpoints — as any two results of the search for the same grid,
    /// start and goal are — have equal total cost.
    pub proof fn lemma_minimal_costs_agree(
        self,
        a: Seq<Point>,
        b: Seq<Point>,
        start: Point,
        goal: Point,
    )
        requires
            self.valid_path(a, start, goal),
            self.valid_path(b, start, goal),
            forall|s: Seq<Point>| self.valid_path(s, start, goal) ==> path_cost(a) <= path_cost(s),
            forall|s: Seq<Point>| self.valid_path(s, start, goal) ==> path_cost(b) <= path_cost(s),
        ensures
            path_cost(a) == path_cost(b),
    {
    }
}

} // verus!
