use vstd::prelude::*;

use crate::point::Point;

verus! {

/// The immutable result of a successful search: the ordered sequence of cells
/// from the start to the goal, both inclusive.
pub struct Path {
    start: Point,
    goal: Point,
    steps: Vec<Point>,
}

impl Path {
    /// The cached endpoints agree with the step sequence.
    #[verifier::type_invariant]
    spec fn wf(self) -> bool {
        &&& self.steps@.len() >= 1
        &&& self.start == self.steps@[0]
        &&& self.goal == self.steps@.last()
    }

    /// The ordered cell sequence this path consists of.
    pub closed spec fn spec_steps(self) -> Seq<Point> {
        self.steps@
    }

    pub(crate) fn from_steps(steps: Vec<Point>) -> (r: Path)
        requires
            steps@.len() >= 1,
        ensures
            r.spec_steps() == steps@,
    {
        let first = steps[0];
        let last = steps[steps.len() - 1];
        Path { start: first, goal: last, steps }
    }

    /// The first cell of the path.
    pub fn start(&self) -> (r: &Point)
        ensures
            *r == self.spec_steps()[0],
    {
        proof {
            use_type_invariant(self);
        }
        &self.start
    }

    /// The last cell of the path.
    pub fn goal(&self) -> (r: &Point)
        ensures
            *r == self.spec_steps().last(),
    {
        proof {
            use_type_invariant(self);
        }
        &self.goal
    }

    /// All cells of the path, in order from start to goal.
    pub fn steps(&self) -> (r: &Vec<Point>)
        ensures
            r@ == self.spec_steps(),
            r@.len() >= 1,
    {
        proof {
            use_type_invariant(self);
        }
        &self.steps
    }
}

} // verus!
