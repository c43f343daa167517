use vstd::prelude::*;

use crate::framework::GreedyProblem;

verus! {

/// Takes the problem's items, sorts them by `strategy` and builds a solution
/// from them in that order.
pub fn run_generic_greedy<P>(problem: &P, strategy: &P::Strategy) -> (r: P::Solution) where
    P: GreedyProblem,
    requires
        problem.sortable(problem.spec_items()),
    ensures
        exists|sorted: Seq<P::Item>|
            problem.sorted_by_strategy(*strategy, sorted, problem.spec_items()) && #[trigger] problem.builds(
                sorted,
                r,
            ),
{
    let mut items = problem.items();
    problem.sort_items(&mut items, strategy);
    let r = problem.build_solution(items.as_slice());
    proof {
        assert(problem.builds(items@, r));
    }
    r
}

} // verus!
