use vstd::prelude::*;

use crate::evaluator::{Score, evaluate, evaluation_in_range, spec_evaluate};
use crate::framework::{GreedyProblem, OptimizationProblem};
use crate::greedy::{GreedyStrategy, PackingSolution, is_packing_of, pack_rectangles, packed_view, strategy_order};
use crate::instance::Instance;
use crate::rect_order::{RectOrder, areas_in_range, is_stable_sort_of, sort_rectangles};
use crate::rectangle::Rectangle;

verus! {

/// Bin packing of an instance, seen both as a scored problem over packings
/// and as a greedy problem over the instance's rectangles.
#[derive(Debug)]
pub struct PackingProblem {
    pub instance: Instance,
}

impl Clone for PackingProblem {
    fn clone(&self) -> (r: Self)
        ensures
            r.instance.rectangles@ == self.instance.rectangles@,
            r.instance.box_size == self.instance.box_size,
    {
        PackingProblem { instance: self.instance.clone() }
    }
}

impl OptimizationProblem for PackingProblem {
    type Solution = PackingSolution;

    type Score = Score;

    open spec fn admissible(&self, solution: PackingSolution) -> bool {
        evaluation_in_range(solution, self.instance.box_size)
    }

    open spec fn spec_evaluate(&self, solution: PackingSolution) -> Score {
        spec_evaluate(solution, self.instance.box_size)
    }

    fn evaluate(&self, solution: &PackingSolution) -> (r: Score) {
        evaluate(solution, self.instance.box_size)
    }
}

impl GreedyProblem for PackingProblem {
    type Item = Rectangle;

    type Strategy = GreedyStrategy;

    type Solution = PackingSolution;

    open spec fn spec_items(&self) -> Seq<Rectangle> {
        self.instance.rectangles@
    }

    open spec fn sortable(&self, items: Seq<Rectangle>) -> bool {
        areas_in_range(items)
    }

    open spec fn sorted_by_strategy(&self, strategy: GreedyStrategy, out: Seq<Rectangle>, input: Seq<Rectangle>) -> bool {
        is_stable_sort_of(strategy_order(strategy), out, input)
    }

    open spec fn builds(&self, items: Seq<Rectangle>, solution: PackingSolution) -> bool {
        &&& solution@ == packed_view(self.instance.box_size, items)
        &&& is_packing_of(items, self.instance.box_size, solution)
    }

    fn items(&self) -> (r: Vec<Rectangle>) {
        let r = self.instance.rectangles.clone();
        proof {
            assert(r@ =~= self.instance.rectangles@);
        }
        r
    }

    fn sort_items(&self, items: &mut Vec<Rectangle>, strategy: &GreedyStrategy) {
        match strategy {
            GreedyStrategy::AreaDescending => sort_rectangles(items, RectOrder::AreaDescending),
            GreedyStrategy::MaxSideDescending => sort_rectangles(items, RectOrder::MaxSideThenAreaDescending),
        }
    }

    fn build_solution(&self, items: &[Rectangle]) -> (r: PackingSolution) {
        pack_rectangles(&self.instance, items)
    }
}

} // verus!
