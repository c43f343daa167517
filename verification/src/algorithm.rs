use vstd::prelude::*;

use crate::evaluator::{Score, evaluation_in_range, spec_evaluate};
use crate::greedy::PackingSolution;
use crate::instance::Instance;

verus! {

/// A named packing method.
pub trait PackingAlgorithm {
    /// The method's name.
    spec fn spec_name(&self) -> Seq<char>;

    /// The instances the method accepts.
    spec fn runnable(&self, instance: Instance) -> bool;

    /// `solution` is a packing that the method may produce for `instance`.
    spec fn produces(&self, instance: Instance, solution: PackingSolution) -> bool;

    /// The method's name.
    fn name(&self) -> (r: &str)
        ensures
            r@ == self.spec_name(),
    ;

    /// Packs the instance.
    fn run(&self, instance: &Instance) -> (r: PackingSolution)
        requires
            self.runnable(*instance),
        ensures
            self.produces(*instance, r),
    ;

    /// Scores a packing (see `evaluator::evaluate`).
    fn evaluate(&self, solution: &PackingSolution, box_size: u32) -> (r: Score)
        requires
            evaluation_in_range(*solution, box_size),
        ensures
            r == spec_evaluate(*solution, box_size),
    {
        crate::evaluator::evaluate(solution, box_size)
    }
}

} // verus!
