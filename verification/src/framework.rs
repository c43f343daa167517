use vstd::prelude::*;
use vstd::std_specs::cmp::PartialOrdSpec;

verus! {

/// The type's `<` agrees with its specification of `partial_cmp`.
pub open spec fn order_is_specified<T: PartialOrd>() -> bool {
    T::obeys_partial_cmp_spec()
}

/// `a` is strictly smaller than `b` by the type's specification of
/// `partial_cmp`.
pub open spec fn strictly_below<T: PartialOrd>(a: T, b: T) -> bool {
    a.partial_cmp_spec(&b) == Some(core::cmp::Ordering::Less)
}

/// A problem whose solutions are scored; smaller scores are better.
pub trait OptimizationProblem {
    type Solution: Clone;

    type Score: Ord + Clone;

    /// The solutions that `evaluate` accepts.
    spec fn admissible(&self, solution: Self::Solution) -> bool;

    /// The score of an admissible solution.
    spec fn spec_evaluate(&self, solution: Self::Solution) -> Self::Score;

    /// Scores a solution.
    fn evaluate(&self, solution: &Self::Solution) -> (r: Self::Score)
        requires
            self.admissible(*solution),
        ensures
            r == self.spec_evaluate(*solution),
    ;
}

/// A problem solved by sorting its items and building a solution from them in
/// that order.
pub trait GreedyProblem {
    type Item: Clone;

    type Strategy;

    type Solution: Clone;

    /// The items of the problem.
    spec fn spec_items(&self) -> Seq<Self::Item>;

    /// The items that `sort_items` accepts.
    spec fn sortable(&self, items: Seq<Self::Item>) -> bool;

    /// `out` is `input` arranged as `strategy` orders it.
    spec fn sorted_by_strategy(&self, strategy: Self::Strategy, out: Seq<Self::Item>, input: Seq<Self::Item>) -> bool;

    /// `solution` is what building from `items`, in that order, gives.
    spec fn builds(&self, items: Seq<Self::Item>, solution: Self::Solution) -> bool;

    /// The items, in the order the problem holds them.
    fn items(&self) -> (r: Vec<Self::Item>)
        ensures
            r@ == self.spec_items(),
    ;

    /// Arranges the items as `strategy` orders them.
    fn sort_items(&self, items: &mut Vec<Self::Item>, strategy: &Self::Strategy)
        requires
            self.sortable(old(items)@),
        ensures
            self.sorted_by_strategy(*strategy, final(items)@, old(items)@),
    ;

    /// Builds a solution from the items, taken in the given order.
    fn build_solution(&self, items: &[Self::Item]) -> (r: Self::Solution)
        ensures
            self.builds(items@, r),
    ;
}

/// A way to propose solutions near a given one.
pub trait Neighborhood<P: OptimizationProblem> {
    /// `to` is one of the solutions that may be proposed near `from`.
    spec fn is_neighbor(&self, problem: P, from: P::Solution, to: P::Solution) -> bool;

    /// `list` is one of the lists that `neighbors` may return for `from`.
    spec fn may_propose(&self, problem: P, from: P::Solution, list: Seq<P::Solution>) -> bool;

    /// The solutions that `neighbors` accepts.
    spec fn can_propose(&self, problem: P, solution: P::Solution) -> bool;

    /// Proposes solutions near `solution`; from an admissible solution, only
    /// admissible ones.
    fn neighbors(&self, problem: &P, solution: &P::Solution) -> (r: Vec<P::Solution>)
        requires
            self.can_propose(*problem, *solution),
        ensures
            forall|i: int|
                0 <= i < r@.len() ==> self.is_neighbor(*problem, *solution, #[trigger] r@[i]) && (problem.admissible(
                    *solution,
                ) ==> problem.admissible(r@[i])),
            self.may_propose(*problem, *solution, r@),
    ;
}

/// `c` scores strictly below `score`.
pub open spec fn improves<P: OptimizationProblem>(problem: P, c: P::Solution, score: P::Score) -> bool {
    strictly_below(problem.spec_evaluate(c), score)
}

/// `list[i]` is the first of `list` that scores strictly below `score`.
pub open spec fn is_first_improving<P: OptimizationProblem>(
    problem: P,
    list: Seq<P::Solution>,
    score: P::Score,
    i: int,
) -> bool {
    &&& 0 <= i < list.len()
    &&& improves(problem, list[i], score)
    &&& forall|j: int| 0 <= j < i ==> !improves(problem, #[trigger] list[j], score)
}

/// No solution of `list` scores strictly below `score`.
pub open spec fn none_improving<P: OptimizationProblem>(problem: P, list: Seq<P::Solution>, score: P::Score) -> bool {
    forall|j: int| 0 <= j < list.len() ==> !improves(problem, #[trigger] list[j], score)
}

/// The first of `candidates` that scores strictly below `current_score`,
/// with its score; `None` where none does.
pub fn first_improving<P: OptimizationProblem>(
    problem: &P,
    candidates: Vec<P::Solution>,
    current_score: &P::Score,
) -> (r: Option<(P::Solution, P::Score)>)
    requires
        forall|i: int| 0 <= i < candidates@.len() ==> problem.admissible(#[trigger] candidates@[i]),
    ensures
        r matches Some(p) ==> p.1 == problem.spec_evaluate(p.0) && exists|i: int|
            0 <= i < candidates@.len() && #[trigger] candidates@[i] == p.0 && (order_is_specified::<P::Score>()
                ==> is_first_improving(*problem, candidates@, *current_score, i)),
        order_is_specified::<P::Score>() ==> (r is None <==> none_improving(*problem, candidates@, *current_score)),
{
    let ghost all = candidates@;
    let n = candidates.len();
    let mut rest = candidates;
    let mut k: usize = 0;
    while k < n
        invariant
            all == candidates@,
            n == all.len(),
            k <= n,
            k + rest@.len() == all.len(),
            rest@ == all.skip(k as int),
            forall|i: int| 0 <= i < all.len() ==> problem.admissible(#[trigger] all[i]),
            order_is_specified::<P::Score>() ==> forall|j: int| 0 <= j < k ==> !improves(*problem, #[trigger] all[j], *current_score),
        decreases n - k,
    {
        let candidate = rest.remove(0);
        proof {
            assert(candidate == all[k as int]);
            assert(all.skip(k + 1) =~= all.skip(k as int).drop_first());
        }
        let candidate_score = problem.evaluate(&candidate);
        if candidate_score < *current_score {
            proof {
                if order_is_specified::<P::Score>() {
                    assert(is_first_improving(*problem, all, *current_score, k as int));
                    assert(improves(*problem, all[k as int], *current_score));
                    assert(!none_improving(*problem, all, *current_score));
                }
            }
            return Some((candidate, candidate_score));
        }
        k += 1;
    }
    None
}

} // verus!
