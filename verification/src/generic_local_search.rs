use vstd::prelude::*;

use crate::framework::{Neighborhood, OptimizationProblem, order_is_specified, strictly_below, first_improving, is_first_improving, none_improving};

verus! {

/// The outcome of a local search: the final solution and its score, the
/// number of rounds performed, and each accepted solution in turn.
#[derive(Debug)]
pub struct GenericLocalSearchResult<S, Sc> {
    pub solution: S,
    pub score: Sc,
    pub iterations: usize,
    pub history: Vec<S>,
}

impl<S: Clone, Sc: Clone> Clone for GenericLocalSearchResult<S, Sc> {
    fn clone(&self) -> Self {
        GenericLocalSearchResult {
            solution: self.solution.clone(),
            score: self.score.clone(),
            iterations: self.iterations,
            history: self.history.clone(),
        }
    }
}

/// `to` is the first of `list` that scores strictly below `from`.
pub open spec fn takes_first_improving<P: OptimizationProblem>(
    problem: P,
    list: Seq<P::Solution>,
    from: P::Solution,
    to: P::Solution,
) -> bool {
    exists|i: int| #[trigger] is_first_improving(problem, list, problem.spec_evaluate(from), i) && list[i] == to
}

/// The rounds of a search: `lists[k]` is what the neighbourhood proposed for
/// `history[k]`, one list per round; each accepted solution is the first
/// proposal of its round that scores strictly below the one before; where
/// the search stopped early (as many rounds as solutions), nothing the last
/// round proposed scores below the final solution.
pub open spec fn is_first_improvement_run<P: OptimizationProblem, N: Neighborhood<P>>(
    problem: P,
    neighborhood: N,
    history: Seq<P::Solution>,
    lists: Seq<Seq<P::Solution>>,
    iterations: int,
) -> bool {
    &&& lists.len() == iterations
    &&& forall|k: int| 0 <= k < lists.len() ==> neighborhood.may_propose(problem, history[k], #[trigger] lists[k])
    &&& forall|k: int, i: int|
        0 <= k < lists.len() && 0 <= i < lists[k].len() ==> neighborhood.is_neighbor(problem, history[k], #[trigger] lists[k][i])
            && problem.admissible(lists[k][i])
    &&& order_is_specified::<P::Score>() ==> forall|k: int|
        0 <= k < history.len() - 1 ==> takes_first_improving(problem, #[trigger] lists[k], history[k], history[k + 1])
    &&& (order_is_specified::<P::Score>() && history.len() == iterations && iterations > 0) ==> none_improving(
        problem,
        lists[iterations - 1],
        problem.spec_evaluate(history[iterations - 1]),
    )
}

/// First-improvement local search: in each round the neighbours of the
/// current solution are tried in order and the first with a strictly smaller
/// score is taken; the search stops after a round without improvement or
/// after `max_iterations` rounds.
pub fn run_generic_local_search<P, N>(
    problem: &P,
    neighborhood: &N,
    start_solution: P::Solution,
    max_iterations: usize,
) -> (r: GenericLocalSearchResult<P::Solution, P::Score>) where
    P: OptimizationProblem,
    N: Neighborhood<P>,
    requires
        problem.admissible(start_solution),
        forall|s: P::Solution| problem.admissible(s) ==> #[trigger] neighborhood.can_propose(*problem, s),
    ensures
        r.history@.len() >= 1,
        r.history@[0] == start_solution,
        forall|k: int| 0 <= k < r.history@.len() ==> problem.admissible(#[trigger] r.history@[k]),
        forall|k: int|
            0 <= k < r.history@.len() - 1 ==> neighborhood.is_neighbor(*problem, #[trigger] r.history@[k], r.history@[k + 1]),
        order_is_specified::<P::Score>() ==> forall|k: int|
            0 <= k < r.history@.len() - 1 ==> strictly_below(
                problem.spec_evaluate(r.history@[k + 1]),
                problem.spec_evaluate(#[trigger] r.history@[k]),
            ),
        exists|lists: Seq<Seq<P::Solution>>|
            #[trigger] is_first_improvement_run(*problem, *neighborhood, r.history@, lists, r.iterations as int),
        r.score == problem.spec_evaluate(r.history@.last()),
        vstd::pervasive::cloned(r.history@.last(), r.solution),
        r.iterations <= max_iterations,
        (r.iterations == max_iterations && r.history@.len() == r.iterations + 1) || r.history@.len() == r.iterations,
{
    let mut current_score = problem.evaluate(&start_solution);
    let mut history: Vec<P::Solution> = Vec::new();
    history.push(start_solution);
    let mut iterations: usize = 0;
    let ghost mut lists: Seq<Seq<P::Solution>> = Seq::empty();
    loop
        invariant_except_break
            history@.len() == iterations + 1,
            iterations <= max_iterations,
        invariant
            history@.len() >= 1,
            history@[0] == start_solution,
            forall|k: int| 0 <= k < history@.len() ==> problem.admissible(#[trigger] history@[k]),
            forall|k: int|
                0 <= k < history@.len() - 1 ==> neighborhood.is_neighbor(*problem, #[trigger] history@[k], history@[k + 1]),
            order_is_specified::<P::Score>() ==> forall|k: int|
                0 <= k < history@.len() - 1 ==> strictly_below(
                    problem.spec_evaluate(history@[k + 1]),
                    problem.spec_evaluate(#[trigger] history@[k]),
                ),
            current_score == problem.spec_evaluate(history@.last()),
            forall|s: P::Solution| problem.admissible(s) ==> #[trigger] neighborhood.can_propose(*problem, s),
            is_first_improvement_run(*problem, *neighborhood, history@, lists, iterations as int),
        ensures
            iterations <= max_iterations,
            (iterations == max_iterations && history@.len() == iterations + 1) || history@.len() == iterations,
        decreases max_iterations - iterations,
    {
        if iterations >= max_iterations {
            break;
        }
        let last = history.len() - 1;
        let candidates = neighborhood.neighbors(problem, &history[last]);
        let ghost current = history@[last as int];
        let ghost before = history@;
        let ghost before_lists = lists;
        let ghost list = candidates@;
        proof {
            lists = lists.push(list);
        }
        let found = first_improving(problem, candidates, &current_score);
        iterations += 1;
        match found {
            None => {
                proof {
                    assert(history@ == before);
                    assert(lists[iterations - 1] == list);
                    assert(lists.drop_last() == before_lists);
                    assert forall|k: int| 0 <= k < lists.len() implies neighborhood.may_propose(
                        *problem,
                        history@[k],
                        #[trigger] lists[k],
                    ) by {
                        if k < before_lists.len() {
                            assert(lists[k] == before_lists[k]);
                        }
                    }
                    assert forall|k: int, j: int|
                        0 <= k < lists.len() && 0 <= j < lists[k].len() implies neighborhood.is_neighbor(
                        *problem,
                        history@[k],
                        #[trigger] lists[k][j],
                    ) && problem.admissible(lists[k][j]) by {
                        if k < before_lists.len() {
                            assert(lists[k] == before_lists[k]);
                        }
                    }
                    if order_is_specified::<P::Score>() {
                        assert forall|k: int| 0 <= k < history@.len() - 1 implies takes_first_improving(
                            *problem,
                            #[trigger] lists[k],
                            history@[k],
                            history@[k + 1],
                        ) by {
                            assert(lists[k] == before_lists[k]);
                        }
                        assert(none_improving(*problem, list, current_score));
                        assert(history@[iterations - 1] == current);
                        assert(current_score == problem.spec_evaluate(current));
                    }
                    assert(lists.len() == iterations);
                }
                break;
            },
            Some((candidate, candidate_score)) => {
                history.push(candidate);
                current_score = candidate_score;
                proof {
                    let i = choose|i: int|
                        0 <= i < list.len() && #[trigger] list[i] == candidate && (order_is_specified::<P::Score>()
                            ==> is_first_improving(*problem, list, problem.spec_evaluate(current), i));
                    assert(history@.drop_last() == before);
                    assert(history@.last() == list[i]);
                    assert(lists.drop_last() == before_lists);
                    assert forall|k: int| 0 <= k < history@.len() - 1 implies neighborhood.is_neighbor(
                        *problem,
                        #[trigger] history@[k],
                        history@[k + 1],
                    ) by {
                        if k < history@.len() - 2 {
                            assert(history@[k] == before[k] && history@[k + 1] == before[k + 1]);
                        } else {
                            assert(history@[k] == before.last());
                        }
                    }
                    assert forall|k: int| 0 <= k < history@.len() implies problem.admissible(#[trigger] history@[k]) by {
                        if k < history@.len() - 1 {
                            assert(history@[k] == before[k]);
                        }
                    }
                    if order_is_specified::<P::Score>() {
                        assert forall|k: int| 0 <= k < history@.len() - 1 implies strictly_below(
                            problem.spec_evaluate(history@[k + 1]),
                            problem.spec_evaluate(#[trigger] history@[k]),
                        ) by {
                            if k < history@.len() - 2 {
                                assert(history@[k] == before[k] && history@[k + 1] == before[k + 1]);
                            } else {
                                assert(history@[k] == before.last());
                                assert(is_first_improving(*problem, list, problem.spec_evaluate(current), i));
                            }
                        }
                    }
                    assert(is_first_improvement_run(*problem, *neighborhood, history@, lists, iterations as int)) by {
                        assert forall|k: int| 0 <= k < lists.len() implies neighborhood.may_propose(
                            *problem,
                            history@[k],
                            #[trigger] lists[k],
                        ) by {
                            if k < before_lists.len() {
                                assert(history@[k] == before[k]);
                            }
                        }
                        assert forall|k: int, j: int|
                            0 <= k < lists.len() && 0 <= j < lists[k].len() implies neighborhood.is_neighbor(
                            *problem,
                            history@[k],
                            #[trigger] lists[k][j],
                        ) && problem.admissible(lists[k][j]) by {
                            if k < before_lists.len() {
                                assert(history@[k] == before[k]);
                            }
                        }
                        if order_is_specified::<P::Score>() {
                            assert forall|k: int| 0 <= k < history@.len() - 1 implies takes_first_improving(
                                *problem,
                                #[trigger] lists[k],
                                history@[k],
                                history@[k + 1],
                            ) by {
                                if k < history@.len() - 2 {
                                    assert(history@[k] == before[k] && history@[k + 1] == before[k + 1]);
                                    assert(lists[k] == before_lists[k]);
                                } else {
                                    assert(history@[k] == current);
                                    assert(lists[k] == list);
                                    assert(is_first_improving(*problem, lists[k], problem.spec_evaluate(history@[k]), i));
                                }
                            }
                        }
                    }
                }
            },
        }
    }
    let last = history.len() - 1;
    let solution = history[last].clone();
    let r = GenericLocalSearchResult { solution, score: current_score, iterations, history };
    proof {
        assert(is_first_improvement_run(*problem, *neighborhood, r.history@, lists, r.iterations as int));
    }
    r
}

} // verus!
