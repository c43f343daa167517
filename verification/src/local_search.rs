use vstd::prelude::*;

use crate::evaluator::{Score, score_packing, view_score, spec_evaluate};
use crate::framework::{Neighborhood, OptimizationProblem, order_is_specified, strictly_below, improves, is_first_improving, none_improving};
use crate::generic_local_search::{run_generic_local_search, GenericLocalSearchResult, is_first_improvement_run, takes_first_improving};
use crate::greedy::{PackingSolution, pack_rectangles, packed_view, is_packing_of, lemma_packing_perm};
use crate::instance::Instance;
use crate::random::{thread_rng, gen_index, gen_ratio};
use crate::rect_order::{RectOrder, areas_in_range, is_stable_sort_of, sort_rectangles};
use crate::rectangle::Rectangle;

verus! {

/// The order in which the permutation search starts.
#[derive(Debug, Clone, Copy)]
pub enum LocalSearchStart {
    /// Smallest area first: a deliberately poor start.
    BadAscendingArea,
    /// Largest area first, as the greedy packer takes them.
    GreedyAreaDescending,
}

/// Searching over the order in which rectangles are handed to the packer;
/// an order is scored by the packing it gives.
#[derive(Debug)]
pub struct PermutationProblem {
    pub instance: Instance,
}

impl Clone for PermutationProblem {
    fn clone(&self) -> (r: Self)
        ensures
            r.instance.rectangles@ == self.instance.rectangles@,
            r.instance.box_size == self.instance.box_size,
    {
        PermutationProblem { instance: self.instance.clone() }
    }
}

/// `s` with the elements at `i` and `j` exchanged.
pub open spec fn swapped(s: Seq<Rectangle>, i: int, j: int) -> Seq<Rectangle> {
    s.update(i, s[j]).update(j, s[i])
}

/// `s` with the element at `i` taken out and put back at position `j`.
pub open spec fn moved(s: Seq<Rectangle>, i: int, j: int) -> Seq<Rectangle> {
    s.remove(i).insert(j, s[i])
}

/// `to` arises from `from` by exchanging two positions or by moving one
/// element to another position.
pub open spec fn is_swap_or_move(from: Seq<Rectangle>, to: Seq<Rectangle>) -> bool {
    exists|i: int, j: int|
        #![trigger swapped(from, i, j)]
        #![trigger moved(from, i, j)]
        0 <= i < from.len() && 0 <= j < from.len() && i != j && (to == swapped(from, i, j) || to == moved(
            from,
            i,
            j,
        ))
}

impl OptimizationProblem for PermutationProblem {
    type Solution = Vec<Rectangle>;

    type Score = Score;

    /// Every order can be packed and scored.
    open spec fn admissible(&self, solution: Vec<Rectangle>) -> bool {
        true
    }

    open spec fn spec_evaluate(&self, solution: Vec<Rectangle>) -> Score {
        view_score(packed_view(self.instance.box_size, solution@), self.instance.box_size)
    }

    fn evaluate(&self, solution: &Vec<Rectangle>) -> (r: Score) {
        let packing = pack_rectangles(&self.instance, solution.as_slice());
        score_packing(&packing, self.instance.box_size)
    }
}

/// Proposes `max_neighbors` random orders, each by exchanging two positions
/// or moving one rectangle, with equal chance.
pub struct PermutationNeighborhood {
    pub max_neighbors: usize,
}

/// The order with positions `i` and `j` exchanged (`swap`) or with the
/// rectangle at `i` moved to position `j`.
fn permutation_move(solution: &Vec<Rectangle>, swap: bool, i: usize, j: usize) -> (r: Vec<Rectangle>)
    requires
        i < solution@.len(),
        j < solution@.len(),
    ensures
        r@ == if swap {
            swapped(solution@, i as int, j as int)
        } else {
            moved(solution@, i as int, j as int)
        },
{
    let mut candidate = solution.clone();
    proof {
        assert(candidate@ =~= solution@);
    }
    if swap {
        let a = candidate[i];
        let b = candidate[j];
        candidate.set(i, b);
        candidate.set(j, a);
    } else {
        let rect = candidate.remove(i);
        candidate.insert(j, rect);
    }
    candidate
}

/// Maps a draw `k` from `0..n - 1` onto the positions other than `i`.
fn other_index(k: usize, i: usize, n: usize) -> (r: usize)
    requires
        k + 1 < n,
        i < n,
    ensures
        r < n,
        r != i,
        r == if k >= i { k + 1 } else { k as int },
{
    if k >= i {
        k + 1
    } else {
        k
    }
}

impl Neighborhood<PermutationProblem> for PermutationNeighborhood {
    open spec fn is_neighbor(&self, problem: PermutationProblem, from: Vec<Rectangle>, to: Vec<Rectangle>) -> bool {
        is_swap_or_move(from@, to@) && to@.len() == from@.len()
    }

    /// As many proposals as `max_neighbors`, none for fewer than two
    /// rectangles.
    open spec fn may_propose(&self, problem: PermutationProblem, from: Vec<Rectangle>, list: Seq<Vec<Rectangle>>) -> bool {
        list.len() == (if from@.len() < 2 {
            0
        } else {
            self.max_neighbors as int
        })
    }

    /// Any order can be varied.
    open spec fn can_propose(&self, problem: PermutationProblem, solution: Vec<Rectangle>) -> bool {
        true
    }

    fn neighbors(&self, _problem: &PermutationProblem, solution: &Vec<Rectangle>) -> (r: Vec<Vec<Rectangle>>) {
        let mut rng = thread_rng();
        let mut neighbors: Vec<Vec<Rectangle>> = Vec::new();
        let n = solution.len();
        if n < 2 {
            return neighbors;
        }
        let mut t: usize = 0;
        while t < self.max_neighbors
            invariant
                n == solution@.len(),
                n >= 2,
                t <= self.max_neighbors,
                neighbors@.len() == t,
                forall|k: int|
                    0 <= k < neighbors@.len() ==> self.is_neighbor(*_problem, *solution, #[trigger] neighbors@[k]) && (
                    _problem.admissible(*solution) ==> _problem.admissible(neighbors@[k])),
            decreases self.max_neighbors - t,
        {
            let swap = gen_ratio(&mut rng, 1, 2);
            let i = gen_index(&mut rng, n);
            let k = gen_index(&mut rng, n - 1);
            let j = other_index(k, i, n);
            let candidate = permutation_move(solution, swap, i, j);
            proof {
                if swap {
                    assert(candidate@ == swapped(solution@, i as int, j as int));
                } else {
                    assert(candidate@ == moved(solution@, i as int, j as int));
                }
                assert(is_swap_or_move(solution@, candidate@));
            }
            neighbors.push(candidate);
            t += 1;
        }
        neighbors
    }
}

/// The outcome of the permutation search: the final packing and its score,
/// the rounds performed, and the packing of each accepted order.
#[derive(Debug)]
pub struct LocalSearchResult {
    pub solution: PackingSolution,
    pub score: Score,
    pub iterations: usize,
    pub history: Vec<PackingSolution>,
}

/// The instance's rectangles, smallest area first (stable).
fn build_bad_start_order(instance: &Instance) -> (r: Vec<Rectangle>)
    requires
        areas_in_range(instance.rectangles@),
    ensures
        is_stable_sort_of(RectOrder::AreaAscending, r@, instance.rectangles@),
{
    let mut rectangles = instance.rectangles.clone();
    proof {
        assert(rectangles@ =~= instance.rectangles@);
    }
    sort_rectangles(&mut rectangles, RectOrder::AreaAscending);
    rectangles
}

/// The instance's rectangles, largest area first (stable).
fn build_greedy_area_order(instance: &Instance) -> (r: Vec<Rectangle>)
    requires
        areas_in_range(instance.rectangles@),
    ensures
        is_stable_sort_of(RectOrder::AreaDescending, r@, instance.rectangles@),
{
    let mut rectangles = instance.rectangles.clone();
    proof {
        assert(rectangles@ =~= instance.rectangles@);
    }
    sort_rectangles(&mut rectangles, RectOrder::AreaDescending);
    rectangles
}

/// The sort order of a starting strategy.
pub open spec fn start_order(start: LocalSearchStart) -> RectOrder {
    match start {
        LocalSearchStart::BadAscendingArea => RectOrder::AreaAscending,
        LocalSearchStart::GreedyAreaDescending => RectOrder::AreaDescending,
    }
}

/// The starting order for the permutation search.
fn build_start_order(instance: &Instance, start: LocalSearchStart) -> (r: Vec<Rectangle>)
    requires
        areas_in_range(instance.rectangles@),
    ensures
        is_stable_sort_of(start_order(start), r@, instance.rectangles@),
{
    match start {
        LocalSearchStart::BadAscendingArea => build_bad_start_order(instance),
        LocalSearchStart::GreedyAreaDescending => build_greedy_area_order(instance),
    }
}

/// Exchanging or moving elements keeps the same elements.
pub proof fn lemma_swap_or_move_perm(from: Seq<Rectangle>, to: Seq<Rectangle>)
    requires
        is_swap_or_move(from, to),
    ensures
        to.to_multiset() == from.to_multiset(),
{
    broadcast use vstd::seq_lib::group_to_multiset_ensures;
    let (i, j) = choose|i: int, j: int|
        #![trigger swapped(from, i, j)]
        #![trigger moved(from, i, j)]
        0 <= i < from.len() && 0 <= j < from.len() && i != j && (to == swapped(from, i, j) || to == moved(from, i, j));
    if to == swapped(from, i, j) {
        vstd::seq_lib::to_multiset_update(from, i, from[j]);
        vstd::seq_lib::to_multiset_update(from.update(i, from[j]), j, from[i]);
        assert(from.update(i, from[j])[j] == from[j]);
        assert(from.to_multiset().remove(from[i]).insert(from[j]).remove(from[j]).insert(from[i]) =~= from.to_multiset());
    } else {
        vstd::seq_lib::to_multiset_remove(from, i);
        vstd::seq_lib::to_multiset_insert(from.remove(i), j, from[i]);
        assert(from.to_multiset().count(from[i]) > 0);
        assert(from.to_multiset().remove(from[i]).insert(from[i]) =~= from.to_multiset());
    }
}

/// The packing of order `a` scores strictly below that of order `b`.
pub open spec fn packs_better(box_size: u32, a: Seq<Rectangle>, b: Seq<Rectangle>) -> bool {
    view_score(packed_view(box_size, a), box_size).is_below(view_score(packed_view(box_size, b), box_size))
}

/// `to` is the first order of `list` that packs strictly better than `from`.
pub open spec fn first_better_order(box_size: u32, list: Seq<Seq<Rectangle>>, from: Seq<Rectangle>, to: Seq<Rectangle>) -> bool {
    exists|i: int|
        0 <= i < list.len() && #[trigger] list[i] == to && packs_better(box_size, list[i], from) && forall|j: int|
            0 <= j < i ==> !packs_better(box_size, #[trigger] list[j], from)
}

/// The orders the search went through and the variants it was offered:
/// `orders[0]` is the start order; `lists[k]`, one list per round, holds the
/// variants offered for `orders[k]` (each one exchange or move away, as many
/// as `max_neighbors`, none for fewer than two rectangles); each next order
/// is the first variant of its round that packs strictly better; where the
/// search stopped early (as many rounds as orders), no variant of the last
/// round packs better than the last order; snapshot `k` of the result is the
/// packing of `orders[k]`.
pub open spec fn is_search_trace(
    instance: Instance,
    start: LocalSearchStart,
    max_neighbors: usize,
    orders: Seq<Seq<Rectangle>>,
    lists: Seq<Seq<Seq<Rectangle>>>,
    r: LocalSearchResult,
) -> bool {
    &&& orders.len() == r.history@.len()
    &&& is_stable_sort_of(start_order(start), orders[0], instance.rectangles@)
    &&& forall|k: int| 0 <= k < orders.len() - 1 ==> is_swap_or_move(#[trigger] orders[k], orders[k + 1])
    &&& forall|k: int| 0 <= k < orders.len() ==> (#[trigger] r.history@[k])@ == packed_view(instance.box_size, orders[k])
    &&& lists.len() == r.iterations
    &&& forall|k: int|
        0 <= k < lists.len() ==> (#[trigger] lists[k]).len() == (if instance.rectangles@.len() < 2 {
            0
        } else {
            max_neighbors as int
        })
    &&& forall|k: int, i: int| 0 <= k < lists.len() && 0 <= i < lists[k].len() ==> is_swap_or_move(orders[k], #[trigger] lists[k][i])
    &&& forall|k: int|
        0 <= k < orders.len() - 1 ==> first_better_order(instance.box_size, #[trigger] lists[k], orders[k], orders[k + 1])
    &&& (orders.len() == r.iterations && r.iterations > 0) ==> forall|i: int|
        0 <= i < lists[r.iterations - 1].len() ==> !packs_better(
            instance.box_size,
            #[trigger] lists[r.iterations - 1][i],
            orders[r.iterations - 1],
        )
}

/// Local search over the packing order: starting from `start`'s order, each
/// round packs up to `max_neighbors` random variants (two rectangles
/// exchanged, or one moved) and takes the first that packs strictly better;
/// it stops after a round without improvement or after `max_iterations`
/// rounds. Every snapshot is the packing of an order of all the instance's
/// rectangles.
pub fn run_local_search_swap_tuned(
    instance: &Instance,
    max_iterations: usize,
    start: LocalSearchStart,
    max_neighbors: usize,
) -> (r: LocalSearchResult)
    requires
        areas_in_range(instance.rectangles@),
    ensures
        exists|orders: Seq<Seq<Rectangle>>, lists: Seq<Seq<Seq<Rectangle>>>| #[trigger] is_search_trace(*instance, start, max_neighbors, orders, lists, r),
        r.history@.len() >= 1,
        r.iterations <= max_iterations,
        (r.iterations == max_iterations && r.history@.len() == r.iterations + 1) || r.history@.len() == r.iterations,
        r.solution@ == r.history@.last()@,
        r.score == spec_evaluate(r.solution, instance.box_size),
        is_packing_of(instance.rectangles@, instance.box_size, r.solution),
        forall|k: int|
            0 <= k < r.history@.len() ==> is_packing_of(instance.rectangles@, instance.box_size, #[trigger] r.history@[k]),
        forall|k: int|
            0 <= k < r.history@.len() - 1 ==> spec_evaluate(r.history@[k + 1], instance.box_size).is_below(
                spec_evaluate(#[trigger] r.history@[k], instance.box_size),
            ),
{
    let problem = PermutationProblem { instance: instance.clone() };
    let start_order_vec = build_start_order(instance, start);
    let neighborhood = PermutationNeighborhood { max_neighbors };
    proof {
        assert(start_order_vec@.len() == instance.rectangles@.len());
    }
    let result: GenericLocalSearchResult<Vec<Rectangle>, Score> = run_generic_local_search(
        &problem,
        &neighborhood,
        start_order_vec,
        max_iterations,
    );
    let ghost orders = result.history@.map_values(|v: Vec<Rectangle>| v@);
    proof {
        assert(order_is_specified::<Score>());
        assert forall|k: int| 0 <= k < orders.len() implies (#[trigger] orders[k]).to_multiset()
            == instance.rectangles@.to_multiset() by {
            lemma_orders_perm(orders, instance.rectangles@, k);
        }
    }
    let final_solution = pack_rectangles(instance, result.solution.as_slice());
    proof {
        let last = result.history@.last();
        assert(vstd::pervasive::cloned(last, result.solution));
        assert(result.solution@ =~= last@);
    }
    let n = result.history.len();
    let mut history: Vec<PackingSolution> = Vec::new();
    let mut k: usize = 0;
    while k < n
        invariant
            n == result.history@.len(),
            k <= n,
            history@.len() == k,
            forall|m: int| 0 <= m < k ==> (#[trigger] history@[m])@ == packed_view(instance.box_size, result.history@[m]@),
            forall|m: int| 0 <= m < k ==> is_packing_of(instance.rectangles@, instance.box_size, #[trigger] history@[m]),
            forall|m: int| 0 <= m < orders.len() ==> (#[trigger] orders[m]).to_multiset() == instance.rectangles@.to_multiset(),
            orders == result.history@.map_values(|v: Vec<Rectangle>| v@),
        decreases n - k,
    {
        let packed = pack_rectangles(instance, result.history[k].as_slice());
        proof {
            assert(orders[k as int] == result.history@[k as int]@);
            lemma_packing_perm(result.history@[k as int]@, instance.rectangles@, instance.box_size, packed);
        }
        history.push(packed);
        k += 1;
    }
    let r = LocalSearchResult { solution: final_solution, score: result.score, iterations: result.iterations, history };
    proof {
        assert(orders[orders.len() - 1] == result.history@.last()@);
        lemma_packing_perm(result.solution@, instance.rectangles@, instance.box_size, final_solution);
        let glists = choose|lists: Seq<Seq<Vec<Rectangle>>>|
            #[trigger] is_first_improvement_run(problem, neighborhood, result.history@, lists, result.iterations as int);
        let lists = glists.map_values(|l: Seq<Vec<Rectangle>>| l.map_values(|v: Vec<Rectangle>| v@));
        let box_size = instance.box_size;
        assert(is_search_trace(*instance, start, max_neighbors, orders, lists, r)) by {
            assert forall|m: int| 0 <= m < orders.len() - 1 implies is_swap_or_move(#[trigger] orders[m], orders[m + 1]) by {
                assert(neighborhood.is_neighbor(problem, result.history@[m], result.history@[m + 1]));
            }
            assert forall|k: int| 0 <= k < lists.len() implies (#[trigger] lists[k]).len() == (if instance.rectangles@.len() < 2 {
                0
            } else {
                max_neighbors as int
            }) by {
                assert(neighborhood.may_propose(problem, result.history@[k], glists[k]));
                assert(orders[k] == result.history@[k]@);
                assert(orders[k].to_multiset().len() == instance.rectangles@.to_multiset().len());
                vstd::seq_lib::to_multiset_len(orders[k]);
                vstd::seq_lib::to_multiset_len(instance.rectangles@);
            }
            assert forall|k: int, i: int| 0 <= k < lists.len() && 0 <= i < lists[k].len() implies is_swap_or_move(
                orders[k],
                #[trigger] lists[k][i],
            ) by {
                assert(lists[k][i] == glists[k][i]@);
                assert(neighborhood.is_neighbor(problem, result.history@[k], glists[k][i]));
            }
            assert forall|k: int| 0 <= k < orders.len() - 1 implies first_better_order(
                box_size,
                #[trigger] lists[k],
                orders[k],
                orders[k + 1],
            ) by {
                assert(takes_first_improving(problem, glists[k], result.history@[k], result.history@[k + 1]));
                let i = choose|i: int|
                    #[trigger] is_first_improving(problem, glists[k], problem.spec_evaluate(result.history@[k]), i)
                        && glists[k][i] == result.history@[k + 1];
                assert(lists[k][i] == orders[k + 1]);
                assert forall|j: int| 0 <= j < i implies !packs_better(box_size, #[trigger] lists[k][j], orders[k]) by {
                    assert(!improves(problem, glists[k][j], problem.spec_evaluate(result.history@[k])));
                    assert(lists[k][j] == glists[k][j]@);
                }
                assert(improves(problem, glists[k][i], problem.spec_evaluate(result.history@[k])));
            }
            if orders.len() == r.iterations && r.iterations > 0 {
                let l = r.iterations - 1;
                assert forall|i: int| 0 <= i < lists[l].len() implies !packs_better(
                    box_size,
                    #[trigger] lists[l][i],
                    orders[l],
                ) by {
                    assert(none_improving(problem, glists[l], problem.spec_evaluate(result.history@[l])));
                    assert(!improves(problem, glists[l][i], problem.spec_evaluate(result.history@[l])));
                    assert(lists[l][i] == glists[l][i]@);
                }
            }
        }
        assert forall|m: int| 0 <= m < r.history@.len() - 1 implies spec_evaluate(r.history@[m + 1], instance.box_size).is_below(
            spec_evaluate(#[trigger] r.history@[m], instance.box_size),
        ) by {
            assert(strictly_below(
                problem.spec_evaluate(result.history@[m + 1]),
                problem.spec_evaluate(result.history@[m]),
            ));
        }
    }
    r
}

/// Each order of a trace of exchanges and moves holds the rectangles of the
/// first.
proof fn lemma_orders_perm(orders: Seq<Seq<Rectangle>>, rects: Seq<Rectangle>, k: int)
    requires
        0 <= k < orders.len(),
        orders[0].to_multiset() == rects.to_multiset(),
        forall|m: int| 0 <= m < orders.len() - 1 ==> is_swap_or_move(#[trigger] orders[m], orders[m + 1]),
    ensures
        orders[k].to_multiset() == rects.to_multiset(),
    decreases k,
{
    if k > 0 {
        lemma_orders_perm(orders, rects, k - 1);
        lemma_swap_or_move_perm(orders[k - 1], orders[k]);
    }
}

/// The permutation search with 30 variants per round.
pub fn run_local_search_swap(instance: &Instance, max_iterations: usize, start: LocalSearchStart) -> (r: LocalSearchResult)
    requires
        areas_in_range(instance.rectangles@),
    ensures
        exists|orders: Seq<Seq<Rectangle>>, lists: Seq<Seq<Seq<Rectangle>>>| #[trigger] is_search_trace(*instance, start, 30, orders, lists, r),
        r.history@.len() >= 1,
        r.iterations <= max_iterations,
        (r.iterations == max_iterations && r.history@.len() == r.iterations + 1) || r.history@.len() == r.iterations,
        r.solution@ == r.history@.last()@,
        r.score == spec_evaluate(r.solution, instance.box_size),
        is_packing_of(instance.rectangles@, instance.box_size, r.solution),
        forall|k: int|
            0 <= k < r.history@.len() ==> is_packing_of(instance.rectangles@, instance.box_size, #[trigger] r.history@[k]),
        forall|k: int|
            0 <= k < r.history@.len() - 1 ==> spec_evaluate(r.history@[k + 1], instance.box_size).is_below(
                spec_evaluate(#[trigger] r.history@[k], instance.box_size),
            ),
{
    run_local_search_swap_tuned(instance, max_iterations, start, 30)
}

} // verus!
