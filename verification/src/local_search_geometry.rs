use vstd::prelude::*;

use crate::bin::{Bin, Placement, fits_ignoring, has_id, first_index_of_id, lemma_first_index_unique, valid_placements, overlaps, probe};
use crate::evaluator::{Score, score_packing, spec_evaluate, view_score};
use crate::framework::{Neighborhood, OptimizationProblem, improves, is_first_improving, none_improving};
use crate::generic_local_search::{run_generic_local_search, GenericLocalSearchResult, is_first_improvement_run, takes_first_improving};
use crate::greedy::{PackingSolution, bin_view, groups_count, lemma_groups_area_bound, sources, source_of, groups_sources, lemma_groups_push, is_packing_of, all_rects_positive, bin_groups, fitting_keys};
use crate::rectangle::Rectangle;
use crate::evaluator::{view_groups, evaluation_in_range};
use crate::framework::{order_is_specified, strictly_below};
use crate::instance::Instance;
use crate::random::{thread_rng, gen_index};

verus! {

/// Moving one rectangle: out of bin `from_bin`, into bin `to_bin` at
/// `(new_x, new_y)` with the given dimensions and turn.
#[derive(Debug, Clone, Copy)]
pub struct GeometryMove {
    pub rect_id: usize,
    pub from_bin: usize,
    pub to_bin: usize,
    pub new_x: u32,
    pub new_y: u32,
    pub new_width: u32,
    pub new_height: u32,
    pub rotated: bool,
}

/// The outcome of the geometry search: the final packing and its score, the
/// rounds performed, and each accepted packing in turn.
#[derive(Debug)]
pub struct GeometrySearchResult {
    pub solution: PackingSolution,
    pub score: Score,
    pub iterations: usize,
    pub history: Vec<PackingSolution>,
}

/// The bins with the empty ones left out.
pub open spec fn nonempty_bins(v: Seq<(usize, u32, Seq<Placement>)>) -> Seq<(usize, u32, Seq<Placement>)> {
    v.filter(|b: (usize, u32, Seq<Placement>)| b.2.len() > 0)
}

/// The bins numbered `0, 1, ...` in order.
pub open spec fn renumbered(v: Seq<(usize, u32, Seq<Placement>)>) -> Seq<(usize, u32, Seq<Placement>)> {
    v.map(|k: int, b: (usize, u32, Seq<Placement>)| (k as usize, b.1, b.2))
}

/// The packing after a move, if it can be made: the first placement of
/// `mv.rect_id` in bin `from_bin` is taken out, and the rectangle is put into
/// bin `to_bin` at the move's position and dimensions where it lies inside
/// and overlaps no placement of another identifier; then empty bins are
/// dropped and the bins numbered afresh. `None` where a bin index is out of
/// range, the rectangle is not in `from_bin`, or it does not fit.
pub open spec fn moved_view(v: Seq<(usize, u32, Seq<Placement>)>, mv: GeometryMove) -> Option<Seq<(usize, u32, Seq<Placement>)>> {
    if mv.from_bin >= v.len() || mv.to_bin >= v.len() {
        None
    } else if !has_id(v[mv.from_bin as int].2, mv.rect_id) {
        None
    } else {
        let from = v[mv.from_bin as int];
        let i = first_index_of_id(from.2, mv.rect_id);
        let removed = from.2[i];
        let v1 = v.update(mv.from_bin as int, (from.0, from.1, from.2.remove(i)));
        let to = v1[mv.to_bin as int];
        if !fits_ignoring(to.2, to.1, mv.new_width, mv.new_height, mv.new_x, mv.new_y, mv.rect_id) {
            None
        } else {
            let p = Placement {
                rect_id: removed.rect_id,
                x: mv.new_x,
                y: mv.new_y,
                width: mv.new_width,
                height: mv.new_height,
                rotated: mv.rotated,
            };
            let v2 = v1.update(mv.to_bin as int, (to.0, to.1, to.2.push(p)));
            Some(renumbered(nonempty_bins(v2)))
        }
    }
}

/// Numbers the bins `0, 1, ...` in order.
pub(crate) fn renumber_bins(solution: &mut PackingSolution)
    ensures
        final(solution)@ == renumbered(old(solution)@),
{
    let n = solution.bins.len();
    let mut i: usize = 0;
    while i < n
        invariant
            n == solution.bins@.len(),
            n == old(solution).bins@.len(),
            i <= n,
            forall|k: int| 0 <= k < i ==> #[trigger] solution@[k] == renumbered(old(solution)@)[k],
            forall|k: int| i <= k < n ==> #[trigger] solution@[k] == old(solution)@[k],
        decreases n - i,
    {
        let ghost before = solution.bins@;
        let ghost before_view = solution@;
        solution.bins[i].id = i;
        proof {
            assert(solution.bins@ == before.update(i as int, Bin { id: i, ..before[i as int] }));
            assert(before_view[i as int] == bin_view(before[i as int]));
            assert(before_view[i as int] == old(solution)@[i as int]);
            assert forall|k: int| 0 <= k < n implies #[trigger] solution@[k] == (if k == i {
                renumbered(old(solution)@)[k]
            } else {
                before_view[k]
            }) by {
                assert(solution@[k] == bin_view(solution.bins@[k]));
                assert(before_view[k] == bin_view(before[k]));
            }
        }
        i += 1;
    }
    proof {
        assert(solution@ =~= renumbered(old(solution)@));
    }
}

/// `a` comes strictly before `b`: by x, then by y.
pub open spec fn point_lt(a: (u32, u32), b: (u32, u32)) -> bool {
    a.0 < b.0 || (a.0 == b.0 && a.1 < b.1)
}

/// Strictly increasing, hence without repetition.
pub open spec fn strictly_sorted(s: Seq<(u32, u32)>) -> bool {
    forall|i: int, j: int| 0 <= i < j < s.len() ==> point_lt(#[trigger] s[i], #[trigger] s[j])
}

/// Adds `q` to a strictly increasing list of points, keeping it so.
pub(crate) fn insert_point(v: &mut Vec<(u32, u32)>, q: (u32, u32))
    requires
        strictly_sorted(old(v)@),
    ensures
        strictly_sorted(final(v)@),
        forall|a: (u32, u32)| #[trigger] final(v)@.contains(a) <==> old(v)@.contains(a) || a == q,
{
    let n = v.len();
    let mut p: usize = 0;
    while p < n && (v[p].0 < q.0 || (v[p].0 == q.0 && v[p].1 < q.1))
        invariant
            n == v@.len(),
            p <= n,
            forall|k: int| 0 <= k < p ==> point_lt(#[trigger] v@[k], q),
        decreases n - p,
    {
        p += 1;
    }
    if p < n && v[p].0 == q.0 && v[p].1 == q.1 {
        proof {
            assert(v@[p as int] == q);
        }
        return;
    }
    let ghost before = v@;
    v.insert(p, q);
    proof {
        assert(v@ == before.insert(p as int, q));
        assert forall|i: int, j: int| 0 <= i < j < v@.len() implies point_lt(#[trigger] v@[i], #[trigger] v@[j]) by {
            if i < p && j == p {
            } else if i == p && j > p {
                assert(!point_lt(before[p as int], q));
                if j > p + 1 {
                    assert(point_lt(before[p as int], before[j - 1]));
                }
            } else if i < p && j > p {
                assert(point_lt(before[i], before[j - 1]));
            } else if j < p {
                assert(point_lt(before[i], before[j]));
            } else {
                assert(point_lt(before[i - 1], before[j - 1]));
            }
        }
        assert forall|a: (u32, u32)| #[trigger] v@.contains(a) <==> before.contains(a) || a == q by {
            if v@.contains(a) {
                let k = choose|k: int| 0 <= k < v@.len() && v@[k] == a;
                if k < p {
                    assert(before[k] == a);
                } else if k > p {
                    assert(before[k - 1] == a);
                }
            }
            if before.contains(a) {
                let k = choose|k: int| 0 <= k < before.len() && before[k] == a;
                if k < p {
                    assert(v@[k] == a);
                } else {
                    assert(v@[k + 1] == a);
                }
            }
            if a == q {
                assert(v@[p as int] == q);
            }
        }
    }
}

/// No placement's right or top edge exceeds the `u32` range.
pub open spec fn edges_in_range(ps: Seq<Placement>) -> bool {
    forall|k: int| 0 <= k < ps.len() ==> (#[trigger] ps[k]).x + ps[k].width <= u32::MAX && ps[k].y + ps[k].height <= u32::MAX
}

/// `q` is the origin, or the lower-right or upper-left corner of a placement.
pub open spec fn is_corner_of(ps: Seq<Placement>, q: (u32, u32)) -> bool {
    ||| q == (0u32, 0u32)
    ||| exists|k: int|
        0 <= k < ps.len() && (q == ((ps[k].x + ps[k].width) as u32, (#[trigger] ps[k]).y) || q == (
            ps[k].x,
            (ps[k].y + ps[k].height) as u32,
        ))
}

/// The positions worth trying in a bin: the origin and, for each placement,
/// the points just right of it and just above it; increasing, without
/// repetition.
fn candidate_positions(bin: &Bin) -> (r: Vec<(u32, u32)>)
    requires
        edges_in_range(bin.placements@),
    ensures
        strictly_sorted(r@),
        forall|q: (u32, u32)| #[trigger] r@.contains(q) <==> is_corner_of(bin.placements@, q),
{
    let mut positions: Vec<(u32, u32)> = Vec::new();
    insert_point(&mut positions, (0, 0));
    let n = bin.placements.len();
    let mut k: usize = 0;
    while k < n
        invariant
            n == bin.placements@.len(),
            k <= n,
            edges_in_range(bin.placements@),
            strictly_sorted(positions@),
            forall|q: (u32, u32)| #[trigger] positions@.contains(q) <==> (q == (0u32, 0u32) || exists|m: int|
                0 <= m < k && (q == ((bin.placements@[m].x + bin.placements@[m].width) as u32, (#[trigger] bin.placements@[m]).y)
                    || q == (bin.placements@[m].x, (bin.placements@[m].y + bin.placements@[m].height) as u32))),
        decreases n - k,
    {
        let p = bin.placements[k];
        insert_point(&mut positions, (p.x + p.width, p.y));
        insert_point(&mut positions, (p.x, p.y + p.height));
        proof {
            assert forall|q: (u32, u32)| #[trigger] positions@.contains(q) <==> (q == (0u32, 0u32) || exists|m: int|
                0 <= m < k + 1 && (q == ((bin.placements@[m].x + bin.placements@[m].width) as u32, (#[trigger] bin.placements@[m]).y)
                    || q == (bin.placements@[m].x, (bin.placements@[m].y + bin.placements@[m].height) as u32))) by {
                if q == ((p.x + p.width) as u32, p.y) || q == (p.x, (p.y + p.height) as u32) {
                    assert(bin.placements@[k as int] == p);
                }
            }
        }
        k += 1;
    }
    positions
}

proof fn lemma_nonempty_step(s: Seq<(usize, u32, Seq<Placement>)>, i: int)
    requires
        0 <= i < s.len(),
    ensures
        nonempty_bins(s.take(i + 1)) == if s[i].2.len() > 0 {
            nonempty_bins(s.take(i)).push(s[i])
        } else {
            nonempty_bins(s.take(i))
        },
{
    reveal(Seq::filter);
    assert(s.take(i + 1).drop_last() =~= s.take(i));
    assert(s.take(i + 1).last() == s[i]);
}

/// Drops the empty bins, keeping the order of the others.
pub(crate) fn retain_nonempty(solution: &mut PackingSolution)
    ensures
        final(solution)@ == nonempty_bins(old(solution)@),
{
    let ghost v2 = solution@;
    let n = solution.bins.len();
    let mut kept: Vec<Bin> = Vec::new();
    let mut k: usize = 0;
    proof {
        assert(v2.take(0) =~= Seq::<(usize, u32, Seq<Placement>)>::empty());
        reveal(Seq::filter);
        assert(kept@.map_values(|b: Bin| bin_view(b)) =~= nonempty_bins(v2.take(0)));
    }
    while k < n
        invariant
            n == solution.bins@.len(),
            v2 == solution@,
            v2 == old(solution)@,
            k <= n,
            kept@.map_values(|b: Bin| bin_view(b)) == nonempty_bins(v2.take(k as int)),
        decreases n - k,
    {
        proof {
            lemma_nonempty_step(v2, k as int);
            assert(v2[k as int] == bin_view(solution.bins@[k as int]));
        }
        if !solution.bins[k].is_empty() {
            let b = solution.bins[k].clone();
            let ghost old_kept = kept@;
            kept.push(b);
            proof {
                assert(bin_view(b) == v2[k as int]);
                assert(kept@.map_values(|b: Bin| bin_view(b)) =~= old_kept.map_values(|b: Bin| bin_view(b)).push(bin_view(b)));
            }
        }
        k += 1;
    }
    proof {
        assert(v2.take(n as int) =~= v2);
    }
    solution.bins = kept;
}

/// Applies a move to a copy of the solution (see `moved_view`).
fn apply_move(solution: &PackingSolution, mv: &GeometryMove) -> (r: Option<PackingSolution>)
    ensures
        r is None <==> moved_view(solution@, *mv) is None,
        r matches Some(s) ==> moved_view(solution@, *mv) == Some(s@),
{
    let mut new_solution = solution.clone();
    let n = new_solution.bins.len();
    if mv.from_bin >= n || mv.to_bin >= n {
        return None;
    }
    let ghost v = solution@;
    proof {
        assert(new_solution.bins@[mv.from_bin as int].placements@ == v[mv.from_bin as int].2);
    }
    let ghost before = new_solution.bins@;
    let removed = match new_solution.bins[mv.from_bin].remove_placement_by_rect_id(mv.rect_id) {
        Some(p) => p,
        None => {
            return None;
        },
    };
    let ghost i = first_index_of_id(v[mv.from_bin as int].2, mv.rect_id);
    proof {
        let i0 = choose|i0: int| #[trigger] crate::bin::is_first_with_id(before[mv.from_bin as int].placements@, mv.rect_id, i0)
            && removed == before[mv.from_bin as int].placements@[i0] && new_solution.bins@[mv.from_bin as int].placements@
            == before[mv.from_bin as int].placements@.remove(i0);
        lemma_first_index_unique(v[mv.from_bin as int].2, mv.rect_id, i0);
    }
    let ghost v1 = v.update(mv.from_bin as int, (v[mv.from_bin as int].0, v[mv.from_bin as int].1, v[mv.from_bin as int].2.remove(i)));
    proof {
        assert(new_solution@ =~= v1);
    }
    let can_place = new_solution.bins[mv.to_bin].can_place_dimensions_ignoring(
        mv.new_width,
        mv.new_height,
        mv.new_x,
        mv.new_y,
        mv.rect_id,
    );
    proof {
        assert(new_solution.bins@[mv.to_bin as int].placements@ == v1[mv.to_bin as int].2);
        assert(new_solution.bins@[mv.to_bin as int].size == v1[mv.to_bin as int].1);
    }
    if !can_place {
        return None;
    }
    let ghost mid = new_solution.bins@;
    new_solution.bins[mv.to_bin].place_dimensions(removed.rect_id, mv.new_width, mv.new_height, mv.new_x, mv.new_y, mv.rotated);
    let ghost v2 = new_solution@;
    proof {
        let to = v1[mv.to_bin as int];
        let p = Placement {
            rect_id: removed.rect_id,
            x: mv.new_x,
            y: mv.new_y,
            width: mv.new_width,
            height: mv.new_height,
            rotated: mv.rotated,
        };
        assert(new_solution.bins@[mv.to_bin as int].placements@ == mid[mv.to_bin as int].placements@.push(p));
        assert(v2 =~= v1.update(mv.to_bin as int, (to.0, to.1, to.2.push(p))));
    }
    retain_nonempty(&mut new_solution);
    renumber_bins(&mut new_solution);
    Some(new_solution)
}

/// A packing the geometry search can work on: the right and top edges of
/// every placement fit in a `u32` (the search scores packings with sums
/// wide enough not to overflow).
pub open spec fn geometry_admissible(v: Seq<(usize, u32, Seq<Placement>)>, box_size: u32) -> bool {
    forall|b: int| 0 <= b < v.len() ==> edges_in_range(#[trigger] v[b].2)
}

/// The move takes an existing placement of its rectangle in `from_bin` and
/// keeps its dimensions, turned or not.
pub open spec fn move_keeps_shape(v: Seq<(usize, u32, Seq<Placement>)>, mv: GeometryMove) -> bool {
    &&& mv.from_bin < v.len()
    &&& exists|k: int|
        0 <= k < v[mv.from_bin as int].2.len() && #[trigger] shape_matches(v[mv.from_bin as int].2[k], mv)
}

/// The move's rectangle and dimensions are those of `p`, turned or not.
pub open spec fn shape_matches(p: Placement, mv: GeometryMove) -> bool {
    &&& p.rect_id == mv.rect_id
    &&& (mv.new_width == p.width && mv.new_height == p.height && mv.rotated == p.rotated) || (mv.new_width
        == p.height && mv.new_height == p.width && mv.rotated == !p.rotated)
}

/// `to` arises from `from` by one move that keeps the moved rectangle's shape.
pub open spec fn is_geometry_step(from: Seq<(usize, u32, Seq<Placement>)>, to: Seq<(usize, u32, Seq<Placement>)>) -> bool {
    exists|mv: GeometryMove| #[trigger] moved_view(from, mv) == Some(to) && move_keeps_shape(from, mv)
}

/// Searching over packings directly, scored as packings.
#[derive(Debug)]
pub struct GeometryProblem {
    pub instance: Instance,
}

impl Clone for GeometryProblem {
    fn clone(&self) -> (r: Self)
        ensures
            r.instance.rectangles@ == self.instance.rectangles@,
            r.instance.box_size == self.instance.box_size,
    {
        GeometryProblem { instance: self.instance.clone() }
    }
}

impl OptimizationProblem for GeometryProblem {
    type Solution = PackingSolution;

    type Score = Score;

    open spec fn admissible(&self, solution: PackingSolution) -> bool {
        geometry_admissible(solution@, self.instance.box_size)
    }

    open spec fn spec_evaluate(&self, solution: PackingSolution) -> Score {
        spec_evaluate(solution, self.instance.box_size)
    }

    fn evaluate(&self, solution: &PackingSolution) -> (r: Score) {
        score_packing(solution, self.instance.box_size)
    }
}

pub(crate) proof fn lemma_groups_count_update(pss: Seq<Seq<Placement>>, j: int, ps: Seq<Placement>)
    requires
        0 <= j < pss.len(),
    ensures
        groups_count(pss.update(j, ps)) == groups_count(pss) - pss[j].len() + ps.len(),
    decreases pss.len(),
{
    let nw = pss.update(j, ps);
    if j == pss.len() - 1 {
        assert(nw.drop_last() =~= pss.drop_last());
    } else {
        lemma_groups_count_update(pss.drop_last(), j, ps);
        assert(nw.drop_last() =~= pss.drop_last().update(j, ps));
    }
}


/// Dropping empty bins keeps the placements and their count.
pub(crate) proof fn lemma_nonempty_bins(v: Seq<(usize, u32, Seq<Placement>)>)
    ensures
        nonempty_bins(v).len() <= v.len(),
        groups_count(view_groups(nonempty_bins(v))) == groups_count(view_groups(v)),
        forall|b: int| 0 <= b < nonempty_bins(v).len() ==> (#[trigger] nonempty_bins(v)[b]).2.len() > 0,
        forall|b: int|
            0 <= b < nonempty_bins(v).len() ==> exists|c: int| 0 <= c < v.len() && v[c] == #[trigger] nonempty_bins(v)[b],
    decreases v.len(),
{
    reveal(Seq::filter);
    if v.len() > 0 {
        let d = v.drop_last();
        lemma_nonempty_bins(d);
        assert(view_groups(v).drop_last() =~= view_groups(d));
        assert(view_groups(v).last() == v.last().2);
        let nd = nonempty_bins(d);
        if v.last().2.len() > 0 {
            assert(nonempty_bins(v) == nd.push(v.last()));
            assert(view_groups(nonempty_bins(v)).drop_last() =~= view_groups(nd));
            assert forall|b: int| 0 <= b < nonempty_bins(v).len() implies exists|c: int|
                0 <= c < v.len() && v[c] == #[trigger] nonempty_bins(v)[b] by {
                if b < nd.len() {
                    let c = choose|c: int| 0 <= c < d.len() && d[c] == nd[b];
                    assert(v[c] == d[c]);
                } else {
                    assert(v[v.len() - 1] == nonempty_bins(v)[b]);
                }
            }
        } else {
            assert(nonempty_bins(v) == nd);
            assert forall|b: int| 0 <= b < nonempty_bins(v).len() implies exists|c: int|
                0 <= c < v.len() && v[c] == #[trigger] nonempty_bins(v)[b] by {
                let c = choose|c: int| 0 <= c < d.len() && d[c] == nd[b];
                assert(v[c] == d[c]);
            }
        }
    }
}

/// Every placement after a move is the moved one or one from before.
proof fn lemma_moved_placement(v: Seq<(usize, u32, Seq<Placement>)>, mv: GeometryMove, b: int, k: int)
    requires
        moved_view(v, mv) is Some,
        0 <= b < moved_view(v, mv)->0.len(),
        0 <= k < moved_view(v, mv)->0[b].2.len(),
    ensures
        ({
            let q = moved_view(v, mv)->0[b].2[k];
            ||| (q.x == mv.new_x && q.y == mv.new_y && q.width == mv.new_width && q.height == mv.new_height
                && q.rotated == mv.rotated)
            ||| exists|c: int, m: int| 0 <= c < v.len() && 0 <= m < v[c].2.len() && #[trigger] v[c].2[m] == q
        }),
{
    let from = v[mv.from_bin as int];
    let i = first_index_of_id(from.2, mv.rect_id);
    assert(crate::bin::is_first_with_id(from.2, mv.rect_id, i)) by {
        let i0 = choose|i0: int| 0 <= i0 < from.2.len() && (#[trigger] from.2[i0]).rect_id == mv.rect_id;
        lemma_first_witness(from.2, mv.rect_id, i0);
    }
    let removed = from.2[i];
    let v1 = v.update(mv.from_bin as int, (from.0, from.1, from.2.remove(i)));
    let to = v1[mv.to_bin as int];
    let p = Placement { rect_id: removed.rect_id, x: mv.new_x, y: mv.new_y, width: mv.new_width, height: mv.new_height, rotated: mv.rotated };
    let v2 = v1.update(mv.to_bin as int, (to.0, to.1, to.2.push(p)));
    let ne = nonempty_bins(v2);
    lemma_nonempty_bins(v2);
    let w = renumbered(ne);
    assert(w[b].2 == ne[b].2);
    let c = choose|c: int| 0 <= c < v2.len() && v2[c] == #[trigger] ne[b];
    let q = w[b].2[k];
    assert(q == v2[c].2[k]);
    if c == mv.to_bin && k == to.2.len() {
    } else {
        let q1 = v1[c].2[k];
        assert(q == q1);
        if c == mv.from_bin {
            if k < i {
                assert(q1 == from.2[k]);
                assert(v[c].2[k] == q);
            } else {
                assert(q1 == from.2[k + 1]);
                assert(v[c].2[k + 1] == q);
            }
        } else {
            assert(v[c].2[k] == q);
        }
    }
}

pub(crate) proof fn lemma_first_witness(ps: Seq<Placement>, id: usize, i0: int)
    requires
        0 <= i0 < ps.len(),
        ps[i0].rect_id == id,
    ensures
        exists|i: int| crate::bin::is_first_with_id(ps, id, i),
    decreases i0,
{
    if exists|j: int| 0 <= j < i0 && (#[trigger] ps[j]).rect_id == id {
        let j = choose|j: int| 0 <= j < i0 && (#[trigger] ps[j]).rect_id == id;
        lemma_first_witness(ps, id, j);
    } else {
        assert(crate::bin::is_first_with_id(ps, id, i0));
    }
}

/// A move keeps a packing workable.
proof fn lemma_move_admissible(v: Seq<(usize, u32, Seq<Placement>)>, mv: GeometryMove, box_size: u32)
    requires
        geometry_admissible(v, box_size),
        moved_view(v, mv) is Some,
    ensures
        geometry_admissible(moved_view(v, mv)->0, box_size),
{
    let from = v[mv.from_bin as int];
    let i = first_index_of_id(from.2, mv.rect_id);
    let v1 = v.update(mv.from_bin as int, (from.0, from.1, from.2.remove(i)));
    let to = v1[mv.to_bin as int];
    let w = moved_view(v, mv)->0;
    assert(fits_ignoring(to.2, to.1, mv.new_width, mv.new_height, mv.new_x, mv.new_y, mv.rect_id));
    assert forall|b: int| 0 <= b < w.len() implies edges_in_range(#[trigger] w[b].2) by {
        assert forall|k: int| 0 <= k < w[b].2.len() implies (#[trigger] w[b].2[k]).x + w[b].2[k].width <= u32::MAX
            && w[b].2[k].y + w[b].2[k].height <= u32::MAX by {
            lemma_moved_placement(v, mv, b, k);
            let q = w[b].2[k];
            if exists|c: int, m: int| 0 <= c < v.len() && 0 <= m < v[c].2.len() && #[trigger] v[c].2[m] == q {
                let (c, m) = choose|c: int, m: int| 0 <= c < v.len() && 0 <= m < v[c].2.len() && #[trigger] v[c].2[m] == q;
                assert(edges_in_range(v[c].2));
            }
        }
    }
}

/// The move that takes placement `p` out of bin `from` and puts it into bin
/// `to` at `(x, y)`, as it stands or, where `turned`, turned.
pub open spec fn placement_move(p: Placement, from: usize, to: usize, x: u32, y: u32, turned: bool) -> GeometryMove {
    if turned {
        GeometryMove {
            rect_id: p.rect_id,
            from_bin: from,
            to_bin: to,
            new_x: x,
            new_y: y,
            new_width: p.height,
            new_height: p.width,
            rotated: !p.rotated,
        }
    } else {
        GeometryMove {
            rect_id: p.rect_id,
            from_bin: from,
            to_bin: to,
            new_x: x,
            new_y: y,
            new_width: p.width,
            new_height: p.height,
            rotated: p.rotated,
        }
    }
}

/// The packing a move gives, as a sequence of one, or none where the move
/// cannot be made.
pub open spec fn move_results(o: Option<Seq<(usize, u32, Seq<Placement>)>>) -> Seq<Seq<(usize, u32, Seq<Placement>)>> {
    match o {
        Some(w) => seq![w],
        None => Seq::empty(),
    }
}

/// A draw of the geometry neighbourhood: `(from_bin, placement_index,
/// to_bin, x, y)`. The source bin is one of the packing's; where it holds
/// placements, the index is one of them, the target bin is one of the
/// packing's and `(x, y)` is one of its candidate positions.
pub open spec fn is_geometry_draw(v: Seq<(usize, u32, Seq<Placement>)>, d: (usize, usize, usize, u32, u32)) -> bool {
    &&& d.0 < v.len()
    &&& v[d.0 as int].2.len() > 0 ==> d.1 < v[d.0 as int].2.len() && d.2 < v.len() && is_corner_of(
        v[d.2 as int].2,
        (d.3, d.4),
    )
}

/// What a draw proposes: the chosen placement moved to the chosen position
/// as it stands, then, where it is not square, turned; each only where the
/// move can be made. Nothing where the draw chooses no placement.
pub open spec fn draw_proposals(v: Seq<(usize, u32, Seq<Placement>)>, d: (usize, usize, usize, u32, u32)) -> Seq<
    Seq<(usize, u32, Seq<Placement>)>,
> {
    if d.0 >= v.len() || d.1 >= v[d.0 as int].2.len() {
        Seq::empty()
    } else {
        let p = v[d.0 as int].2[d.1 as int];
        move_results(moved_view(v, placement_move(p, d.0, d.2, d.3, d.4, false))) + if p.width != p.height {
            move_results(moved_view(v, placement_move(p, d.0, d.2, d.3, d.4, true)))
        } else {
            Seq::empty()
        }
    }
}

/// What a sequence of draws proposes, draw after draw.
pub open spec fn all_draw_proposals(v: Seq<(usize, u32, Seq<Placement>)>, ds: Seq<(usize, usize, usize, u32, u32)>) -> Seq<
    Seq<(usize, u32, Seq<Placement>)>,
>
    decreases ds.len(),
{
    if ds.len() == 0 {
        Seq::empty()
    } else {
        all_draw_proposals(v, ds.drop_last()) + draw_proposals(v, ds.last())
    }
}

/// For some sequence of valid draws, `rounds` of them (none where the packing
/// has no bin), `list` is exactly what those draws propose, in order.
pub open spec fn proposed_by_draws(
    v: Seq<(usize, u32, Seq<Placement>)>,
    rounds: int,
    list: Seq<Seq<(usize, u32, Seq<Placement>)>>,
) -> bool {
    exists|ds: Seq<(usize, usize, usize, u32, u32)>|
        {
            &&& ds.len() == (if v.len() == 0 {
                0
            } else {
                rounds
            })
            &&& forall|k: int| 0 <= k < ds.len() ==> is_geometry_draw(v, #[trigger] ds[k])
            &&& list == #[trigger] all_draw_proposals(v, ds)
        }
}

/// The packings proposed by one draw `(from_bin, placement_index, to_bin, x,
/// y)` (see `draw_proposals`).
pub fn geometry_draw_proposals(solution: &PackingSolution, draw: (usize, usize, usize, u32, u32)) -> (r: Vec<
    PackingSolution,
>)
    ensures
        r@.map_values(|s: PackingSolution| s@) == draw_proposals(solution@, draw),
{
    let mut out: Vec<PackingSolution> = Vec::new();
    let (from, index, to, x, y) = draw;
    if from >= solution.bins.len() || index >= solution.bins[from].placements.len() {
        proof {
            assert(out@.map_values(|s: PackingSolution| s@) =~= draw_proposals(solution@, draw));
        }
        return out;
    }
    let p = solution.bins[from].placements[index];
    proof {
        assert(p == solution@[from as int].2[index as int]);
    }
    let mv = GeometryMove {
        rect_id: p.rect_id,
        from_bin: from,
        to_bin: to,
        new_x: x,
        new_y: y,
        new_width: p.width,
        new_height: p.height,
        rotated: p.rotated,
    };
    if let Some(c) = apply_move(solution, &mv) {
        out.push(c);
    }
    let ghost first = out@.map_values(|s: PackingSolution| s@);
    proof {
        assert(mv == placement_move(p, from, to, x, y, false));
        assert(first =~= move_results(moved_view(solution@, mv)));
    }
    if p.width != p.height {
        let mv_turned = GeometryMove {
            rect_id: p.rect_id,
            from_bin: from,
            to_bin: to,
            new_x: x,
            new_y: y,
            new_width: p.height,
            new_height: p.width,
            rotated: !p.rotated,
        };
        proof {
            assert(mv_turned == placement_move(p, from, to, x, y, true));
        }
        if let Some(c) = apply_move(solution, &mv_turned) {
            out.push(c);
        }
        proof {
            assert(out@.map_values(|s: PackingSolution| s@) =~= first + move_results(moved_view(solution@, mv_turned)));
        }
    } else {
        proof {
            assert(first + Seq::<Seq<(usize, u32, Seq<Placement>)>>::empty() =~= first);
        }
    }
    out
}

/// Each proposal of a draw is one shape-keeping move away and, from a
/// workable packing, workable; a draw proposes at most two packings.
proof fn lemma_draw_proposals(v: Seq<(usize, u32, Seq<Placement>)>, d: (usize, usize, usize, u32, u32), box_size: u32)
    ensures
        draw_proposals(v, d).len() <= 2,
        forall|k: int|
            0 <= k < draw_proposals(v, d).len() ==> is_geometry_step(v, #[trigger] draw_proposals(v, d)[k]) && (
            geometry_admissible(v, box_size) ==> geometry_admissible(draw_proposals(v, d)[k], box_size)),
{
    if d.0 < v.len() && d.1 < v[d.0 as int].2.len() {
        let p = v[d.0 as int].2[d.1 as int];
        let plain = placement_move(p, d.0, d.2, d.3, d.4, false);
        let turned = placement_move(p, d.0, d.2, d.3, d.4, true);
        assert(shape_matches(p, plain));
        assert(shape_matches(p, turned));
        assert(move_keeps_shape(v, plain));
        assert(move_keeps_shape(v, turned));
        if moved_view(v, plain) is Some && geometry_admissible(v, box_size) {
            lemma_move_admissible(v, plain, box_size);
        }
        if moved_view(v, turned) is Some && geometry_admissible(v, box_size) {
            lemma_move_admissible(v, turned, box_size);
        }
        let ps = draw_proposals(v, d);
        assert forall|k: int| 0 <= k < ps.len() implies is_geometry_step(v, #[trigger] ps[k]) && (geometry_admissible(
            v,
            box_size,
        ) ==> geometry_admissible(ps[k], box_size)) by {
            let a = move_results(moved_view(v, plain));
            if k < a.len() {
                assert(ps[k] == a[k]);
                assert(moved_view(v, plain) == Some(ps[k]));
            } else {
                assert(p.width != p.height);
                assert(ps[k] == move_results(moved_view(v, turned))[k - a.len()]);
                assert(moved_view(v, turned) == Some(ps[k]));
            }
        }
    }
}

/// Proposes up to `2 * max_neighbors` moves: each draw picks a bin, one of
/// its placements, a target bin and one of that bin's candidate positions,
/// and tries the placement there as it stands and, where it is not square,
/// turned.
pub struct GeometryNeighborhood {
    pub max_neighbors: usize,
}

impl Neighborhood<GeometryProblem> for GeometryNeighborhood {
    open spec fn is_neighbor(&self, problem: GeometryProblem, from: PackingSolution, to: PackingSolution) -> bool {
        is_geometry_step(from@, to@)
    }

    /// At most two proposals per draw; for some sequence of valid draws, one
    /// per round (none where the packing has no bin), the proposals are
    /// exactly what those draws propose, in order.
    open spec fn may_propose(&self, problem: GeometryProblem, from: PackingSolution, list: Seq<PackingSolution>) -> bool {
        &&& list.len() <= 2 * self.max_neighbors
        &&& proposed_by_draws(from@, self.max_neighbors as int, list.map_values(|s: PackingSolution| s@))
    }

    /// Every placement's right and top edges fit in a `u32`.
    open spec fn can_propose(&self, problem: GeometryProblem, solution: PackingSolution) -> bool {
        forall|b: int| 0 <= b < solution@.len() ==> edges_in_range(#[trigger] solution@[b].2)
    }

    fn neighbors(&self, problem: &GeometryProblem, solution: &PackingSolution) -> (r: Vec<PackingSolution>) {
        let mut rng = thread_rng();
        let mut neighbors: Vec<PackingSolution> = Vec::new();
        let ghost mut ds: Seq<(usize, usize, usize, u32, u32)> = Seq::empty();
        let nbins = solution.bins.len();
        if nbins == 0 {
            proof {
                assert(neighbors@.map_values(|s: PackingSolution| s@) =~= all_draw_proposals(solution@, ds));
                assert(proposed_by_draws(solution@, self.max_neighbors as int, neighbors@.map_values(|s: PackingSolution| s@)));
            }
            return neighbors;
        }
        let mut t: usize = 0;
        while t < self.max_neighbors
            invariant
                nbins == solution.bins@.len(),
                nbins > 0,
                t <= self.max_neighbors,
                neighbors@.len() <= 2 * t,
                ds.len() == t,
                forall|k: int| 0 <= k < ds.len() ==> is_geometry_draw(solution@, #[trigger] ds[k]),
                neighbors@.map_values(|s: PackingSolution| s@) == all_draw_proposals(solution@, ds),
                self.can_propose(*problem, *solution),
                forall|k: int|
                    0 <= k < neighbors@.len() ==> self.is_neighbor(*problem, *solution, #[trigger] neighbors@[k]) && (
                    problem.admissible(*solution) ==> problem.admissible(neighbors@[k])),
            decreases self.max_neighbors - t,
        {
            t += 1;
            let from_bin_index = gen_index(&mut rng, nbins);
            let from_bin = &solution.bins[from_bin_index];
            proof {
                assert(solution@[from_bin_index as int].2 == solution.bins@[from_bin_index as int].placements@);
            }
            if from_bin.placements.len() == 0 {
                proof {
                    let d = (from_bin_index, 0usize, 0usize, 0u32, 0u32);
                    let old_ds = ds;
                    ds = ds.push(d);
                    assert(ds.drop_last() =~= old_ds);
                    assert(draw_proposals(solution@, d) =~= Seq::empty());
                    assert(all_draw_proposals(solution@, old_ds) + Seq::<Seq<(usize, u32, Seq<Placement>)>>::empty()
                        =~= all_draw_proposals(solution@, old_ds));
                }
                continue;
            }
            let placement_index = gen_index(&mut rng, from_bin.placements.len());
            let to_bin_index = gen_index(&mut rng, nbins);
            proof {
                assert(solution@[to_bin_index as int].2 == solution.bins@[to_bin_index as int].placements@);
                assert(edges_in_range(solution@[to_bin_index as int].2));
            }
            let positions = candidate_positions(&solution.bins[to_bin_index]);
            proof {
                assert(is_corner_of(solution.bins@[to_bin_index as int].placements@, (0u32, 0u32)));
                assert(positions@.contains((0u32, 0u32)));
            }
            let (x, y) = positions[gen_index(&mut rng, positions.len())];
            let draw = (from_bin_index, placement_index, to_bin_index, x, y);
            let mut proposals = geometry_draw_proposals(solution, draw);
            let ghost base = neighbors@;
            let ghost old_ds = ds;
            proof {
                assert(positions@.contains((x, y)));
                assert(is_geometry_draw(solution@, draw));
                lemma_draw_proposals(solution@, draw, problem.instance.box_size);
                assert(proposals@.len() == draw_proposals(solution@, draw).len());
                ds = ds.push(draw);
                assert(ds.drop_last() =~= old_ds);
            }
            let ghost all = proposals@;
            let m = proposals.len();
            let mut k: usize = 0;
            while k < m
                invariant
                    m == all.len(),
                    m <= 2,
                    k <= m,
                    proposals@ == all.skip(k as int),
                    neighbors@ == base + all.take(k as int),
                decreases m - k,
            {
                let c = proposals.remove(0);
                proof {
                    assert(c == all[k as int]);
                    assert(all.skip(k + 1) =~= all.skip(k as int).drop_first());
                }
                neighbors.push(c);
                proof {
                    assert(all.take(k + 1) =~= all.take(k as int).push(all[k as int]));
                }
                k += 1;
            }
            proof {
                assert(all.take(m as int) =~= all);
                assert forall|j: int| 0 <= j < neighbors@.len() implies self.is_neighbor(
                    *problem,
                    *solution,
                    #[trigger] neighbors@[j],
                ) && (problem.admissible(*solution) ==> problem.admissible(neighbors@[j])) by {
                    if j >= base.len() {
                        let i = j - base.len();
                        assert(neighbors@[j] == all[i]);
                        assert(all.map_values(|s: PackingSolution| s@)[i] == all[i]@);
                    } else {
                        assert(neighbors@[j] == base[j]);
                    }
                }
                assert(neighbors@.map_values(|s: PackingSolution| s@) =~= base.map_values(|s: PackingSolution| s@)
                    + all.map_values(|s: PackingSolution| s@));
            }
        }
        proof {
            assert(ds.len() == self.max_neighbors);
            assert(proposed_by_draws(solution@, self.max_neighbors as int, neighbors@.map_values(|s: PackingSolution| s@)));
        }
        neighbors
    }
}

/// The views of a sequence of packings.
pub open spec fn packing_views(s: Seq<PackingSolution>) -> Seq<Seq<(usize, u32, Seq<Placement>)>> {
    s.map_values(|p: PackingSolution| p@)
}

/// `to` is the first packing of `list` that scores strictly below `from`.
pub open spec fn first_better_packing(
    box_size: u32,
    list: Seq<Seq<(usize, u32, Seq<Placement>)>>,
    from: Seq<(usize, u32, Seq<Placement>)>,
    to: Seq<(usize, u32, Seq<Placement>)>,
) -> bool {
    exists|i: int|
        0 <= i < list.len() && #[trigger] list[i] == to && view_score(list[i], box_size).is_below(view_score(from, box_size))
            && forall|j: int| 0 <= j < i ==> !view_score(#[trigger] list[j], box_size).is_below(view_score(from, box_size))
}

/// The rounds of the geometry search: `lists[k]`, one list per round, is
/// what 20 draws proposed for `history[k]` (see `proposed_by_draws`); each
/// next packing is the first proposal of its round that scores strictly
/// below; where the search stopped early (as many rounds as packings),
/// nothing the last round proposed scores below the last packing.
pub open spec fn is_geometry_trace(
    history: Seq<Seq<(usize, u32, Seq<Placement>)>>,
    lists: Seq<Seq<Seq<(usize, u32, Seq<Placement>)>>>,
    iterations: int,
    box_size: u32,
) -> bool {
    &&& lists.len() == iterations
    &&& forall|k: int| 0 <= k < lists.len() ==> proposed_by_draws(history[k], 20, #[trigger] lists[k])
    &&& forall|k: int| 0 <= k < history.len() - 1 ==> first_better_packing(box_size, #[trigger] lists[k], history[k], history[k + 1])
    &&& (history.len() == iterations && iterations > 0) ==> forall|i: int|
        0 <= i < lists[iterations - 1].len() ==> !view_score(#[trigger] lists[iterations - 1][i], box_size).is_below(
            view_score(history[iterations - 1], box_size),
        )
}

/// Local search over packings by moving single rectangles (20 proposals per
/// round, first improvement taken), from the given start.
pub fn run_geometry_local_search(
    instance: &Instance,
    start_solution: PackingSolution,
    max_iterations: usize,
) -> (r: GeometrySearchResult)
    requires
        geometry_admissible(start_solution@, instance.box_size),
    ensures
        r.history@.len() >= 1,
        r.history@[0]@ == start_solution@,
        forall|k: int| 0 <= k < r.history@.len() - 1 ==> is_geometry_step(#[trigger] r.history@[k]@, r.history@[k + 1]@),
        forall|k: int| 0 <= k < r.history@.len() ==> geometry_admissible(#[trigger] r.history@[k]@, instance.box_size),
        forall|k: int|
            0 <= k < r.history@.len() - 1 ==> spec_evaluate(r.history@[k + 1], instance.box_size).is_below(
                spec_evaluate(#[trigger] r.history@[k], instance.box_size),
            ),
        exists|lists: Seq<Seq<Seq<(usize, u32, Seq<Placement>)>>>|
            #[trigger] is_geometry_trace(packing_views(r.history@), lists, r.iterations as int, instance.box_size),
        r.solution@ == r.history@.last()@,
        r.score == spec_evaluate(r.solution, instance.box_size),
        r.iterations <= max_iterations,
        (r.iterations == max_iterations && r.history@.len() == r.iterations + 1) || r.history@.len() == r.iterations,
        bins_valid(start_solution@, instance.box_size) && distinct_ids(start_solution@) ==> forall|k: int|
            0 <= k < r.history@.len() ==> bins_valid(#[trigger] r.history@[k]@, instance.box_size),
        is_packing_of(instance.rectangles@, instance.box_size, start_solution) && all_rects_positive(instance.rectangles@)
            && distinct_ids(start_solution@) ==> is_packing_of(instance.rectangles@, instance.box_size, r.solution)
            && forall|k: int|
            0 <= k < r.history@.len() ==> is_packing_of(instance.rectangles@, instance.box_size, #[trigger] r.history@[k]),
{
    let ghost start_view = start_solution;
    let problem = GeometryProblem { instance: instance.clone() };
    let neighborhood = GeometryNeighborhood { max_neighbors: 20 };
    let result: GenericLocalSearchResult<PackingSolution, Score> = run_generic_local_search(
        &problem,
        &neighborhood,
        start_solution,
        max_iterations,
    );
    let ghost mut trace_lists: Seq<Seq<Seq<(usize, u32, Seq<Placement>)>>> = Seq::empty();
    proof {
        assert(order_is_specified::<Score>());
        assert(vstd::pervasive::cloned(result.history@.last(), result.solution));
        assert forall|k: int| 0 <= k < result.history@.len() - 1 implies spec_evaluate(result.history@[k + 1], instance.box_size).is_below(
            spec_evaluate(#[trigger] result.history@[k], instance.box_size),
        ) by {
            assert(strictly_below(
                problem.spec_evaluate(result.history@[k + 1]),
                problem.spec_evaluate(result.history@[k]),
            ));
        }
        assert forall|k: int| 0 <= k < result.history@.len() - 1 implies is_geometry_step(#[trigger] result.history@[k]@, result.history@[k + 1]@) by {
            assert(neighborhood.is_neighbor(problem, result.history@[k], result.history@[k + 1]));
        }
        let items = instance.rectangles@;
        if is_packing_of(items, instance.box_size, start_view) && all_rects_positive(items) && distinct_ids(start_view@) {
            let hist = result.history@;
            lemma_packing_by_view(items, instance.box_size, start_view);
            lemma_packing_by_view(items, instance.box_size, hist[0]);
            assert forall|k: int| 0 <= k < hist.len() implies is_packing_of(items, instance.box_size, #[trigger] hist[k]) by {
                lemma_chain_keeps_packing(items, instance.box_size, hist, k);
            }
            lemma_packing_by_view(items, instance.box_size, hist.last());
            lemma_packing_by_view(items, instance.box_size, result.solution);
        }
        if bins_valid(start_view@, instance.box_size) && distinct_ids(start_view@) {
            assert forall|k: int| 0 <= k < result.history@.len() implies bins_valid(
                #[trigger] result.history@[k]@,
                instance.box_size,
            ) by {
                lemma_chain_keeps_valid(instance.box_size, result.history@, k);
            }
        }
        let glists = choose|lists: Seq<Seq<PackingSolution>>|
            #[trigger] is_first_improvement_run(problem, neighborhood, result.history@, lists, result.iterations as int);
        let lists = glists.map_values(|l: Seq<PackingSolution>| l.map_values(|s: PackingSolution| s@));
        let views = packing_views(result.history@);
        let box_size = instance.box_size;
        assert(is_geometry_trace(views, lists, result.iterations as int, box_size)) by {
            assert forall|k: int| 0 <= k < lists.len() implies proposed_by_draws(views[k], 20, #[trigger] lists[k]) by {
                assert(neighborhood.may_propose(problem, result.history@[k], glists[k]));
            }
            assert forall|k: int| 0 <= k < views.len() - 1 implies first_better_packing(
                box_size,
                #[trigger] lists[k],
                views[k],
                views[k + 1],
            ) by {
                assert(takes_first_improving(problem, glists[k], result.history@[k], result.history@[k + 1]));
                let i = choose|i: int|
                    #[trigger] is_first_improving(problem, glists[k], problem.spec_evaluate(result.history@[k]), i)
                        && glists[k][i] == result.history@[k + 1];
                assert(lists[k][i] == views[k + 1]);
                assert forall|j: int| 0 <= j < i implies !view_score(#[trigger] lists[k][j], box_size).is_below(
                    view_score(views[k], box_size),
                ) by {
                    assert(!improves(problem, glists[k][j], problem.spec_evaluate(result.history@[k])));
                    assert(lists[k][j] == glists[k][j]@);
                }
                assert(improves(problem, glists[k][i], problem.spec_evaluate(result.history@[k])));
            }
            if views.len() == result.iterations && result.iterations > 0 {
                let l = result.iterations - 1;
                assert forall|i: int| 0 <= i < lists[l].len() implies !view_score(#[trigger] lists[l][i], box_size).is_below(
                    view_score(views[l], box_size),
                ) by {
                    assert(none_improving(problem, glists[l], problem.spec_evaluate(result.history@[l])));
                    assert(!improves(problem, glists[l][i], problem.spec_evaluate(result.history@[l])));
                    assert(lists[l][i] == glists[l][i]@);
                }
            }
        }
        trace_lists = lists;
    }
    let r = GeometrySearchResult {
        solution: result.solution,
        score: result.score,
        iterations: result.iterations,
        history: result.history,
    };
    proof {
        assert(is_geometry_trace(packing_views(r.history@), trace_lists, r.iterations as int, instance.box_size));
    }
    r
}

/// Taking out one placement takes out the rectangle it stands for.
proof fn lemma_sources_remove(ps: Seq<Placement>, i: int)
    requires
        0 <= i < ps.len(),
    ensures
        sources(ps) =~= sources(ps.remove(i)).insert(source_of(ps[i])),
    decreases ps.len(),
{
    broadcast use vstd::multiset::group_multiset_axioms;
    if i == ps.len() - 1 {
        assert(ps.remove(i) =~= ps.drop_last());
    } else {
        let dl = ps.drop_last();
        lemma_sources_remove(dl, i);
        assert(ps.remove(i).drop_last() =~= dl.remove(i));
        assert(ps.remove(i).last() == ps.last());
        assert(dl[i] == ps[i]);
    }
}

/// Taking out one placement of one group takes out the rectangle it stands
/// for.
pub(crate) proof fn lemma_groups_remove(pss: Seq<Seq<Placement>>, j: int, i: int)
    requires
        0 <= j < pss.len(),
        0 <= i < pss[j].len(),
    ensures
        groups_sources(pss) =~= groups_sources(pss.update(j, pss[j].remove(i))).insert(source_of(pss[j][i])),
    decreases pss.len(),
{
    broadcast use vstd::multiset::group_multiset_axioms;
    let nw = pss.update(j, pss[j].remove(i));
    if j == pss.len() - 1 {
        assert(nw.drop_last() =~= pss.drop_last());
        lemma_sources_remove(pss[j], i);
    } else {
        lemma_groups_remove(pss.drop_last(), j, i);
        assert(nw.drop_last() =~= pss.drop_last().update(j, pss[j].remove(i)));
        assert(pss.drop_last()[j] == pss[j]);
    }
}

/// Dropping empty bins keeps the rectangles placed.
pub(crate) proof fn lemma_groups_nonempty(v: Seq<(usize, u32, Seq<Placement>)>)
    ensures
        groups_sources(view_groups(nonempty_bins(v))) =~= groups_sources(view_groups(v)),
    decreases v.len(),
{
    broadcast use vstd::multiset::group_multiset_axioms;
    reveal(Seq::filter);
    if v.len() > 0 {
        let d = v.drop_last();
        lemma_groups_nonempty(d);
        assert(view_groups(v).drop_last() =~= view_groups(d));
        assert(view_groups(v).last() == v.last().2);
        let nd = nonempty_bins(d);
        if v.last().2.len() > 0 {
            assert(nonempty_bins(v) == nd.push(v.last()));
            assert(view_groups(nonempty_bins(v)).drop_last() =~= view_groups(nd));
            assert(view_groups(nonempty_bins(v)).last() == v.last().2);
        } else {
            assert(nonempty_bins(v) == nd);
            assert(v.last().2 =~= Seq::<Placement>::empty());
            assert(sources(v.last().2) =~= vstd::multiset::Multiset::<(usize, u32, u32)>::empty());
        }
    }
}

/// Every placement of every bin carries an identifier of its own.
pub open spec fn distinct_ids(v: Seq<(usize, u32, Seq<Placement>)>) -> bool {
    forall|b1: int, k1: int, b2: int, k2: int|
        0 <= b1 < v.len() && 0 <= k1 < v[b1].2.len() && 0 <= b2 < v.len() && 0 <= k2 < v[b2].2.len() && (b1 != b2
            || k1 != k2) ==> (#[trigger] v[b1].2[k1]).rect_id != (#[trigger] v[b2].2[k2]).rect_id
}

/// Every bin has side `box_size` and is a proper packing of it.
pub open spec fn bins_valid(v: Seq<(usize, u32, Seq<Placement>)>, box_size: u32) -> bool {
    forall|b: int| 0 <= b < v.len() ==> (#[trigger] v[b]).1 == box_size && valid_placements(v[b].2, box_size as int)
}

/// Bin `b` carries identifier `b`, and no bin is empty.
pub open spec fn numbered_nonempty(v: Seq<(usize, u32, Seq<Placement>)>) -> bool {
    forall|b: int| 0 <= b < v.len() ==> (#[trigger] v[b]).0 == b && v[b].2.len() > 0
}

proof fn lemma_remove_valid(ps: Seq<Placement>, i: int, size: int)
    requires
        valid_placements(ps, size),
        0 <= i < ps.len(),
    ensures
        valid_placements(ps.remove(i), size),
{
    let q = ps.remove(i);
    assert forall|a: int, b: int| 0 <= a < q.len() && 0 <= b < q.len() && a != b implies !overlaps(
        #[trigger] q[a],
        #[trigger] q[b],
    ) by {
        let a1 = if a < i { a } else { a + 1 };
        let b1 = if b < i { b } else { b + 1 };
        assert(q[a] == ps[a1]);
        assert(q[b] == ps[b1]);
    }
    assert forall|a: int| 0 <= a < q.len() implies crate::bin::inside(#[trigger] q[a], size) && q[a].width > 0
        && q[a].height > 0 by {
        let a1 = if a < i { a } else { a + 1 };
        assert(q[a] == ps[a1]);
    }
}


/// A geometry step keeps every bin a proper packing of a box, keeps the
/// identifiers distinct, leaves the bins numbered in order and none empty,
/// and places the same rectangles (turned or not) as before.
pub proof fn lemma_geometry_step_valid(
    v: Seq<(usize, u32, Seq<Placement>)>,
    w: Seq<(usize, u32, Seq<Placement>)>,
    box_size: u32,
)
    requires
        is_geometry_step(v, w),
        bins_valid(v, box_size),
        distinct_ids(v),
        v.len() <= usize::MAX,
    ensures
        bins_valid(w, box_size),
        distinct_ids(w),
        numbered_nonempty(w),
        groups_sources(view_groups(w)) == groups_sources(view_groups(v)),
{
    broadcast use vstd::multiset::group_multiset_axioms;
    let mv = choose|mv: GeometryMove| #[trigger] moved_view(v, mv) == Some(w) && move_keeps_shape(v, mv);
    let f = mv.from_bin as int;
    let t = mv.to_bin as int;
    let from = v[f];
    let i = first_index_of_id(from.2, mv.rect_id);
    assert(crate::bin::is_first_with_id(from.2, mv.rect_id, i)) by {
        let i0 = choose|i0: int| 0 <= i0 < from.2.len() && (#[trigger] from.2[i0]).rect_id == mv.rect_id;
        lemma_first_witness(from.2, mv.rect_id, i0);
    }
    let removed = from.2[i];
    let k0 = choose|k: int| 0 <= k < v[f].2.len() && #[trigger] shape_matches(v[f].2[k], mv);
    assert(k0 == i) by {
        if k0 != i {
            assert(v[f].2[k0].rect_id != v[f].2[i].rect_id);
        }
    }
    let v1 = v.update(f, (from.0, from.1, from.2.remove(i)));
    let to = v1[t];
    let p = Placement {
        rect_id: removed.rect_id,
        x: mv.new_x,
        y: mv.new_y,
        width: mv.new_width,
        height: mv.new_height,
        rotated: mv.rotated,
    };
    let v2 = v1.update(t, (to.0, to.1, to.2.push(p)));
    let ne = nonempty_bins(v2);
    assert(w == renumbered(ne));
    // v1: still valid, distinct, and no placement carries the moved identifier
    assert forall|b: int| 0 <= b < v1.len() implies (#[trigger] v1[b]).1 == box_size && valid_placements(
        v1[b].2,
        box_size as int,
    ) by {
        if b == f {
            lemma_remove_valid(from.2, i, box_size as int);
        }
    }
    assert forall|b: int, k: int| 0 <= b < v1.len() && 0 <= k < v1[b].2.len() implies (#[trigger] v1[b].2[k])
        == v[b].2[if b == f && k >= i { k + 1 } else { k }] by {}
    assert forall|b: int, k: int| 0 <= b < v1.len() && 0 <= k < v1[b].2.len() implies (#[trigger] v1[b].2[k]).rect_id
        != mv.rect_id by {
        let k1 = if b == f && k >= i { k + 1 } else { k };
        assert(v1[b].2[k] == v[b].2[k1]);
        assert(b != f || k1 != i);
        assert(v[b].2[k1].rect_id != v[f].2[i].rect_id);
    }
    // v2: the moved placement fits among the others of its new bin
    assert(fits_ignoring(to.2, to.1, mv.new_width, mv.new_height, mv.new_x, mv.new_y, mv.rect_id));
    assert forall|k: int| 0 <= k < to.2.len() implies !overlaps(#[trigger] to.2[k], p) by {
        assert(to.2[k] == v1[t].2[k]);
        assert(to.2[k].rect_id != mv.rect_id);
        assert(!overlaps(to.2[k], probe(mv.rect_id, mv.new_x, mv.new_y, mv.new_width, mv.new_height)));
    }
    assert(v1[t].1 == box_size);
    crate::bin::lemma_push_valid(to.2, p, box_size as int);
    assert forall|b: int| 0 <= b < v2.len() implies (#[trigger] v2[b]).1 == box_size && valid_placements(
        v2[b].2,
        box_size as int,
    ) by {
        if b != t {
            assert(v2[b] == v1[b]);
        }
    }
    assert forall|b1: int, k1: int, b2: int, k2: int|
        0 <= b1 < v2.len() && 0 <= k1 < v2[b1].2.len() && 0 <= b2 < v2.len() && 0 <= k2 < v2[b2].2.len() && (b1
            != b2 || k1 != k2) implies (#[trigger] v2[b1].2[k1]).rect_id != (#[trigger] v2[b2].2[k2]).rect_id by {
        let new1 = b1 == t && k1 == to.2.len();
        let new2 = b2 == t && k2 == to.2.len();
        if new1 {
            assert(v2[b2].2[k2] == v1[b2].2[k2]);
        } else if new2 {
            assert(v2[b1].2[k1] == v1[b1].2[k1]);
        } else {
            assert(v2[b1].2[k1] == v1[b1].2[k1]);
            assert(v2[b2].2[k2] == v1[b2].2[k2]);
            let m1 = if b1 == f && k1 >= i { k1 + 1 } else { k1 };
            let m2 = if b2 == f && k2 >= i { k2 + 1 } else { k2 };
            assert(v1[b1].2[k1] == v[b1].2[m1]);
            assert(v1[b2].2[k2] == v[b2].2[m2]);
        }
    }
    // sources: the moved placement stands for the same rectangle
    assert(source_of(p) == source_of(removed));
    assert(view_groups(v1) =~= view_groups(v).update(f, from.2.remove(i)));
    lemma_groups_remove(view_groups(v), f, i);
    assert(view_groups(v2) =~= view_groups(v1).update(t, to.2.push(p)));
    lemma_groups_push(view_groups(v1), t, p);
    assert(groups_sources(view_groups(v2)) =~= groups_sources(view_groups(v)));
    // dropping empty bins and numbering afresh
    lemma_groups_nonempty(v2);
    lemma_nonempty_bins(v2);
    assert(view_groups(w) =~= view_groups(ne));
    assert forall|b: int| 0 <= b < w.len() implies (#[trigger] w[b]).1 == box_size && valid_placements(
        w[b].2,
        box_size as int,
    ) by {
        let c = choose|c: int| 0 <= c < v2.len() && v2[c] == #[trigger] ne[b];
        assert(w[b].2 == v2[c].2);
    }
    lemma_nonempty_distinct_ids(v2);
    assert forall|b1: int, k1: int, b2: int, k2: int|
        0 <= b1 < w.len() && 0 <= k1 < w[b1].2.len() && 0 <= b2 < w.len() && 0 <= k2 < w[b2].2.len() && (b1 != b2
            || k1 != k2) implies (#[trigger] w[b1].2[k1]).rect_id != (#[trigger] w[b2].2[k2]).rect_id by {
        assert(w[b1].2[k1] == ne[b1].2[k1]);
        assert(w[b2].2[k2] == ne[b2].2[k2]);
    }
}

/// Dropping empty bins keeps the identifiers distinct.
pub(crate) proof fn lemma_nonempty_distinct_ids(v: Seq<(usize, u32, Seq<Placement>)>)
    requires
        distinct_ids(v),
    ensures
        distinct_ids(nonempty_bins(v)),
    decreases v.len(),
{
    reveal(Seq::filter);
    if v.len() > 0 {
        let d = v.drop_last();
        assert forall|b1: int, k1: int, b2: int, k2: int|
            0 <= b1 < d.len() && 0 <= k1 < d[b1].2.len() && 0 <= b2 < d.len() && 0 <= k2 < d[b2].2.len() && (b1
                != b2 || k1 != k2) implies (#[trigger] d[b1].2[k1]).rect_id != (#[trigger] d[b2].2[k2]).rect_id by {
            assert(d[b1] == v[b1]);
            assert(d[b2] == v[b2]);
        }
        lemma_nonempty_distinct_ids(d);
        lemma_nonempty_bins(d);
        let nd = nonempty_bins(d);
        let last = v.last();
        if last.2.len() > 0 {
            let n = nonempty_bins(v);
            assert(n == nd.push(last));
            assert forall|b1: int, k1: int, b2: int, k2: int|
                0 <= b1 < n.len() && 0 <= k1 < n[b1].2.len() && 0 <= b2 < n.len() && 0 <= k2 < n[b2].2.len() && (b1
                    != b2 || k1 != k2) implies (#[trigger] n[b1].2[k1]).rect_id != (#[trigger] n[b2].2[k2]).rect_id by {
                if b1 == nd.len() && b2 == nd.len() {
                    assert(n[b1].2[k1] == v[v.len() - 1].2[k1]);
                    assert(n[b2].2[k2] == v[v.len() - 1].2[k2]);
                } else if b1 == nd.len() {
                    let c = choose|c: int| 0 <= c < d.len() && d[c] == #[trigger] nd[b2];
                    assert(n[b2].2[k2] == v[c].2[k2]);
                    assert(n[b1].2[k1] == v[v.len() - 1].2[k1]);
                } else if b2 == nd.len() {
                    let c = choose|c: int| 0 <= c < d.len() && d[c] == #[trigger] nd[b1];
                    assert(n[b1].2[k1] == v[c].2[k1]);
                    assert(n[b2].2[k2] == v[v.len() - 1].2[k2]);
                } else {
                    assert(n[b1] == nd[b1]);
                    assert(n[b2] == nd[b2]);
                }
            }
        } else {
            assert(nonempty_bins(v) == nd);
        }
    }
}

/// With rectangles of positive size, being a packing of them depends on the
/// view alone: bins numbered in order, none empty, each a proper packing of
/// a box, together placing the rectangles that have room in an empty box.
pub proof fn lemma_packing_by_view(items: Seq<Rectangle>, box_size: u32, s: PackingSolution)
    requires
        all_rects_positive(items),
    ensures
        is_packing_of(items, box_size, s) <==> (numbered_nonempty(s@) && bins_valid(s@, box_size) && groups_sources(
            view_groups(s@),
        ) == fitting_keys(items, box_size)),
{
    assert(bin_groups(s.bins@) =~= view_groups(s@));
    if is_packing_of(items, box_size, s) {
        assert forall|b: int| 0 <= b < s@.len() implies (#[trigger] s@[b]).0 == b && s@[b].2.len() > 0 by {
            assert(s@[b] == bin_view(s.bins@[b]));
        }
        assert forall|b: int| 0 <= b < s@.len() implies (#[trigger] s@[b]).1 == box_size && valid_placements(
            s@[b].2,
            box_size as int,
        ) by {
            assert(s@[b] == bin_view(s.bins@[b]));
        }
    }
    if numbered_nonempty(s@) && bins_valid(s@, box_size) && groups_sources(view_groups(s@)) == fitting_keys(items, box_size) {
        assert forall|b: int| 0 <= b < s.bins@.len() implies (#[trigger] s.bins@[b]).id == b && s.bins@[b].size == box_size
            && s.bins@[b].placements@.len() > 0 by {
            assert(s@[b] == bin_view(s.bins@[b]));
        }
        assert forall|b: int| 0 <= b < s.bins@.len() implies valid_placements(
            #[trigger] s.bins@[b].placements@,
            box_size as int,
        ) by {
            assert(s@[b] == bin_view(s.bins@[b]));
        }
    }
}

/// Law: a geometry step from a packing of positive rectangles whose
/// placements carry distinct identifiers gives again such a packing.
pub proof fn lemma_geometry_step_keeps_packing(items: Seq<Rectangle>, box_size: u32, s: PackingSolution, t: PackingSolution)
    requires
        is_packing_of(items, box_size, s),
        all_rects_positive(items),
        distinct_ids(s@),
        is_geometry_step(s@, t@),
    ensures
        is_packing_of(items, box_size, t),
        distinct_ids(t@),
{
    lemma_packing_by_view(items, box_size, s);
    lemma_packing_by_view(items, box_size, t);
    assert(s.bins.len() == s.bins@.len());
    assert(s@.len() <= usize::MAX);
    lemma_geometry_step_valid(s@, t@, box_size);
}

proof fn lemma_chain_keeps_packing(items: Seq<Rectangle>, box_size: u32, hist: Seq<PackingSolution>, k: int)
    requires
        0 <= k < hist.len(),
        is_packing_of(items, box_size, hist[0]),
        all_rects_positive(items),
        distinct_ids(hist[0]@),
        forall|j: int| 0 <= j < hist.len() - 1 ==> is_geometry_step(#[trigger] hist[j]@, hist[j + 1]@),
    ensures
        is_packing_of(items, box_size, hist[k]),
        distinct_ids(hist[k]@),
    decreases k,
{
    if k > 0 {
        lemma_chain_keeps_packing(items, box_size, hist, k - 1);
        lemma_geometry_step_keeps_packing(items, box_size, hist[k - 1], hist[k]);
    }
}

/// Along a chain of geometry steps from a packing whose bins all have side
/// `box_size` and hold placements inside the box without overlap, and whose
/// identifiers are distinct, every packing keeps both.
proof fn lemma_chain_keeps_valid(box_size: u32, hist: Seq<PackingSolution>, k: int)
    requires
        0 <= k < hist.len(),
        bins_valid(hist[0]@, box_size),
        distinct_ids(hist[0]@),
        forall|j: int| 0 <= j < hist.len() - 1 ==> is_geometry_step(#[trigger] hist[j]@, hist[j + 1]@),
    ensures
        bins_valid(hist[k]@, box_size),
        distinct_ids(hist[k]@),
    decreases k,
{
    if k > 0 {
        lemma_chain_keeps_valid(box_size, hist, k - 1);
        let s = hist[k - 1];
        assert(s.bins.len() == s.bins@.len());
        assert(s@.len() <= usize::MAX);
        lemma_geometry_step_valid(s@, hist[k]@, box_size);
    }
}

/// Whether the geometry search can work on the packing (see
/// `geometry_admissible`).
pub fn is_geometry_admissible(solution: &PackingSolution, box_size: u32) -> (r: bool)
    ensures
        r == geometry_admissible(solution@, box_size),
{
    let ghost v = solution@;
    let nb = solution.bins.len();
    let mut b: usize = 0;
    while b < nb
        invariant
            nb == v.len(),
            v == solution@,
            b <= nb,
            forall|c: int| 0 <= c < b ==> edges_in_range(#[trigger] v[c].2),
        decreases nb - b,
    {
        let ps = &solution.bins[b].placements;
        let ghost s = ps@;
        let n = ps.len();
        let mut k: usize = 0;
        proof {
            assert(s == v[b as int].2);
        }
        while k < n
            invariant
                n == s.len(),
                s == ps@,
                s == v[b as int].2,
                b < nb,
                nb == v.len(),
                v == solution@,
                k <= n,
                forall|m: int| 0 <= m < k ==> (#[trigger] s[m]).x + s[m].width <= u32::MAX && s[m].y + s[m].height
                    <= u32::MAX,
            decreases n - k,
        {
            let p = ps[k];
            if p.x as u64 + p.width as u64 > u32::MAX as u64 || p.y as u64 + p.height as u64 > u32::MAX as u64 {
                proof {
                    assert(p == s[k as int]);
                    assert(!edges_in_range(v[b as int].2));
                    assert(!geometry_admissible(v, box_size));
                }
                return false;
            }
            k += 1;
        }
        b += 1;
    }
    true
}

} // verus!
