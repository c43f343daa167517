use vstd::prelude::*;

use crate::bin::{Bin, Placement, has_id, first_index_of_id, is_first_with_id, lemma_first_index_unique};
use crate::evaluator::{Score, score_packing, spec_evaluate, view_groups, view_score, capped, saturated};
use crate::greedy::{rects_positive, fitting_keys, rect_key, lemma_in_groups, lemma_fitting_member, groups_sources, source_of, lemma_groups_push, PackingSolution, GreedyStrategy, run_greedy, strategy_order, groups_count, pack_rectangles, packed_view, is_packing_of, all_rects_positive, valid_solution};
use crate::rect_order::{RectOrder, is_stable_sort_of, sort_rectangles};
use crate::rectangle::Rectangle;
use crate::bin::{overlaps, pairwise_disjoint, inside, valid_placements};
use crate::rect_order::{areas_in_range, areas_fit};
use crate::instance::Instance;
use crate::random::{gen_index, gen_ratio, shuffle_positions};
use rand::rngs::ThreadRng;
use crate::local_search_geometry::{placement_move, point_lt, bins_valid, distinct_ids, numbered_nonempty, lemma_groups_remove, lemma_groups_nonempty, lemma_nonempty_distinct_ids, lemma_first_witness, lemma_nonempty_bins, GeometryMove, move_keeps_shape, shape_matches, edges_in_range, strictly_sorted, insert_point, nonempty_bins, renumbered, retain_nonempty, renumber_bins};

verus! {

/// The outcome of the overlap-relaxation search: the final packing and its
/// score, the rounds performed, and each new best overlap-free packing.
#[derive(Debug)]
pub struct OverlapResult {
    pub solution: PackingSolution,
    pub score: Score,
    pub iterations: usize,
    pub history: Vec<PackingSolution>,
}

impl Clone for OverlapResult {
    fn clone(&self) -> (r: Self)
        ensures
            r.solution@ == self.solution@,
            r.score == self.score,
            r.iterations == self.iterations,
            r.history@.len() == self.history@.len(),
            forall|k: int| 0 <= k < r.history@.len() ==> (#[trigger] r.history@[k])@ == self.history@[k]@,
    {
        let n = self.history.len();
        let mut history: Vec<PackingSolution> = Vec::new();
        let mut k: usize = 0;
        while k < n
            invariant
                n == self.history@.len(),
                k <= n,
                history@.len() == k,
                forall|j: int| 0 <= j < k ==> (#[trigger] history@[j])@ == self.history@[j]@,
            decreases n - k,
        {
            history.push(self.history[k].clone());
            k += 1;
        }
        OverlapResult { solution: self.solution.clone(), score: self.score, iterations: self.iterations, history }
    }
}

/// The area shared by two placements (0 where they do not overlap).
pub open spec fn overlap_area(a: Placement, b: Placement) -> int {
    let x_left = if a.x >= b.x { a.x as int } else { b.x as int };
    let y_top = if a.y >= b.y { a.y as int } else { b.y as int };
    let x_right = if a.x + a.width <= b.x + b.width { a.x + a.width } else { b.x + b.width };
    let y_bottom = if a.y + a.height <= b.y + b.height { a.y + a.height } else { b.y + b.height };
    if x_right <= x_left || y_bottom <= y_top {
        0
    } else {
        (x_right - x_left) * (y_bottom - y_top)
    }
}

/// The placement lies within the square of side `size`.
pub open spec fn within(p: Placement, size: u32) -> bool {
    p.x + p.width <= size && p.y + p.height <= size
}

/// Both placements lie within the square of side `size`, so their shared
/// area is at most `size * size`.
proof fn lemma_overlap_area_bound(a: Placement, b: Placement, size: u32)
    requires
        within(a, size),
        within(b, size),
    ensures
        0 <= overlap_area(a, b) <= size * size,
{
    let x_left = if a.x >= b.x { a.x as int } else { b.x as int };
    let y_top = if a.y >= b.y { a.y as int } else { b.y as int };
    let x_right = if a.x + a.width <= b.x + b.width { a.x + a.width } else { b.x + b.width };
    let y_bottom = if a.y + a.height <= b.y + b.height { a.y + a.height } else { b.y + b.height };
    if !(x_right <= x_left || y_bottom <= y_top) {
        assert((x_right - x_left) * (y_bottom - y_top) <= size * size) by (nonlinear_arith)
            requires
                0 < x_right - x_left <= size,
                0 < y_bottom - y_top <= size,
        ;
        assert((x_right - x_left) * (y_bottom - y_top) >= 0) by (nonlinear_arith)
            requires
                0 < x_right - x_left,
                0 < y_bottom - y_top,
        ;
    } else {
        assert(size * size >= 0) by (nonlinear_arith);
    }
}

/// The area shared by two placements.
fn pair_overlap_area(a: &Placement, b: &Placement) -> (r: u64)
    requires
        a.x + a.width <= u32::MAX,
        a.y + a.height <= u32::MAX,
        b.x + b.width <= u32::MAX,
        b.y + b.height <= u32::MAX,
    ensures
        r == overlap_area(*a, *b),
{
    let x_left = if a.x >= b.x { a.x } else { b.x };
    let y_top = if a.y >= b.y { a.y } else { b.y };
    let x_right = if a.x + a.width <= b.x + b.width { a.x + a.width } else { b.x + b.width };
    let y_bottom = if a.y + a.height <= b.y + b.height { a.y + a.height } else { b.y + b.height };
    if x_right <= x_left || y_bottom <= y_top {
        0
    } else {
        let w = (x_right - x_left) as u64;
        let h = (y_bottom - y_top) as u64;
        assert(w * h <= u64::MAX) by (nonlinear_arith)
            requires
                w <= u32::MAX,
                h <= u32::MAX,
        ;
        w * h
    }
}

/// The overlap of `ps[i]` with each of `ps[j..]`, summed.
pub open spec fn row_overlap(ps: Seq<Placement>, i: int, j: int) -> int
    decreases ps.len() - j,
{
    if j < 0 || j >= ps.len() {
        0
    } else {
        overlap_area(ps[i], ps[j]) + row_overlap(ps, i, j + 1)
    }
}

/// The overlap of every pair `i < j` of `ps` with `i` from `i` on, summed.
pub open spec fn rows_overlap(ps: Seq<Placement>, i: int) -> int
    decreases ps.len() - i,
{
    if i < 0 || i >= ps.len() {
        0
    } else {
        row_overlap(ps, i, i + 1) + rows_overlap(ps, i + 1)
    }
}

/// The overlap of all pairs of placements within each bin from `b` on.
pub open spec fn bins_overlap(pss: Seq<Seq<Placement>>, b: int) -> int
    decreases pss.len() - b,
{
    if b < 0 || b >= pss.len() {
        0
    } else {
        rows_overlap(pss[b], 0) + bins_overlap(pss, b + 1)
    }
}

/// The total area shared by pairs of placements in the same bin.
pub open spec fn spec_total_overlap(v: Seq<(usize, u32, Seq<Placement>)>) -> int {
    bins_overlap(view_groups(v), 0)
}

/// All placements lie within boxes of side `size`.
pub open spec fn all_within(v: Seq<(usize, u32, Seq<Placement>)>, size: u32) -> bool {
    forall|b: int, k: int| 0 <= b < v.len() && 0 <= k < v[b].2.len() ==> within(#[trigger] v[b].2[k], size)
}

proof fn lemma_row_bound(ps: Seq<Placement>, i: int, j: int, size: u32)
    requires
        0 <= i < ps.len(),
        0 <= j <= ps.len(),
        forall|k: int| 0 <= k < ps.len() ==> within(#[trigger] ps[k], size),
    ensures
        0 <= row_overlap(ps, i, j) <= (ps.len() - j) * (size * size),
    decreases ps.len() - j,
{
    if j < ps.len() {
        lemma_row_bound(ps, i, j + 1, size);
        lemma_overlap_area_bound(ps[i], ps[j], size);
        assert((ps.len() - j - 1) * (size * size) + size * size == (ps.len() - j) * (size * size)) by (nonlinear_arith);
    }
}

proof fn lemma_rows_bound(ps: Seq<Placement>, i: int, size: u32)
    requires
        0 <= i <= ps.len(),
        forall|k: int| 0 <= k < ps.len() ==> within(#[trigger] ps[k], size),
    ensures
        0 <= rows_overlap(ps, i) <= (ps.len() - i) * ps.len() * (size * size),
    decreases ps.len() - i,
{
    if i < ps.len() {
        lemma_rows_bound(ps, i + 1, size);
        lemma_row_bound(ps, i, i + 1, size);
        let n = ps.len() as int;
        let s2 = size * size;
        assert(size * size >= 0) by (nonlinear_arith);
        assert((n - i - 1) * s2 + (n - i - 1) * n * s2 <= (n - i) * n * s2) by (nonlinear_arith)
            requires
                0 <= i < n,
                s2 >= 0,
        ;
    }
}

proof fn lemma_bins_bound(pss: Seq<Seq<Placement>>, b: int, size: u32)
    requires
        0 <= b <= pss.len(),
        forall|c: int, k: int| 0 <= c < pss.len() && 0 <= k < pss[c].len() ==> within(#[trigger] pss[c][k], size),
    ensures
        0 <= bins_overlap(pss, b) <= groups_count(pss.subrange(b, pss.len() as int)) * groups_count(
            pss.subrange(b, pss.len() as int),
        ) * (size * size),
        groups_count(pss.subrange(b, pss.len() as int)) >= 0,
    decreases pss.len() - b,
{
    let s2 = size * size;
    assert(size * size >= 0) by (nonlinear_arith);
    let tail = pss.subrange(b, pss.len() as int);
    if b < pss.len() {
        lemma_bins_bound(pss, b + 1, size);
        let rest = pss.subrange(b + 1, pss.len() as int);
        assert forall|k: int| 0 <= k < pss[b].len() implies within(#[trigger] pss[b][k], size) by {}
        lemma_rows_bound(pss[b], 0, size);
        lemma_groups_count_front(tail);
        assert(tail.drop_first() =~= rest);
        assert(tail[0] == pss[b]);
        let x = pss[b].len() as int;
        let r = groups_count(rest);
        assert(x * x * s2 + r * r * s2 <= (x + r) * (x + r) * s2) by (nonlinear_arith)
            requires
                x >= 0,
                r >= 0,
                s2 >= 0,
        ;
    } else {
        assert(tail =~= Seq::<Seq<Placement>>::empty());
    }
}

/// `groups_count` taken from the front.
proof fn lemma_groups_count_front(pss: Seq<Seq<Placement>>)
    requires
        pss.len() > 0,
    ensures
        groups_count(pss) == pss[0].len() + groups_count(pss.drop_first()),
    decreases pss.len(),
{
    if pss.len() > 1 {
        lemma_groups_count_front(pss.drop_last());
        assert(pss.drop_last().drop_first() =~= pss.drop_first().drop_last());
        assert(pss.drop_first().last() == pss.last());
    } else {
        assert(pss.drop_first() =~= Seq::<Seq<Placement>>::empty());
        assert(pss.drop_last() =~= Seq::<Seq<Placement>>::empty());
    }
}

/// With `n` placements in all, each within a box of side `size`, the total
/// overlap is at most `n * n * size * size`.
pub proof fn lemma_total_overlap_bound(v: Seq<(usize, u32, Seq<Placement>)>, size: u32)
    requires
        all_within(v, size),
    ensures
        0 <= spec_total_overlap(v) <= groups_count(view_groups(v)) * groups_count(view_groups(v)) * (size * size),
{
    let pss = view_groups(v);
    assert forall|c: int, k: int| 0 <= c < pss.len() && 0 <= k < pss[c].len() implies within(#[trigger] pss[c][k], size) by {
        assert(pss[c] == v[c].2);
    }
    lemma_bins_bound(pss, 0, size);
    assert(pss.subrange(0, pss.len() as int) =~= pss);
}

/// Shared areas are never negative.
proof fn lemma_overlap_nonneg(a: Placement, b: Placement)
    ensures
        overlap_area(a, b) >= 0,
{
    let x_left = if a.x >= b.x { a.x as int } else { b.x as int };
    let y_top = if a.y >= b.y { a.y as int } else { b.y as int };
    let x_right = if a.x + a.width <= b.x + b.width { a.x + a.width } else { b.x + b.width };
    let y_bottom = if a.y + a.height <= b.y + b.height { a.y + a.height } else { b.y + b.height };
    if !(x_right <= x_left || y_bottom <= y_top) {
        assert((x_right - x_left) * (y_bottom - y_top) >= 0) by (nonlinear_arith)
            requires
                0 < x_right - x_left,
                0 < y_bottom - y_top,
        ;
    }
}

proof fn lemma_row_nonneg(s: Seq<Placement>, i: int, c: int)
    ensures
        row_overlap(s, i, c) >= 0,
    decreases s.len() - c,
{
    if 0 <= c < s.len() {
        lemma_row_nonneg(s, i, c + 1);
        lemma_overlap_nonneg(s[i], s[c]);
    }
}

proof fn lemma_rows_nonneg(s: Seq<Placement>, i: int)
    ensures
        rows_overlap(s, i) >= 0,
    decreases s.len() - i,
{
    if 0 <= i < s.len() {
        lemma_rows_nonneg(s, i + 1);
        lemma_row_nonneg(s, i, i + 1);
    }
}

proof fn lemma_bins_nonneg(pss: Seq<Seq<Placement>>, b: int)
    ensures
        bins_overlap(pss, b) >= 0,
    decreases pss.len() - b,
{
    if 0 <= b < pss.len() {
        lemma_bins_nonneg(pss, b + 1);
        lemma_rows_nonneg(pss[b], 0);
    }
}

/// The total area shared by pairs of placements in the same bin.
fn total_overlap_area(solution: &PackingSolution) -> (r: u128)
    requires
        forall|b: int| 0 <= b < solution@.len() ==> crate::local_search_geometry::edges_in_range(#[trigger] solution@[b].2),
    ensures
        r == saturated(spec_total_overlap(solution@)),
{
    let ghost pss = view_groups(solution@);
    let nb = solution.bins.len();
    let mut total: u128 = 0;
    let mut b: usize = 0;
    while b < nb
        invariant
            nb == solution.bins@.len(),
            pss == view_groups(solution@),
            b <= nb,
            forall|c: int| 0 <= c < solution@.len() ==> crate::local_search_geometry::edges_in_range(#[trigger] solution@[c].2),
            total == saturated(bins_overlap(pss, 0) - bins_overlap(pss, b as int)),
            bins_overlap(pss, 0) - bins_overlap(pss, b as int) >= 0,
        decreases nb - b,
    {
        let ps = &solution.bins[b].placements;
        let ghost s = ps@;
        proof {
            assert(s == pss[b as int]);
            assert(s == solution@[b as int].2);
            lemma_bins_nonneg(pss, b + 1);
        }
        let n = ps.len();
        let mut i: usize = 0;
        proof {
            lemma_rows_nonneg(s, 0);
        }
        while i < n
            invariant
                n == s.len(),
                s == ps@,
                i <= n,
                crate::local_search_geometry::edges_in_range(s),
                total == saturated(bins_overlap(pss, 0) - rows_overlap(s, i as int) - bins_overlap(pss, b + 1)),
                bins_overlap(pss, 0) - rows_overlap(s, i as int) - bins_overlap(pss, b + 1) >= 0,
                rows_overlap(s, i as int) >= 0,
                bins_overlap(pss, b + 1) >= 0,
            decreases n - i,
        {
            let mut j: usize = i + 1;
            proof {
                lemma_rows_nonneg(s, i + 1);
                lemma_row_nonneg(s, i as int, i + 1);
            }
            while j < n
                invariant
                    n == s.len(),
                    s == ps@,
                    i < n,
                    i + 1 <= j <= n,
                    crate::local_search_geometry::edges_in_range(s),
                    total == saturated(bins_overlap(pss, 0) - row_overlap(s, i as int, j as int) - rows_overlap(s, i + 1)
                        - bins_overlap(pss, b + 1)),
                    bins_overlap(pss, 0) - row_overlap(s, i as int, j as int) - rows_overlap(s, i + 1) - bins_overlap(pss, b + 1)
                        >= 0,
                    row_overlap(s, i as int, j as int) >= 0,
                    bins_overlap(pss, b + 1) >= 0,
                    rows_overlap(s, i + 1) >= 0,
                decreases n - j,
            {
                proof {
                    lemma_overlap_nonneg(s[i as int], s[j as int]);
                    lemma_row_nonneg(s, i as int, j + 1);
                }
                total = total.saturating_add(pair_overlap_area(&ps[i], &ps[j]) as u128);
                j += 1;
            }
            i += 1;
        }
        b += 1;
    }
    total
}

/// Some two placements in a bin share area.
fn overlaps_exist(solution: &PackingSolution) -> (r: bool)
    requires
        forall|b: int| 0 <= b < solution@.len() ==> edges_in_range(#[trigger] solution@[b].2),
    ensures
        r == (spec_total_overlap(solution@) > 0),
{
    total_overlap_area(solution) > 0
}

/// `q` is one of the positions tried in bin `bin_index`: the origin, the
/// points `(box_size / 2, 0)` and `(0, box_size / 2)`, and for each placement
/// of the bin its position and the points just right of it and just above it.
pub open spec fn is_overlap_candidate(v: Seq<(usize, u32, Seq<Placement>)>, bin_index: int, box_size: u32, q: (u32, u32)) -> bool {
    ||| q == (0u32, 0u32)
    ||| q == ((box_size / 2) as u32, 0u32)
    ||| q == (0u32, (box_size / 2) as u32)
    ||| (0 <= bin_index < v.len() && exists|k: int|
        0 <= k < v[bin_index].2.len() && (q == ((v[bin_index].2[k].x + v[bin_index].2[k].width) as u32, (#[trigger] v[bin_index].2[k]).y)
            || q == (v[bin_index].2[k].x, (v[bin_index].2[k].y + v[bin_index].2[k].height) as u32)
            || q == (v[bin_index].2[k].x, v[bin_index].2[k].y)))
}

/// The positions tried in bin `bin_index`, increasing and without repetition
/// (see `is_overlap_candidate`).
fn candidate_positions(solution: &PackingSolution, bin_index: usize, box_size: u32) -> (r: Vec<(u32, u32)>)
    requires
        bin_index < solution@.len() ==> edges_in_range(solution@[bin_index as int].2),
    ensures
        strictly_sorted(r@),
        forall|q: (u32, u32)| #[trigger] r@.contains(q) <==> is_overlap_candidate(solution@, bin_index as int, box_size, q),
{
    let ghost v = solution@;
    let mut positions: Vec<(u32, u32)> = Vec::new();
    insert_point(&mut positions, (0, 0));
    if bin_index < solution.bins.len() {
        let bin = &solution.bins[bin_index];
        let ghost ps = bin.placements@;
        proof {
            assert(ps == v[bin_index as int].2);
        }
        let n = bin.placements.len();
        let mut k: usize = 0;
        while k < n
            invariant
                n == ps.len(),
                ps == bin.placements@,
                ps == v[bin_index as int].2,
                k <= n,
                edges_in_range(ps),
                strictly_sorted(positions@),
                forall|q: (u32, u32)| #[trigger] positions@.contains(q) <==> (q == (0u32, 0u32) || exists|m: int|
                    0 <= m < k && (q == ((ps[m].x + ps[m].width) as u32, (#[trigger] ps[m]).y)
                        || q == (ps[m].x, (ps[m].y + ps[m].height) as u32) || q == (ps[m].x, ps[m].y))),
            decreases n - k,
        {
            let p = bin.placements[k];
            insert_point(&mut positions, (p.x + p.width, p.y));
            insert_point(&mut positions, (p.x, p.y + p.height));
            insert_point(&mut positions, (p.x, p.y));
            proof {
                assert forall|q: (u32, u32)| #[trigger] positions@.contains(q) <==> (q == (0u32, 0u32) || exists|m: int|
                    0 <= m < k + 1 && (q == ((ps[m].x + ps[m].width) as u32, (#[trigger] ps[m]).y)
                        || q == (ps[m].x, (ps[m].y + ps[m].height) as u32) || q == (ps[m].x, ps[m].y))) by {
                    if q == ((p.x + p.width) as u32, p.y) || q == (p.x, (p.y + p.height) as u32) || q == (p.x, p.y) {
                        assert(ps[k as int] == p);
                    }
                }
            }
            k += 1;
        }
    }
    insert_point(&mut positions, (0, 0));
    insert_point(&mut positions, (box_size / 2, 0));
    insert_point(&mut positions, (0, box_size / 2));
    positions
}

/// Drops empty bins and numbers the rest `0, 1, ...`.
fn remove_empty_bins(solution: &mut PackingSolution)
    ensures
        final(solution)@ == renumbered(nonempty_bins(old(solution)@)),
{
    retain_nonempty(solution);
    renumber_bins(solution);
}

/// The overlap of `c` with the placements of `ps` from `k` on that carry
/// another identifier than `c`, summed.
pub open spec fn penalty_from(ps: Seq<Placement>, c: Placement, k: int) -> int
    decreases ps.len() - k,
{
    if k < 0 || k >= ps.len() {
        0
    } else if ps[k].rect_id == c.rect_id {
        penalty_from(ps, c, k + 1)
    } else {
        overlap_area(c, ps[k]) + penalty_from(ps, c, k + 1)
    }
}

/// The overlap a `width x height` rectangle carrying `rect_id` at `(x, y)`
/// would have with the other rectangles of bin `bin_index` (0 where there is
/// no such bin).
pub open spec fn spec_penalty(
    v: Seq<(usize, u32, Seq<Placement>)>,
    bin_index: int,
    rect_id: usize,
    x: u32,
    y: u32,
    width: u32,
    height: u32,
) -> int {
    if 0 <= bin_index < v.len() {
        penalty_from(v[bin_index].2, Placement { rect_id, x, y, width, height, rotated: false }, 0)
    } else {
        0
    }
}

proof fn lemma_penalty_nonneg(ps: Seq<Placement>, c: Placement, k: int)
    ensures
        penalty_from(ps, c, k) >= 0,
    decreases ps.len() - k,
{
    if 0 <= k < ps.len() {
        lemma_penalty_nonneg(ps, c, k + 1);
        lemma_overlap_nonneg(c, ps[k]);
    }
}


/// The overlap a rectangle at `(x, y)` would have with the other rectangles
/// of bin `bin_index` (see `spec_penalty`).
fn compute_overlap_penalty_for_bin(
    solution: &PackingSolution,
    bin_index: usize,
    rect_id: usize,
    x: u32,
    y: u32,
    width: u32,
    height: u32,
) -> (r: u128)
    requires
        x + width <= u32::MAX,
        y + height <= u32::MAX,
        bin_index < solution@.len() ==> edges_in_range(solution@[bin_index as int].2),
    ensures
        r == saturated(spec_penalty(solution@, bin_index as int, rect_id, x, y, width, height)),
{
    let mut penalty: u128 = 0;
    if bin_index < solution.bins.len() {
        let bin = &solution.bins[bin_index];
        let candidate = Placement { rect_id, x, y, width, height, rotated: false };
        let ghost ps = bin.placements@;
        proof {
            assert(ps == solution@[bin_index as int].2);
        }
        let n = bin.placements.len();
        let mut k: usize = 0;
        proof {
            lemma_penalty_nonneg(ps, candidate, 0);
        }
        while k < n
            invariant
                n == ps.len(),
                ps == bin.placements@,
                k <= n,
                edges_in_range(ps),
                candidate == (Placement { rect_id, x, y, width, height, rotated: false }),
                x + width <= u32::MAX,
                y + height <= u32::MAX,
                penalty == saturated(penalty_from(ps, candidate, 0) - penalty_from(ps, candidate, k as int)),
                penalty_from(ps, candidate, 0) - penalty_from(ps, candidate, k as int) >= 0,
                penalty_from(ps, candidate, k as int) >= 0,
            decreases n - k,
        {
            proof {
                lemma_penalty_nonneg(ps, candidate, k + 1);
                lemma_overlap_nonneg(candidate, ps[k as int]);
            }
            if bin.placements[k].rect_id != rect_id {
                penalty = penalty.saturating_add(pair_overlap_area(&candidate, &bin.placements[k]) as u128);
            }
            k += 1;
        }
    }
    penalty
}

/// The sum, over bins, of the coordinates of their placements plus half a
/// box side for each non-empty bin.
pub open spec fn compactness_from(v: Seq<(usize, u32, Seq<Placement>)>, box_size: u32, b: int) -> int
    decreases v.len() - b,
{
    if b < 0 || b >= v.len() {
        0
    } else {
        coordinates_from(v[b].2, 0) + (if v[b].2.len() > 0 { (box_size / 2) as int } else { 0 }) + compactness_from(
            v,
            box_size,
            b + 1,
        )
    }
}

/// The sum of `x + y` over the placements of `ps` from `k` on.
pub open spec fn coordinates_from(ps: Seq<Placement>, k: int) -> int
    decreases ps.len() - k,
{
    if k < 0 || k >= ps.len() {
        0
    } else {
        ps[k].x + ps[k].y + coordinates_from(ps, k + 1)
    }
}

proof fn lemma_coordinates_nonneg(ps: Seq<Placement>, k: int)
    ensures
        coordinates_from(ps, k) >= 0,
    decreases ps.len() - k,
{
    if 0 <= k < ps.len() {
        lemma_coordinates_nonneg(ps, k + 1);
    }
}

proof fn lemma_compactness_nonneg(v: Seq<(usize, u32, Seq<Placement>)>, box_size: u32, b: int)
    ensures
        compactness_from(v, box_size, b) >= 0,
    decreases v.len() - b,
{
    if 0 <= b < v.len() {
        lemma_compactness_nonneg(v, box_size, b + 1);
        lemma_coordinates_nonneg(v[b].2, 0);
    }
}

/// The sum of the placements' coordinates plus half a box side per
/// non-empty bin, capped at `u32::MAX`: packings pushed towards the origin
/// score lower.
fn compactness_penalty(solution: &PackingSolution, box_size: u32) -> (r: u32)
    ensures
        r == capped(compactness_from(solution@, box_size, 0)),
{
    let ghost v = solution@;
    let mut penalty: u32 = 0;
    let nb = solution.bins.len();
    let mut b: usize = 0;
    while b < nb
        invariant
            nb == v.len(),
            v == solution@,
            b <= nb,
            penalty == capped(compactness_from(v, box_size, 0) - compactness_from(v, box_size, b as int)),
            0 <= compactness_from(v, box_size, 0) - compactness_from(v, box_size, b as int),
        decreases nb - b,
    {
        let ps = &solution.bins[b].placements;
        let ghost s = ps@;
        proof {
            assert(s == v[b as int].2);
            lemma_compactness_nonneg(v, box_size, b + 1);
            lemma_coordinates_nonneg(s, 0);
        }
        let n = ps.len();
        let mut k: usize = 0;
        let ghost base = compactness_from(v, box_size, 0) - compactness_from(v, box_size, b as int);
        while k < n
            invariant
                n == s.len(),
                s == ps@,
                k <= n,
                base >= 0,
                penalty == capped(base + coordinates_from(s, 0) - coordinates_from(s, k as int)),
                0 <= coordinates_from(s, 0) - coordinates_from(s, k as int),
            decreases n - k,
        {
            proof {
                lemma_coordinates_nonneg(s, k + 1);
            }
            penalty = penalty.saturating_add(ps[k].x).saturating_add(ps[k].y);
            k += 1;
        }
        if n > 0 {
            penalty = penalty.saturating_add(box_size / 2);
        }
        b += 1;
    }
    penalty
}

/// Every placement of the packing satisfies `pred`.
pub open spec fn every_placement(v: Seq<(usize, u32, Seq<Placement>)>, pred: spec_fn(Placement) -> bool) -> bool {
    forall|b: int, k: int| 0 <= b < v.len() && 0 <= k < v[b].2.len() ==> pred(#[trigger] v[b].2[k])
}

/// Bin `j` with its placement `i` taken out.
pub open spec fn without_placement(v: Seq<(usize, u32, Seq<Placement>)>, j: int, i: int) -> Seq<(usize, u32, Seq<Placement>)> {
    v.update(j, (v[j].0, v[j].1, v[j].2.remove(i)))
}

/// Bin `j` with `p` appended.
pub open spec fn with_placement(v: Seq<(usize, u32, Seq<Placement>)>, j: int, p: Placement) -> Seq<(usize, u32, Seq<Placement>)> {
    v.update(j, (v[j].0, v[j].1, v[j].2.push(p)))
}

proof fn lemma_without(v: Seq<(usize, u32, Seq<Placement>)>, j: int, i: int, pred: spec_fn(Placement) -> bool)
    requires
        0 <= j < v.len(),
        0 <= i < v[j].2.len(),
    ensures
        every_placement(v, pred) ==> every_placement(without_placement(v, j, i), pred),
        groups_count(view_groups(without_placement(v, j, i))) == groups_count(view_groups(v)) - 1,
        without_placement(v, j, i).len() == v.len(),
{
    let w = without_placement(v, j, i);
    if every_placement(v, pred) {
        assert forall|b: int, k: int| 0 <= b < w.len() && 0 <= k < w[b].2.len() implies pred(#[trigger] w[b].2[k]) by {
            if b == j {
                if k < i {
                    assert(w[b].2[k] == v[b].2[k]);
                } else {
                    assert(w[b].2[k] == v[b].2[k + 1]);
                }
            } else {
                assert(w[b].2[k] == v[b].2[k]);
            }
        }
    }
    assert(view_groups(w) =~= view_groups(v).update(j, v[j].2.remove(i)));
    crate::local_search_geometry::lemma_groups_count_update(view_groups(v), j, v[j].2.remove(i));
}

proof fn lemma_with(v: Seq<(usize, u32, Seq<Placement>)>, j: int, p: Placement, pred: spec_fn(Placement) -> bool)
    requires
        0 <= j < v.len(),
    ensures
        every_placement(v, pred) && pred(p) ==> every_placement(with_placement(v, j, p), pred),
        groups_count(view_groups(with_placement(v, j, p))) == groups_count(view_groups(v)) + 1,
        with_placement(v, j, p).len() == v.len(),
{
    let w = with_placement(v, j, p);
    if every_placement(v, pred) && pred(p) {
        assert forall|b: int, k: int| 0 <= b < w.len() && 0 <= k < w[b].2.len() implies pred(#[trigger] w[b].2[k]) by {
            if b == j && k == v[j].2.len() {
            } else {
                assert(w[b].2[k] == v[b].2[k]);
            }
        }
    }
    assert(view_groups(w) =~= view_groups(v).update(j, v[j].2.push(p)));
    crate::local_search_geometry::lemma_groups_count_update(view_groups(v), j, v[j].2.push(p));
}

proof fn lemma_tidy(v: Seq<(usize, u32, Seq<Placement>)>, pred: spec_fn(Placement) -> bool)
    ensures
        every_placement(v, pred) ==> every_placement(renumbered(nonempty_bins(v)), pred),
        groups_count(view_groups(renumbered(nonempty_bins(v)))) == groups_count(view_groups(v)),
        renumbered(nonempty_bins(v)).len() <= v.len(),
{
    let ne = nonempty_bins(v);
    let w = renumbered(ne);
    crate::local_search_geometry::lemma_nonempty_bins(v);
    assert(view_groups(w) =~= view_groups(ne));
    if every_placement(v, pred) {
        assert forall|b: int, k: int| 0 <= b < w.len() && 0 <= k < w[b].2.len() implies pred(#[trigger] w[b].2[k]) by {
            let c = choose|c: int| 0 <= c < v.len() && v[c] == #[trigger] ne[b];
            assert(w[b].2 == v[c].2);
            assert(w[b].2[k] == v[c].2[k]);
        }
    }
}

/// The placement's area fits in a `u32`, as a predicate.
pub open spec fn area_fits() -> spec_fn(Placement) -> bool {
    |p: Placement| p.width * p.height <= u32::MAX
}

/// Every placement lies within the square of side `limit`, and its area
/// fits in a `u32`.
pub open spec fn bounded_by(v: Seq<(usize, u32, Seq<Placement>)>, limit: u32) -> bool {
    &&& all_within(v, limit)
    &&& every_placement(v, area_fits())
}

/// A packing the overlap search can work on: it is bounded (see
/// `bounded_by`) by some extent at least the box side, that is, every
/// placement's right and top edges and its area fit in a `u32`.
pub open spec fn overlap_admissible(v: Seq<(usize, u32, Seq<Placement>)>, box_size: u32) -> bool {
    exists|limit: u32| box_size <= limit && #[trigger] bounded_by(v, limit)
}

/// The placement lies within a box of side `size`, as a predicate.
pub open spec fn within_box(size: u32) -> spec_fn(Placement) -> bool {
    |p: Placement| within(p, size)
}

proof fn lemma_every_within(v: Seq<(usize, u32, Seq<Placement>)>, size: u32)
    ensures
        every_placement(v, within_box(size)) == all_within(v, size),
{
    if every_placement(v, within_box(size)) {
        assert forall|b: int, k: int| 0 <= b < v.len() && 0 <= k < v[b].2.len() implies within(#[trigger] v[b].2[k], size) by {
            assert((within_box(size))(v[b].2[k]));
        }
    }
    if all_within(v, size) {
        assert forall|b: int, k: int| 0 <= b < v.len() && 0 <= k < v[b].2.len() implies (within_box(size))(#[trigger] v[b].2[k]) by {
            assert(within(v[b].2[k], size));
        }
    }
}

/// What a bounded packing allows: its edges stay within range and its
/// placements' areas fit in a `u32`.
proof fn lemma_bounded_facts(v: Seq<(usize, u32, Seq<Placement>)>, box_size: u32, limit: u32)
    requires
        bounded_by(v, limit),
        box_size <= limit,
    ensures
        forall|b: int| 0 <= b < v.len() ==> edges_in_range(#[trigger] v[b].2),
        forall|b: int, k: int|
            0 <= b < v.len() && 0 <= k < v[b].2.len() ==> (#[trigger] v[b].2[k]).width * v[b].2[k].height <= u32::MAX,
        box_size * box_size <= limit * limit,
{
    assert(box_size * box_size <= limit * limit) by (nonlinear_arith)
        requires
            box_size <= limit,
    ;
    assert forall|b: int| 0 <= b < v.len() implies edges_in_range(#[trigger] v[b].2) by {
        assert forall|k: int| 0 <= k < v[b].2.len() implies (#[trigger] v[b].2[k]).x + v[b].2[k].width <= u32::MAX
            && v[b].2[k].y + v[b].2[k].height <= u32::MAX by {
            assert(within(v[b].2[k], limit));
        }
    }
    assert forall|b: int, k: int| 0 <= b < v.len() && 0 <= k < v[b].2.len() implies (#[trigger] v[b].2[k]).width
        * v[b].2[k].height <= u32::MAX by {
        assert((area_fits())(v[b].2[k]));
    }
}

/// Taking a placement out keeps a packing admissible, with one placement less.
proof fn lemma_without_admissible(v: Seq<(usize, u32, Seq<Placement>)>, j: int, i: int, limit: u32)
    requires
        bounded_by(v, limit),
        0 <= j < v.len(),
        0 <= i < v[j].2.len(),
    ensures
        bounded_by(without_placement(v, j, i), limit),
        groups_count(view_groups(without_placement(v, j, i))) == groups_count(view_groups(v)) - 1,
        without_placement(v, j, i).len() == v.len(),
{
    let w = without_placement(v, j, i);
    lemma_without(v, j, i, within_box(limit));
    lemma_without(v, j, i, area_fits());
    lemma_every_within(v, limit);
    lemma_every_within(w, limit);
}

/// Adding a placement within the box whose area fits keeps a packing
/// admissible.
proof fn lemma_with_admissible(v: Seq<(usize, u32, Seq<Placement>)>, j: int, p: Placement, limit: u32)
    requires
        bounded_by(v, limit),
        within(p, limit),
        p.width * p.height <= u32::MAX,
        0 <= j < v.len(),
    ensures
        bounded_by(with_placement(v, j, p), limit),
        groups_count(view_groups(with_placement(v, j, p))) == groups_count(view_groups(v)) + 1,
{
    let w = with_placement(v, j, p);
    lemma_with(v, j, p, within_box(limit));
    lemma_with(v, j, p, area_fits());
    lemma_every_within(v, limit);
    lemma_every_within(w, limit);
    assert((within_box(limit))(p));
    assert((area_fits())(p));
}

/// Dropping empty bins and numbering the rest keeps a packing admissible.
proof fn lemma_tidy_admissible(v: Seq<(usize, u32, Seq<Placement>)>, limit: u32)
    requires
        bounded_by(v, limit),
    ensures
        bounded_by(renumbered(nonempty_bins(v)), limit),
        groups_count(view_groups(renumbered(nonempty_bins(v)))) == groups_count(view_groups(v)),
{
    let w = renumbered(nonempty_bins(v));
    lemma_tidy(v, within_box(limit));
    lemma_tidy(v, area_fits());
    lemma_every_within(v, limit);
    lemma_every_within(w, limit);
}

/// The packing after moving a rectangle while tolerating some overlap: the
/// new dimensions and position must lie within a box; the first placement of
/// `mv.rect_id` in bin `from_bin` is taken out; the area the rectangle would
/// then share with the other rectangles of bin `to_bin` must not exceed
/// `allowed[width * height]`; the rectangle is put there and empty bins are
/// dropped, the rest numbered afresh. `None` where any of this fails.
pub open spec fn overlap_moved_view(
    v: Seq<(usize, u32, Seq<Placement>)>,
    mv: GeometryMove,
    allowed: Seq<u32>,
    box_size: u32,
) -> Option<Seq<(usize, u32, Seq<Placement>)>> {
    if mv.new_width > box_size || mv.new_height > box_size {
        None
    } else if mv.new_x + mv.new_width > box_size || mv.new_y + mv.new_height > box_size {
        None
    } else if mv.from_bin >= v.len() || mv.to_bin >= v.len() {
        None
    } else if !has_id(v[mv.from_bin as int].2, mv.rect_id) {
        None
    } else {
        let i = first_index_of_id(v[mv.from_bin as int].2, mv.rect_id);
        let v1 = without_placement(v, mv.from_bin as int, i);
        let overlap = spec_penalty(v1, mv.to_bin as int, mv.rect_id, mv.new_x, mv.new_y, mv.new_width, mv.new_height);
        if overlap > allowed[mv.new_width * mv.new_height] {
            None
        } else {
            let p = Placement {
                rect_id: mv.rect_id,
                x: mv.new_x,
                y: mv.new_y,
                width: mv.new_width,
                height: mv.new_height,
                rotated: mv.rotated,
            };
            Some(renumbered(nonempty_bins(with_placement(v1, mv.to_bin as int, p))))
        }
    }
}

/// Takes the first placement of `rect_id` out of `solution.bins[j]` (which
/// must hold one) in a copy; the copy's view is `without_placement` at that
/// index, and the removed placement is handed back.
fn take_out(solution: &mut PackingSolution, j: usize, rect_id: usize) -> (r: Placement)
    requires
        j < old(solution)@.len(),
        has_id(old(solution)@[j as int].2, rect_id),
    ensures
        final(solution)@ == without_placement(old(solution)@, j as int, first_index_of_id(old(solution)@[j as int].2, rect_id)),
        r == old(solution)@[j as int].2[first_index_of_id(old(solution)@[j as int].2, rect_id)],
        is_first_with_id(old(solution)@[j as int].2, rect_id, first_index_of_id(old(solution)@[j as int].2, rect_id)),
{
    let ghost v = solution@;
    let ghost before = solution.bins@;
    proof {
        assert(before[j as int].placements@ == v[j as int].2);
    }
    let removed = solution.bins[j].remove_placement_by_rect_id(rect_id);
    let p = match removed {
        Some(p) => p,
        None => {
            proof {
                assert(false);
            }
            Placement { rect_id, x: 0, y: 0, width: 0, height: 0, rotated: false }
        },
    };
    proof {
        let i0 = choose|i0: int| #[trigger] is_first_with_id(before[j as int].placements@, rect_id, i0)
            && p == before[j as int].placements@[i0] && solution.bins@[j as int].placements@
            == before[j as int].placements@.remove(i0);
        lemma_first_index_unique(v[j as int].2, rect_id, i0);
        assert(solution@ =~= without_placement(v, j as int, i0));
    }
    p
}

/// Appends `p` to `solution.bins[j]`; the view is `with_placement`.
fn put_in(solution: &mut PackingSolution, j: usize, p: Placement)
    requires
        j < old(solution)@.len(),
    ensures
        final(solution)@ == with_placement(old(solution)@, j as int, p),
{
    let ghost v = solution@;
    let ghost before = solution.bins@;
    solution.bins[j].place_dimensions(p.rect_id, p.width, p.height, p.x, p.y, p.rotated);
    proof {
        assert(before[j as int].placements@ == v[j as int].2);
        assert(solution.bins@[j as int].placements@ == v[j as int].2.push(p));
        assert(solution@ =~= with_placement(v, j as int, p));
    }
}

/// Moves a rectangle to `(x, y)` in bin `to_bin` with the given dimensions,
/// accepting the move where the area it would share with the rectangles
/// there is at most `allowed[width * height]` (see `overlap_moved_view`).
fn apply_inter_bin_move_with_allowed_overlap(
    solution: &PackingSolution,
    from_bin: usize,
    to_bin: usize,
    rect_id: usize,
    x: u32,
    y: u32,
    width: u32,
    height: u32,
    rotated: bool,
    allowed: &Vec<u32>,
    box_size: u32,
) -> (r: Option<PackingSolution>)
    requires
        overlap_admissible(solution@, box_size),
        allowed@.len() > box_size * box_size,
        width <= box_size && height <= box_size ==> width * height <= u32::MAX,
    ensures
        r is None <==> overlap_moved_view(
            solution@,
            GeometryMove { rect_id, from_bin, to_bin, new_x: x, new_y: y, new_width: width, new_height: height, rotated },
            allowed@,
            box_size,
        ) is None,
        r matches Some(s) ==> overlap_moved_view(
            solution@,
            GeometryMove { rect_id, from_bin, to_bin, new_x: x, new_y: y, new_width: width, new_height: height, rotated },
            allowed@,
            box_size,
        ) == Some(s@) && overlap_admissible(s@, box_size),
{
    if width > box_size || height > box_size {
        return None;
    }
    if x as u64 + width as u64 > box_size as u64 || y as u64 + height as u64 > box_size as u64 {
        return None;
    }
    let n = solution.bins.len();
    if from_bin >= n || to_bin >= n {
        return None;
    }
    let ghost v = solution@;
    let found = solution.bins[from_bin].get_placement_by_rect_id(rect_id).is_some();
    proof {
        assert(solution.bins@[from_bin as int].placements@ == v[from_bin as int].2);
    }
    if !found {
        return None;
    }
    let ghost limit = choose|limit: u32| box_size <= limit && bounded_by(v, limit);
    let mut new_solution = solution.clone();
    let removed = take_out(&mut new_solution, from_bin, rect_id);
    let ghost i = first_index_of_id(v[from_bin as int].2, rect_id);
    let ghost v1 = new_solution@;
    proof {
        lemma_without_admissible(v, from_bin as int, i, limit);
        lemma_bounded_facts(v1, box_size, limit);
    }
    let overlap_area = compute_overlap_penalty_for_bin(&new_solution, to_bin, rect_id, x, y, width, height);
    proof {
        assert(v.len() >= 1);
        assert(width * height <= box_size * box_size) by (nonlinear_arith)
            requires
                width <= box_size,
                height <= box_size,
        ;
    }
    let rect_area = width * height;
    if overlap_area > allowed[rect_area as usize] as u128 {
        return None;
    }
    let p = Placement { rect_id: removed.rect_id, x, y, width, height, rotated };
    proof {
        let c = groups_count(view_groups(v));
        assert(c == groups_count(view_groups(v1)) + 1);
        assert(within(p, limit));
        lemma_with_admissible(v1, to_bin as int, p, limit);
    }
    put_in(&mut new_solution, to_bin, p);
    proof {
        lemma_tidy_admissible(new_solution@, limit);
    }
    remove_empty_bins(&mut new_solution);
    proof {
        assert(bounded_by(new_solution@, limit));
    }
    Some(new_solution)
}

/// The packing after exchanging two rectangles of different bins while
/// tolerating some overlap: each takes the other's position with its own
/// dimensions and turn, both must then lie within a box, and the area each
/// would share with the other rectangles of its new bin must not exceed
/// `allowed` at its own area; then empty bins are dropped and the rest
/// numbered afresh. The first placement of each identifier in its bin is
/// the one exchanged. `None` where any of this fails.
pub open spec fn overlap_swapped_view(
    v: Seq<(usize, u32, Seq<Placement>)>,
    bin_a: usize,
    rect_a: usize,
    bin_b: usize,
    rect_b: usize,
    allowed: Seq<u32>,
    box_size: u32,
) -> Option<Seq<(usize, u32, Seq<Placement>)>> {
    if bin_a == bin_b {
        None
    } else if bin_a >= v.len() || bin_b >= v.len() {
        None
    } else if !has_id(v[bin_a as int].2, rect_a) || !has_id(v[bin_b as int].2, rect_b) {
        None
    } else {
        let ia = first_index_of_id(v[bin_a as int].2, rect_a);
        let ib = first_index_of_id(v[bin_b as int].2, rect_b);
        let a = v[bin_a as int].2[ia];
        let b = v[bin_b as int].2[ib];
        if a.width > box_size || a.height > box_size || b.width > box_size || b.height > box_size {
            None
        } else if b.x + a.width > box_size || b.y + a.height > box_size {
            None
        } else if a.x + b.width > box_size || a.y + b.height > box_size {
            None
        } else {
            let v1 = without_placement(without_placement(v, bin_a as int, ia), bin_b as int, ib);
            let overlap_a = spec_penalty(v1, bin_a as int, rect_b, a.x, a.y, b.width, b.height);
            let overlap_b = spec_penalty(v1, bin_b as int, rect_a, b.x, b.y, a.width, a.height);
            if overlap_a > allowed[b.width * b.height] || overlap_b > allowed[a.width * a.height] {
                None
            } else {
                let pa = Placement { rect_id: rect_b, x: a.x, y: a.y, width: b.width, height: b.height, rotated: b.rotated };
                let pb = Placement { rect_id: rect_a, x: b.x, y: b.y, width: a.width, height: a.height, rotated: a.rotated };
                Some(renumbered(nonempty_bins(with_placement(with_placement(v1, bin_a as int, pa), bin_b as int, pb))))
            }
        }
    }
}

/// The first placement carrying `rect_id` in bin `j`, which must hold one.
fn first_placement(solution: &PackingSolution, j: usize, rect_id: usize) -> (r: Placement)
    requires
        j < solution@.len(),
        has_id(solution@[j as int].2, rect_id),
    ensures
        r == solution@[j as int].2[first_index_of_id(solution@[j as int].2, rect_id)],
{
    let ghost ps = solution@[j as int].2;
    proof {
        assert(solution.bins@[j as int].placements@ == ps);
    }
    match solution.bins[j].get_placement_by_rect_id(rect_id) {
        Some(p) => {
            proof {
                let i0 = choose|i0: int| #[trigger] is_first_with_id(ps, rect_id, i0) && *p == ps[i0];
                lemma_first_index_unique(ps, rect_id, i0);
            }
            *p
        },
        None => {
            proof {
                assert(false);
            }
            Placement { rect_id, x: 0, y: 0, width: 0, height: 0, rotated: false }
        },
    }
}

/// Exchanges two rectangles of different bins, accepting the exchange where
/// the area each would share in its new bin stays within `allowed` (see
/// `overlap_swapped_view`).
fn apply_swap_with_allowed_overlap(
    solution: &PackingSolution,
    bin_a: usize,
    rect_a_id: usize,
    bin_b: usize,
    rect_b_id: usize,
    allowed: &Vec<u32>,
    box_size: u32,
) -> (r: Option<PackingSolution>)
    requires
        overlap_admissible(solution@, box_size),
        allowed@.len() > box_size * box_size,
    ensures
        r is None <==> overlap_swapped_view(solution@, bin_a, rect_a_id, bin_b, rect_b_id, allowed@, box_size) is None,
        r matches Some(s) ==> overlap_swapped_view(solution@, bin_a, rect_a_id, bin_b, rect_b_id, allowed@, box_size)
            == Some(s@) && overlap_admissible(s@, box_size),
{
    if bin_a == bin_b {
        return None;
    }
    let n = solution.bins.len();
    if bin_a >= n || bin_b >= n {
        return None;
    }
    let ghost v = solution@;
    let found_a = solution.bins[bin_a].get_placement_by_rect_id(rect_a_id).is_some();
    let found_b = solution.bins[bin_b].get_placement_by_rect_id(rect_b_id).is_some();
    proof {
        assert(solution.bins@[bin_a as int].placements@ == v[bin_a as int].2);
        assert(solution.bins@[bin_b as int].placements@ == v[bin_b as int].2);
    }
    if !found_a || !found_b {
        return None;
    }
    let a = first_placement(solution, bin_a, rect_a_id);
    let b = first_placement(solution, bin_b, rect_b_id);
    if a.width > box_size || a.height > box_size || b.width > box_size || b.height > box_size {
        return None;
    }
    if b.x as u64 + a.width as u64 > box_size as u64 || b.y as u64 + a.height as u64 > box_size as u64 {
        return None;
    }
    if a.x as u64 + b.width as u64 > box_size as u64 || a.y as u64 + b.height as u64 > box_size as u64 {
        return None;
    }
    let ghost limit = choose|limit: u32| box_size <= limit && bounded_by(v, limit);
    let mut new_solution = solution.clone();
    let ghost ia = first_index_of_id(v[bin_a as int].2, rect_a_id);
    let ghost ib = first_index_of_id(v[bin_b as int].2, rect_b_id);
    take_out(&mut new_solution, bin_a, rect_a_id);
    let ghost v0 = new_solution@;
    proof {
        lemma_without_admissible(v, bin_a as int, ia, limit);
        assert(v0[bin_b as int] == v[bin_b as int]);
    }
    take_out(&mut new_solution, bin_b, rect_b_id);
    let ghost v1 = new_solution@;
    proof {
        lemma_without_admissible(v0, bin_b as int, ib, limit);
        lemma_bounded_facts(v1, box_size, limit);
        lemma_bounded_facts(v, box_size, limit);
    }
    let overlap_a = compute_overlap_penalty_for_bin(&new_solution, bin_a, rect_b_id, a.x, a.y, b.width, b.height);
    let overlap_b = compute_overlap_penalty_for_bin(&new_solution, bin_b, rect_a_id, b.x, b.y, a.width, a.height);
    proof {
        assert(b.width * b.height <= box_size * box_size) by (nonlinear_arith)
            requires
                b.width <= box_size,
                b.height <= box_size,
        ;
        assert(a.width * a.height <= box_size * box_size) by (nonlinear_arith)
            requires
                a.width <= box_size,
                a.height <= box_size,
        ;
    }
    let max_a = allowed[(b.width * b.height) as usize];
    let max_b = allowed[(a.width * a.height) as usize];
    if overlap_a > max_a as u128 || overlap_b > max_b as u128 {
        return None;
    }
    let pa = Placement { rect_id: rect_b_id, x: a.x, y: a.y, width: b.width, height: b.height, rotated: b.rotated };
    let pb = Placement { rect_id: rect_a_id, x: b.x, y: b.y, width: a.width, height: a.height, rotated: a.rotated };
    proof {
        lemma_with_admissible(v1, bin_a as int, pa, limit);
    }
    put_in(&mut new_solution, bin_a, pa);
    proof {
        lemma_with_admissible(new_solution@, bin_b as int, pb, limit);
    }
    put_in(&mut new_solution, bin_b, pb);
    proof {
        lemma_tidy_admissible(new_solution@, limit);
    }
    remove_empty_bins(&mut new_solution);
    proof {
        assert(bounded_by(new_solution@, limit));
    }
    Some(new_solution)
}

/// The score the overlap search minimises, compared component by component:
/// the number of bins; the wasted area plus `weight` times the shared area
/// plus the compactness penalty, each sum capped at `u32::MAX`; the shared
/// area; and the compactness penalty.
pub open spec fn spec_overlap_score(v: Seq<(usize, u32, Seq<Placement>)>, box_size: u32, weight: u32) -> (
    usize,
    u32,
    u32,
    u32,
) {
    let score = view_score(v, box_size);
    let overlap = spec_total_overlap(v);
    let compactness = capped(compactness_from(v, box_size, 0));
    (
        score.bins_used,
        capped(capped(score.wasted_area + capped(overlap * weight)) + compactness) as u32,
        capped(overlap) as u32,
        compactness as u32,
    )
}

/// The penalised score of a packing (see `spec_overlap_score`).
fn score_with_overlap_penalty(solution: &PackingSolution, box_size: u32, overlap_weight: u32) -> (r: (
    usize,
    u32,
    u32,
    u32,
))
    requires
        overlap_admissible(solution@, box_size),
    ensures
        r == spec_overlap_score(solution@, box_size, overlap_weight),
{
    proof {
        let limit = choose|limit: u32| box_size <= limit && bounded_by(solution@, limit);
        lemma_bounded_facts(solution@, box_size, limit);
        lemma_bins_nonneg(view_groups(solution@), 0);
    }
    let score = score_packing(solution, box_size);
    let overlap = total_overlap_area(solution);
    let compactness = compactness_penalty(solution, box_size);
    let weighted: u32 = if overlap > u32::MAX as u128 {
        if overlap_weight == 0 {
            0
        } else {
            u32::MAX
        }
    } else {
        assert(overlap * overlap_weight <= u64::MAX) by (nonlinear_arith)
            requires
                overlap <= u32::MAX,
                overlap_weight <= u32::MAX,
        ;
        let product: u64 = overlap as u64 * overlap_weight as u64;
        if product > u32::MAX as u64 {
            u32::MAX
        } else {
            product as u32
        }
    };
    proof {
        let t = spec_total_overlap(solution@);
        lemma_bins_nonneg(view_groups(solution@), 0);
        if overlap > u32::MAX as u128 {
            assert(t > u32::MAX);
            if overlap_weight > 0 {
                assert(t * overlap_weight >= t) by (nonlinear_arith)
                    requires
                        t >= 0,
                        overlap_weight >= 1,
                ;
            }
            assert(weighted == capped(t * overlap_weight));
        } else {
            assert(overlap == t);
            assert(weighted == capped(t * overlap_weight));
        }
    }
    let shown_overlap: u32 = if overlap > u32::MAX as u128 {
        u32::MAX
    } else {
        overlap as u32
    };
    let penalized_waste = score.wasted_area.saturating_add(weighted).saturating_add(compactness);
    (score.bins_used, penalized_waste, shown_overlap, compactness)
}

/// `a` is strictly below `b`, compared component by component.
pub open spec fn tuple_below(a: (usize, u32, u32, u32), b: (usize, u32, u32, u32)) -> bool {
    ||| a.0 < b.0
    ||| a.0 == b.0 && a.1 < b.1
    ||| a.0 == b.0 && a.1 == b.1 && a.2 < b.2
    ||| a.0 == b.0 && a.1 == b.1 && a.2 == b.2 && a.3 < b.3
}

/// Whether the penalised score `a` is strictly below `b` (see `tuple_below`).
pub fn score_tuple_below(a: &(usize, u32, u32, u32), b: &(usize, u32, u32, u32)) -> (r: bool)
    ensures
        r == tuple_below(*a, *b),
{
    a.0 < b.0 || (a.0 == b.0 && (a.1 < b.1 || (a.1 == b.1 && (a.2 < b.2 || (a.2 == b.2 && a.3 < b.3)))))
}

/// The rectangle a placement stands for, with its dimensions before any turn.
pub open spec fn as_rectangle(p: Placement) -> Rectangle {
    if p.rotated {
        Rectangle { id: p.rect_id, width: p.height, height: p.width }
    } else {
        Rectangle { id: p.rect_id, width: p.width, height: p.height }
    }
}

/// The rectangles the placements stand for, bin after bin.
pub open spec fn placed_rectangles(v: Seq<(usize, u32, Seq<Placement>)>) -> Seq<Rectangle>
    decreases v.len(),
{
    if v.len() == 0 {
        Seq::empty()
    } else {
        placed_rectangles(v.drop_last()) + v.last().2.map_values(|p: Placement| as_rectangle(p))
    }
}

/// Every placement has positive width and height.
pub open spec fn placements_positive(v: Seq<(usize, u32, Seq<Placement>)>) -> bool {
    forall|b: int, k: int| 0 <= b < v.len() && 0 <= k < v[b].2.len() ==> (#[trigger] v[b].2[k]).width > 0 && v[b].2[k].height > 0
}

proof fn lemma_placed_positive(v: Seq<(usize, u32, Seq<Placement>)>)
    requires
        placements_positive(v),
    ensures
        all_rects_positive(placed_rectangles(v)),
    decreases v.len(),
{
    if v.len() > 0 {
        let u = v.drop_last();
        assert forall|b: int, k: int| 0 <= b < u.len() && 0 <= k < u[b].2.len() implies (#[trigger] u[b].2[k]).width > 0
            && u[b].2[k].height > 0 by {
            assert(u[b] == v[b]);
        }
        lemma_placed_positive(u);
        let last = v.last().2;
        let tail = last.map_values(|p: Placement| as_rectangle(p));
        let all = placed_rectangles(v);
        assert forall|i: int| 0 <= i < all.len() implies (#[trigger] all[i]).width > 0 && all[i].height > 0 by {
            if i >= placed_rectangles(u).len() {
                let k = i - placed_rectangles(u).len();
                assert(all[i] == tail[k]);
                assert(v[v.len() - 1].2[k] == last[k]);
            } else {
                assert(all[i] == placed_rectangles(u)[i]);
            }
        }
    }
}

/// Placements that do not conflict share no area.
proof fn lemma_apart_no_overlap(a: Placement, b: Placement)
    requires
        !overlaps(a, b),
    ensures
        overlap_area(a, b) == 0,
{
}

proof fn lemma_row_zero(s: Seq<Placement>, i: int, c: int)
    requires
        0 <= i < s.len(),
        i < c,
        pairwise_disjoint(s),
    ensures
        row_overlap(s, i, c) == 0,
    decreases s.len() - c,
{
    if 0 <= c < s.len() {
        lemma_row_zero(s, i, c + 1);
        assert(!overlaps(s[i], s[c]));
        lemma_apart_no_overlap(s[i], s[c]);
    }
}

proof fn lemma_rows_zero(s: Seq<Placement>, i: int)
    requires
        0 <= i,
        pairwise_disjoint(s),
    ensures
        rows_overlap(s, i) == 0,
    decreases s.len() - i,
{
    if 0 <= i < s.len() {
        lemma_rows_zero(s, i + 1);
        lemma_row_zero(s, i, i + 1);
    }
}

proof fn lemma_bins_zero(pss: Seq<Seq<Placement>>, b: int)
    requires
        0 <= b,
        forall|c: int| 0 <= c < pss.len() ==> pairwise_disjoint(#[trigger] pss[c]),
    ensures
        bins_overlap(pss, b) == 0,
    decreases pss.len() - b,
{
    if 0 <= b < pss.len() {
        lemma_bins_zero(pss, b + 1);
        lemma_rows_zero(pss[b], 0);
    }
}

/// A valid solution has no two placements sharing area.
pub proof fn lemma_valid_no_overlap(s: PackingSolution, box_size: u32)
    requires
        valid_solution(s, box_size),
    ensures
        spec_total_overlap(s@) == 0,
{
    let pss = view_groups(s@);
    assert forall|c: int| 0 <= c < pss.len() implies pairwise_disjoint(#[trigger] pss[c]) by {
        assert(pss[c] == s.bins@[c].placements@);
        assert(crate::bin::valid_placements(s.bins@[c].placements@, box_size as int));
    }
    lemma_bins_zero(pss, 0);
}

proof fn lemma_placed_step(v: Seq<(usize, u32, Seq<Placement>)>, b: int)
    requires
        0 <= b < v.len(),
    ensures
        placed_rectangles(v.take(b + 1)) == placed_rectangles(v.take(b)) + v[b].2.map_values(|p: Placement| as_rectangle(p)),
{
    assert(v.take(b + 1).drop_last() =~= v.take(b));
    assert(v.take(b + 1).last() == v[b]);
}

/// A packing without shared area is handed back as it is; otherwise its
/// rectangles, unturned, are sorted by decreasing area (stably) and packed
/// afresh. Where every placement has positive size, the result has no
/// shared area.
fn repair_to_valid(instance: &Instance, solution: &PackingSolution) -> (r: PackingSolution)
    requires
        overlap_admissible(solution@, instance.box_size),
    ensures
        spec_total_overlap(solution@) == 0 ==> r@ == solution@,
        spec_total_overlap(solution@) != 0 ==> exists|order: Seq<Rectangle>|
            is_stable_sort_of(RectOrder::AreaDescending, order, placed_rectangles(solution@))
                && r@ == packed_view(instance.box_size, order) && #[trigger] is_packing_of(order, instance.box_size, r),
        placements_positive(solution@) ==> spec_total_overlap(r@) == 0,
{
    let ghost v = solution@;
    let box_size = instance.box_size;
    let ghost limit = choose|limit: u32| box_size <= limit && bounded_by(v, limit);
    proof {
        lemma_bounded_facts(v, box_size, limit);
        lemma_bins_nonneg(view_groups(v), 0);
    }
    if !overlaps_exist(solution) {
        return solution.clone();
    }
    let mut rects: Vec<Rectangle> = Vec::new();
    let nb = solution.bins.len();
    let mut b: usize = 0;
    proof {
        assert(v.take(0) =~= Seq::<(usize, u32, Seq<Placement>)>::empty());
        assert(v.len() >= 1);
    }
    while b < nb
        invariant
            nb == v.len(),
            v == solution@,
            b <= nb,
            all_within(v, limit),
            every_placement(v, area_fits()),
            rects@ == placed_rectangles(v.take(b as int)),
            crate::rect_order::areas_in_range(rects@),
        decreases nb - b,
    {
        let ps = &solution.bins[b].placements;
        let ghost s = ps@;
        let ghost base = rects@;
        proof {
            assert(s == v[b as int].2);
            lemma_placed_step(v, b as int);
        }
        let n = ps.len();
        let mut k: usize = 0;
        while k < n
            invariant
                n == s.len(),
                s == ps@,
                s == v[b as int].2,
                b < nb,
                nb == v.len(),
                k <= n,
                all_within(v, limit),
                every_placement(v, area_fits()),
                rects@ == base + s.take(k as int).map_values(|p: Placement| as_rectangle(p)),
                crate::rect_order::areas_in_range(rects@),
            decreases n - k,
        {
            let p = ps[k];
            let rect = Rectangle {
                id: p.rect_id,
                width: if p.rotated { p.height } else { p.width },
                height: if p.rotated { p.width } else { p.height },
            };
            proof {
                assert(p == v[b as int].2[k as int]);
                assert((area_fits())(v[b as int].2[k as int]));
                assert(rect.width * rect.height == p.width * p.height) by (nonlinear_arith)
                    requires
                        (rect.width == p.width && rect.height == p.height) || (rect.width == p.height && rect.height
                            == p.width),
                ;
            }
            let ghost before = rects@;
            rects.push(rect);
            proof {
                assert(rect == as_rectangle(s[k as int]));
                assert(s.take(k + 1).map_values(|p: Placement| as_rectangle(p)) =~= s.take(k as int).map_values(
                    |p: Placement| as_rectangle(p),
                ).push(rect));
                assert(rects@ =~= base + s.take(k + 1).map_values(|p: Placement| as_rectangle(p)));
                assert forall|i: int| 0 <= i < rects@.len() implies (#[trigger] rects@[i]).spec_area() <= u32::MAX by {
                    if i < before.len() {
                        assert(rects@[i] == before[i]);
                    }
                }
            }
            k += 1;
        }
        proof {
            assert(s.take(n as int) =~= s);
        }
        b += 1;
    }
    proof {
        assert(v.take(nb as int) =~= v);
    }
    let ghost unsorted = rects@;
    sort_rectangles(&mut rects, RectOrder::AreaDescending);
    let r = pack_rectangles(instance, rects.as_slice());
    proof {
        if placements_positive(v) {
            lemma_placed_positive(v);
            broadcast use vstd::seq_lib::group_to_multiset_ensures;
            assert forall|i: int| 0 <= i < rects@.len() implies (#[trigger] rects@[i]).width > 0 && rects@[i].height > 0 by {
                assert(rects@.contains(rects@[i]));
                assert(rects@.to_multiset().count(rects@[i]) > 0);
                assert(unsorted.contains(rects@[i]));
            }
            lemma_valid_no_overlap(r, box_size);
        }
    }
    r
}

/// `to` arises from `from` by one move of the overlap search: a rectangle
/// moved keeping its shape (see `overlap_moved_view`), or two rectangles
/// exchanged (see `overlap_swapped_view`).
pub open spec fn is_overlap_step(
    from: Seq<(usize, u32, Seq<Placement>)>,
    to: Seq<(usize, u32, Seq<Placement>)>,
    allowed: Seq<u32>,
    box_size: u32,
) -> bool {
    ||| exists|mv: GeometryMove| #[trigger] overlap_moved_view(from, mv, allowed, box_size) == Some(to) && move_keeps_shape(from, mv)
    ||| exists|bin_a: usize, rect_a: usize, bin_b: usize, rect_b: usize|
        #[trigger] overlap_swapped_view(from, bin_a, rect_a, bin_b, rect_b, allowed, box_size) == Some(to)
}

/// A packing's view, where there is one.
pub open spec fn option_view(o: Option<PackingSolution>) -> Option<Seq<(usize, u32, Seq<Placement>)>> {
    match o {
        Some(s) => Some(s@),
        None => None,
    }
}

/// The first of `positions` at which placement `p` can be moved from bin
/// `from` into bin `to` (see `overlap_moved_view`), as it stands or else,
/// where it is not square, turned; `None` where it can go at none of them.
pub open spec fn first_overlap_move(
    v: Seq<(usize, u32, Seq<Placement>)>,
    p: Placement,
    from: usize,
    to: usize,
    positions: Seq<(u32, u32)>,
    allowed: Seq<u32>,
    box_size: u32,
) -> Option<Seq<(usize, u32, Seq<Placement>)>>
    decreases positions.len(),
{
    if positions.len() == 0 {
        None
    } else {
        let q = positions[0];
        let plain = overlap_moved_view(v, placement_move(p, from, to, q.0, q.1, false), allowed, box_size);
        let turned = overlap_moved_view(v, placement_move(p, from, to, q.0, q.1, true), allowed, box_size);
        if plain is Some {
            plain
        } else if p.width != p.height && turned is Some {
            turned
        } else {
            first_overlap_move(v, p, from, to, positions.drop_first(), allowed, box_size)
        }
    }
}

/// The positions tried: the first 12 of `positions`, or all where there
/// are fewer.
pub open spec fn tried_positions(positions: Seq<(u32, u32)>) -> Seq<(u32, u32)> {
    positions.take(if positions.len() < 12 {
        positions.len() as int
    } else {
        12
    })
}

/// A draw of one proposal: `d = (swap, bin_a, bin_b, index_a, index_b)`
/// and an order of positions. An exchange is drawn only where there are
/// two bins or more; both bins are the packing's; for an exchange of two
/// different non-empty bins, the indices are placements of them; for a move
/// out of a non-empty bin `bin_a`, `index_a` is one of its placements and
/// `positions` holds the candidate positions of bin `bin_b`, each once, in
/// any order.
pub open spec fn is_overlap_draw(
    v: Seq<(usize, u32, Seq<Placement>)>,
    box_size: u32,
    d: (bool, usize, usize, usize, usize),
    positions: Seq<(u32, u32)>,
) -> bool {
    &&& d.0 ==> v.len() >= 2
    &&& d.1 < v.len()
    &&& d.2 < v.len()
    &&& (d.0 && d.1 != d.2 && v[d.1 as int].2.len() > 0 && v[d.2 as int].2.len() > 0) ==> d.3 < v[d.1 as int].2.len()
        && d.4 < v[d.2 as int].2.len()
    &&& (!d.0 && v[d.1 as int].2.len() > 0) ==> d.3 < v[d.1 as int].2.len() && positions.no_duplicates() && forall|
        q: (u32, u32),
    | #[trigger] positions.contains(q) <==> is_overlap_candidate(v, d.2 as int, box_size, q)
}

/// What a draw proposes: for an exchange, the two chosen placements
/// exchanged (see `overlap_swapped_view`), `None` where the bins are the same
/// or one is empty; for a move, the chosen placement at the first of the
/// tried positions where it can go (see `first_overlap_move`), `None` where
/// the source bin is empty.
pub open spec fn overlap_draw_result(
    v: Seq<(usize, u32, Seq<Placement>)>,
    d: (bool, usize, usize, usize, usize),
    positions: Seq<(u32, u32)>,
    allowed: Seq<u32>,
    box_size: u32,
) -> Option<Seq<(usize, u32, Seq<Placement>)>> {
    if d.1 >= v.len() || d.2 >= v.len() {
        None
    } else if d.0 {
        if d.1 == d.2 || d.3 >= v[d.1 as int].2.len() || d.4 >= v[d.2 as int].2.len() {
            None
        } else {
            overlap_swapped_view(
                v,
                d.1,
                v[d.1 as int].2[d.3 as int].rect_id,
                d.2,
                v[d.2 as int].2[d.4 as int].rect_id,
                allowed,
                box_size,
            )
        }
    } else if d.3 >= v[d.1 as int].2.len() {
        None
    } else {
        first_overlap_move(v, v[d.1 as int].2[d.3 as int], d.1, d.2, tried_positions(positions), allowed, box_size)
    }
}

/// `o` is what some draw proposes (see `is_overlap_draw`).
pub open spec fn is_overlap_outcome(
    v: Seq<(usize, u32, Seq<Placement>)>,
    o: Option<Seq<(usize, u32, Seq<Placement>)>>,
    allowed: Seq<u32>,
    box_size: u32,
) -> bool {
    exists|d: (bool, usize, usize, usize, usize), positions: Seq<(u32, u32)>|
        is_overlap_draw(v, box_size, d, positions) && o == #[trigger] overlap_draw_result(v, d, positions, allowed, box_size)
}

/// Moves the placement at `placement_index` of bin `from_bin` into bin
/// `to_bin` at the first of the tried positions (the first 12) where it can
/// go, as it stands or, where it is not square, turned (see
/// `first_overlap_move`).
pub fn first_overlap_move_at(
    current: &PackingSolution,
    from_bin: usize,
    placement_index: usize,
    to_bin: usize,
    positions: &Vec<(u32, u32)>,
    allowed: &Vec<u32>,
    box_size: u32,
) -> (r: Option<PackingSolution>)
    requires
        overlap_admissible(current@, box_size),
        allowed@.len() > box_size * box_size,
        from_bin < current@.len(),
        placement_index < current@[from_bin as int].2.len(),
    ensures
        option_view(r) == first_overlap_move(
            current@,
            current@[from_bin as int].2[placement_index as int],
            from_bin,
            to_bin,
            tried_positions(positions@),
            allowed@,
            box_size,
        ),
        r matches Some(s) ==> is_overlap_step(current@, s@, allowed@, box_size) && overlap_admissible(s@, box_size),
{
    proof {
        assert(current@[from_bin as int].2 == current.bins@[from_bin as int].placements@);
    }
    let placement = current.bins[from_bin].placements[placement_index];
    let rect_id = placement.rect_id;
    let base_width = placement.width;
    let base_height = placement.height;
    let base_rotated = placement.rotated;
    let count = if positions.len() < 12 {
        positions.len()
    } else {
        12
    };
    let ghost tried = tried_positions(positions@);
    let mut k: usize = 0;
    while k < count
        invariant
            count <= positions@.len(),
            tried == positions@.take(count as int),
            tried == tried_positions(positions@),
            k <= count,
            overlap_admissible(current@, box_size),
            allowed@.len() > box_size * box_size,
            from_bin < current@.len(),
            0 <= placement_index < current@[from_bin as int].2.len(),
            current@[from_bin as int].2[placement_index as int] == placement,
            rect_id == placement.rect_id,
            base_width == placement.width,
            base_height == placement.height,
            base_rotated == placement.rotated,
            first_overlap_move(current@, placement, from_bin, to_bin, tried, allowed@, box_size) == first_overlap_move(
                current@,
                placement,
                from_bin,
                to_bin,
                positions@.subrange(k as int, count as int),
                allowed@,
                box_size,
            ),
        decreases count - k,
    {
        let (x, y) = positions[k];
        let ghost rest = positions@.subrange(k as int, count as int);
        proof {
            assert(rest[0] == (x, y));
            assert(rest.drop_first() =~= positions@.subrange(k + 1, count as int));
        }
        let mv = GeometryMove {
            rect_id,
            from_bin,
            to_bin,
            new_x: x,
            new_y: y,
            new_width: base_width,
            new_height: base_height,
            rotated: base_rotated,
        };
        proof {
            assert(mv == placement_move(placement, from_bin, to_bin, x, y, false));
        }
        let found = apply_inter_bin_move_with_allowed_overlap(
            current,
            from_bin,
            to_bin,
            rect_id,
            x,
            y,
            base_width,
            base_height,
            base_rotated,
            allowed,
            box_size,
        );
        if let Some(s) = found {
            proof {
                assert(shape_matches(current@[from_bin as int].2[placement_index as int], mv));
                assert(move_keeps_shape(current@, mv));
                assert(overlap_moved_view(current@, mv, allowed@, box_size) == Some(s@));
                assert(first_overlap_move(current@, placement, from_bin, to_bin, rest, allowed@, box_size) == Some(s@));
            }
            return Some(s);
        }
        let mv_turned = GeometryMove {
            rect_id,
            from_bin,
            to_bin,
            new_x: x,
            new_y: y,
            new_width: base_height,
            new_height: base_width,
            rotated: !base_rotated,
        };
        proof {
            assert(mv_turned == placement_move(placement, from_bin, to_bin, x, y, true));
        }
        if base_width != base_height {
            let found_turned = apply_inter_bin_move_with_allowed_overlap(
                current,
                from_bin,
                to_bin,
                rect_id,
                x,
                y,
                base_height,
                base_width,
                !base_rotated,
                allowed,
                box_size,
            );
            if let Some(s) = found_turned {
                proof {
                    assert(shape_matches(current@[from_bin as int].2[placement_index as int], mv_turned));
                    assert(move_keeps_shape(current@, mv_turned));
                    assert(overlap_moved_view(current@, mv_turned, allowed@, box_size) == Some(s@));
                    assert(first_overlap_move(current@, placement, from_bin, to_bin, rest, allowed@, box_size) == Some(
                        s@,
                    ));
                }
                return Some(s);
            }
        }
        proof {
            assert(first_overlap_move(current@, placement, from_bin, to_bin, rest, allowed@, box_size)
                == first_overlap_move(current@, placement, from_bin, to_bin, rest.drop_first(), allowed@, box_size));
        }
        k += 1;
    }
    proof {
        assert(positions@.subrange(count as int, count as int).len() == 0);
    }
    None
}

/// One random proposal: with probability 1/4 (where there are two bins or
/// more) an exchange of a random rectangle of a random bin with one of
/// another, otherwise a move of a random rectangle to a random bin, at the
/// first of up to 12 of that bin's candidate positions, in random order,
/// where it is accepted as it stands or, if not square, turned.
fn random_overlap_candidate(
    current: &PackingSolution,
    rng: &mut ThreadRng,
    allowed: &Vec<u32>,
    box_size: u32,
) -> (r: Option<PackingSolution>)
    requires
        overlap_admissible(current@, box_size),
        allowed@.len() > box_size * box_size,
        current@.len() > 0,
    ensures
        is_overlap_outcome(current@, option_view(r), allowed@, box_size),
        r matches Some(s) ==> is_overlap_step(current@, s@, allowed@, box_size) && overlap_admissible(s@, box_size),
{
    let n = current.bins.len();
    let do_swap = n >= 2 && gen_ratio(rng, 1, 4);
    if do_swap {
        let bin_a = gen_index(rng, n);
        let bin_b = gen_index(rng, n);
        proof {
            assert(current@[bin_a as int].2 == current.bins@[bin_a as int].placements@);
            assert(current@[bin_b as int].2 == current.bins@[bin_b as int].placements@);
        }
        if bin_a == bin_b || current.bins[bin_a].placements.len() == 0 || current.bins[bin_b].placements.len() == 0 {
            proof {
                let d = (true, bin_a, bin_b, 0usize, 0usize);
                assert(overlap_draw_result(current@, d, Seq::empty(), allowed@, box_size) is None);
                assert(is_overlap_draw(current@, box_size, d, Seq::empty()));
            }
            return None;
        }
        let index_a = gen_index(rng, current.bins[bin_a].placements.len());
        let index_b = gen_index(rng, current.bins[bin_b].placements.len());
        let pa = current.bins[bin_a].placements[index_a];
        let pb = current.bins[bin_b].placements[index_b];
        let r = apply_swap_with_allowed_overlap(current, bin_a, pa.rect_id, bin_b, pb.rect_id, allowed, box_size);
        proof {
            let d = (true, bin_a, bin_b, index_a, index_b);
            assert(is_overlap_draw(current@, box_size, d, Seq::empty()));
            assert(option_view(r) == overlap_draw_result(current@, d, Seq::empty(), allowed@, box_size));
            if r is Some {
                assert(overlap_swapped_view(current@, bin_a, pa.rect_id, bin_b, pb.rect_id, allowed@, box_size) == Some(
                    r->0@,
                ));
            }
        }
        return r;
    }
    let from_bin = gen_index(rng, n);
    proof {
        assert(current@[from_bin as int].2 == current.bins@[from_bin as int].placements@);
    }
    if current.bins[from_bin].placements.len() == 0 {
        proof {
            let d = (false, from_bin, from_bin, 0usize, 0usize);
            assert(overlap_draw_result(current@, d, Seq::empty(), allowed@, box_size) is None);
            assert(is_overlap_draw(current@, box_size, d, Seq::empty()));
        }
        return None;
    }
    let placement_index = gen_index(rng, current.bins[from_bin].placements.len());
    let to_bin = gen_index(rng, n);
    proof {
        let limit = choose|limit: u32| box_size <= limit && bounded_by(current@, limit);
        lemma_bounded_facts(current@, box_size, limit);
    }
    let mut positions = candidate_positions(current, to_bin, box_size);
    let ghost sorted = positions@;
    shuffle_positions(rng, &mut positions);
    proof {
        broadcast use vstd::seq_lib::group_to_multiset_ensures;
        assert(sorted.no_duplicates()) by {
            assert forall|i: int, j: int| 0 <= i < sorted.len() && 0 <= j < sorted.len() && i != j implies sorted[i]
                != sorted[j] by {
                if i < j {
                    assert(point_lt(sorted[i], sorted[j]));
                } else {
                    assert(point_lt(sorted[j], sorted[i]));
                }
            }
        }
        sorted.lemma_multiset_has_no_duplicates();
        positions@.lemma_multiset_has_no_duplicates_conv();
        assert forall|q: (u32, u32)| #[trigger] positions@.contains(q) <==> is_overlap_candidate(
            current@,
            to_bin as int,
            box_size,
            q,
        ) by {
            assert(positions@.contains(q) <==> positions@.to_multiset().contains(q));
            assert(sorted.contains(q) <==> sorted.to_multiset().contains(q));
        }
    }
    let r = first_overlap_move_at(current, from_bin, placement_index, to_bin, &positions, allowed, box_size);
    proof {
        let d = (false, from_bin, to_bin, placement_index, 0usize);
        assert(is_overlap_draw(current@, box_size, d, positions@));
        assert(option_view(r) == overlap_draw_result(current@, d, positions@, allowed@, box_size));
    }
    r
}

/// The proposal of lowest penalised score among `cands` (see `tuple_below`),
/// with that score, the first among equals; `None` where none succeeded.
pub open spec fn lowest_proposal(
    cands: Seq<Option<Seq<(usize, u32, Seq<Placement>)>>>,
    box_size: u32,
    overlap_weight: u32,
) -> Option<(Seq<(usize, u32, Seq<Placement>)>, (usize, u32, u32, u32))>
    decreases cands.len(),
{
    if cands.len() == 0 {
        None
    } else {
        let before = lowest_proposal(cands.drop_last(), box_size, overlap_weight);
        match cands.last() {
            None => before,
            Some(w) => {
                let t = spec_overlap_score(w, box_size, overlap_weight);
                match before {
                    None => Some((w, t)),
                    Some(b) => if tuple_below(t, b.1) {
                        Some((w, t))
                    } else {
                        before
                    },
                }
            },
        }
    }
}

/// A proposal and its score, with the packing taken by its view.
pub open spec fn proposal_view(o: Option<(PackingSolution, (usize, u32, u32, u32))>) -> Option<
    (Seq<(usize, u32, Seq<Placement>)>, (usize, u32, u32, u32)),
> {
    match o {
        Some(c) => Some((c.0@, c.1)),
        None => None,
    }
}

/// `o` is the lowest (see `lowest_proposal`) of `tries` proposals for `v`,
/// each what some draw proposes (see `is_overlap_outcome`); none are made
/// where `v` has no bin.
pub open spec fn is_lowest_of_draws(
    v: Seq<(usize, u32, Seq<Placement>)>,
    tries: int,
    allowed: Seq<u32>,
    box_size: u32,
    overlap_weight: u32,
    o: Option<(Seq<(usize, u32, Seq<Placement>)>, (usize, u32, u32, u32))>,
) -> bool {
    exists|cands: Seq<Option<Seq<(usize, u32, Seq<Placement>)>>>|
        {
            &&& cands.len() == (if v.len() == 0 {
                0
            } else {
                tries
            })
            &&& forall|k: int| 0 <= k < cands.len() ==> is_overlap_outcome(v, #[trigger] cands[k], allowed, box_size)
            &&& o == #[trigger] lowest_proposal(cands, box_size, overlap_weight)
        }
}

/// A proposal held apart from its score, paired again, with the packing
/// taken by its view.
pub open spec fn paired_view(p: Option<PackingSolution>, t: Option<(usize, u32, u32, u32)>) -> Option<
    (Seq<(usize, u32, Seq<Placement>)>, (usize, u32, u32, u32)),
> {
    match (p, t) {
        (Some(a), Some(b)) => Some((a@, b)),
        _ => None,
    }
}

/// `tries` random proposals (see `random_overlap_candidate`); the one of
/// lowest penalised score, the first among equals, with that score. `None`
/// where the packing has no bin or no proposal succeeded.
pub fn best_overlap_candidate(
    current: &PackingSolution,
    rng: &mut ThreadRng,
    tries: usize,
    allowed: &Vec<u32>,
    box_size: u32,
    overlap_weight: u32,
) -> (r: Option<(PackingSolution, (usize, u32, u32, u32))>)
    requires
        overlap_admissible(current@, box_size),
        allowed@.len() > box_size * box_size,
    ensures
        is_lowest_of_draws(current@, tries as int, allowed@, box_size, overlap_weight, proposal_view(r)),
        current@.len() == 0 || tries == 0 ==> r is None,
        r matches Some(c) ==> is_overlap_step(current@, c.0@, allowed@, box_size) && overlap_admissible(c.0@, box_size)
            && c.1 == spec_overlap_score(c.0@, box_size, overlap_weight),
{
    let mut best: Option<(PackingSolution, (usize, u32, u32, u32))> = None;
    let ghost mut cands: Seq<Option<Seq<(usize, u32, Seq<Placement>)>>> = Seq::empty();
    if current.bins.len() == 0 {
        proof {
            assert(proposal_view(best) == lowest_proposal(cands, box_size, overlap_weight));
        }
        return best;
    }
    let mut t: usize = 0;
    while t < tries
        invariant
            t <= tries,
            current@.len() > 0,
            overlap_admissible(current@, box_size),
            allowed@.len() > box_size * box_size,
            t == 0 ==> best is None,
            cands.len() == t,
            forall|k: int| 0 <= k < cands.len() ==> is_overlap_outcome(current@, #[trigger] cands[k], allowed@, box_size),
            proposal_view(best) == lowest_proposal(cands, box_size, overlap_weight),
            best matches Some(c) ==> is_overlap_step(current@, c.0@, allowed@, box_size) && overlap_admissible(c.0@, box_size)
                && c.1 == spec_overlap_score(c.0@, box_size, overlap_weight),
        decreases tries - t,
    {
        let candidate = random_overlap_candidate(current, rng, allowed, box_size);
        let ghost old_cands = cands;
        proof {
            cands = cands.push(option_view(candidate));
            assert(cands.drop_last() =~= old_cands);
        }
        if let Some(candidate_solution) = candidate {
            let candidate_tuple = score_with_overlap_penalty(&candidate_solution, box_size, overlap_weight);
            let replace = match &best {
                None => true,
                Some(b) => score_tuple_below(&candidate_tuple, &b.1),
            };
            if replace {
                best = Some((candidate_solution, candidate_tuple));
            }
        }
        t += 1;
    }
    proof {
        assert(proposal_view(best) == lowest_proposal(cands, box_size, overlap_weight));
    }
    best
}

/// The greedy packing of `rects`, largest area first, is one the overlap
/// search can work on (see `overlap_admissible`).
pub open spec fn fallback_admissible(rects: Seq<Rectangle>, box_size: u32) -> bool {
    forall|sorted: Seq<Rectangle>|
        #[trigger] is_stable_sort_of(RectOrder::AreaDescending, sorted, rects) ==> overlap_admissible(
            packed_view(box_size, sorted),
            box_size,
        )
}


/// A bin that receives a placement survives the dropping of empty bins, so
/// the result has a bin.
proof fn lemma_filled_bin_kept(x: Seq<(usize, u32, Seq<Placement>)>, j: int, p: Placement)
    requires
        0 <= j < x.len(),
    ensures
        renumbered(nonempty_bins(with_placement(x, j, p))).len() > 0,
{
    let w = with_placement(x, j, p);
    assert(w[j].2.len() > 0);
    let pred = |b: (usize, u32, Seq<Placement>)| b.2.len() > 0;
    w.lemma_filter_contains(pred, j);
    assert(nonempty_bins(w).contains(w[j]));
}

/// A step of the overlap search leaves a packing with a bin.
pub proof fn lemma_overlap_step_has_bins(
    from: Seq<(usize, u32, Seq<Placement>)>,
    to: Seq<(usize, u32, Seq<Placement>)>,
    allowed: Seq<u32>,
    box_size: u32,
)
    requires
        is_overlap_step(from, to, allowed, box_size),
    ensures
        to.len() > 0,
{
    if exists|mv: GeometryMove| #[trigger] overlap_moved_view(from, mv, allowed, box_size) == Some(to) && move_keeps_shape(from, mv) {
        let mv = choose|mv: GeometryMove| #[trigger] overlap_moved_view(from, mv, allowed, box_size) == Some(to) && move_keeps_shape(from, mv);
        let i = first_index_of_id(from[mv.from_bin as int].2, mv.rect_id);
        let v1 = without_placement(from, mv.from_bin as int, i);
        let p = Placement {
            rect_id: mv.rect_id,
            x: mv.new_x,
            y: mv.new_y,
            width: mv.new_width,
            height: mv.new_height,
            rotated: mv.rotated,
        };
        lemma_filled_bin_kept(v1, mv.to_bin as int, p);
    } else {
        let (bin_a, rect_a, bin_b, rect_b) = choose|bin_a: usize, rect_a: usize, bin_b: usize, rect_b: usize|
            #[trigger] overlap_swapped_view(from, bin_a, rect_a, bin_b, rect_b, allowed, box_size) == Some(to);
        let ia = first_index_of_id(from[bin_a as int].2, rect_a);
        let ib = first_index_of_id(from[bin_b as int].2, rect_b);
        let a = from[bin_a as int].2[ia];
        let b = from[bin_b as int].2[ib];
        let v1 = without_placement(without_placement(from, bin_a as int, ia), bin_b as int, ib);
        let pa = Placement { rect_id: rect_b, x: a.x, y: a.y, width: b.width, height: b.height, rotated: b.rotated };
        let pb = Placement { rect_id: rect_a, x: b.x, y: b.y, width: a.width, height: a.height, rotated: a.rotated };
        lemma_filled_bin_kept(with_placement(v1, bin_a as int, pa), bin_b as int, pb);
    }
}

/// `to` arises from `from` by one step of the overlap search, for some
/// tolerance table.
pub open spec fn is_some_overlap_step(
    from: Seq<(usize, u32, Seq<Placement>)>,
    to: Seq<(usize, u32, Seq<Placement>)>,
    box_size: u32,
) -> bool {
    exists|allowed: Seq<u32>| #[trigger] is_overlap_step(from, to, allowed, box_size)
}

/// `v` packs `items`: bins numbered in order, none empty, each a proper
/// packing of a box of side `box_size`, together placing exactly the
/// rectangles of `items` that fit an empty box, each once.
pub open spec fn view_packs(items: Seq<Rectangle>, box_size: u32, v: Seq<(usize, u32, Seq<Placement>)>) -> bool {
    &&& numbered_nonempty(v)
    &&& bins_valid(v, box_size)
    &&& groups_sources(view_groups(v)) == fitting_keys(items, box_size)
}

/// `current` keeps what `origin` had: where the identifiers of `origin` are
/// distinct, they stay so and the same rectangles are placed (numbered bins
/// staying numbered); placements within the box stay within it; bins of the
/// box's side keep it.
pub open spec fn keeps_origin(
    origin: Seq<(usize, u32, Seq<Placement>)>,
    current: Seq<(usize, u32, Seq<Placement>)>,
    box_size: u32,
) -> bool {
    &&& (distinct_ids(origin) && origin.len() <= usize::MAX) ==> (distinct_ids(current) && groups_sources(
        view_groups(current),
    ) == groups_sources(view_groups(origin)) && (numbered_nonempty(origin) ==> numbered_nonempty(current)))
    &&& all_within(origin, box_size) ==> all_within(current, box_size)
    &&& sides_are(origin, box_size) ==> sides_are(current, box_size)
}

/// A step keeps what the start had (see `keeps_origin`).
proof fn lemma_keeps_step(
    origin: Seq<(usize, u32, Seq<Placement>)>,
    current: Seq<(usize, u32, Seq<Placement>)>,
    next: Seq<(usize, u32, Seq<Placement>)>,
    box_size: u32,
)
    requires
        keeps_origin(origin, current, box_size),
        is_some_overlap_step(current, next, box_size),
        current.len() <= usize::MAX,
    ensures
        keeps_origin(origin, next, box_size),
{
    let allowed = choose|allowed: Seq<u32>| #[trigger] is_overlap_step(current, next, allowed, box_size);
    lemma_overlap_step_keeps_box(current, next, allowed, box_size);
    if distinct_ids(origin) && origin.len() <= usize::MAX {
        lemma_overlap_step_keeps_rectangles(current, next, allowed, box_size);
    }
}

/// Placements standing for rectangles of positive size have positive size.
proof fn lemma_sources_positive(v: Seq<(usize, u32, Seq<Placement>)>, items: Seq<Rectangle>, box_size: u32)
    requires
        groups_sources(view_groups(v)) == fitting_keys(items, box_size),
        all_rects_positive(items),
    ensures
        placements_positive(v),
{
    let pss = view_groups(v);
    assert forall|b: int, k: int| 0 <= b < v.len() && 0 <= k < v[b].2.len() implies (#[trigger] v[b].2[k]).width > 0
        && v[b].2[k].height > 0 by {
        assert(pss[b] == v[b].2);
        lemma_in_groups(pss, b, k);
        lemma_fitting_member(items, box_size, source_of(v[b].2[k]));
        let i = choose|i: int|
            0 <= i < items.len() && crate::skyline::fits_empty_box(#[trigger] items[i], box_size) && rect_key(items[i])
                == source_of(v[b].2[k]);
    }
}

/// A packing that is proper in every bin has no shared area.
proof fn lemma_valid_view_no_overlap(v: Seq<(usize, u32, Seq<Placement>)>, box_size: u32)
    requires
        bins_valid(v, box_size),
    ensures
        spec_total_overlap(v) == 0,
{
    let pss = view_groups(v);
    assert forall|c: int| 0 <= c < pss.len() implies pairwise_disjoint(#[trigger] pss[c]) by {
        assert(pss[c] == v[c].2);
    }
    lemma_bins_zero(pss, 0);
}

/// A packing of positive rectangles whose placements keep what a packing of
/// them had, and that has no shared area, packs them.
proof fn lemma_kept_packs(
    items: Seq<Rectangle>,
    box_size: u32,
    origin: Seq<(usize, u32, Seq<Placement>)>,
    v: Seq<(usize, u32, Seq<Placement>)>,
)
    requires
        all_rects_positive(items),
        view_packs(items, box_size, origin),
        distinct_ids(origin),
        origin.len() <= usize::MAX,
        keeps_origin(origin, v, box_size),
        spec_total_overlap(v) == 0,
    ensures
        view_packs(items, box_size, v),
{
    assert(all_within(origin, box_size)) by {
        assert forall|b: int, k: int| 0 <= b < origin.len() && 0 <= k < origin[b].2.len() implies within(
            #[trigger] origin[b].2[k],
            box_size,
        ) by {
            assert(valid_placements(origin[b].2, box_size as int));
            assert(inside(origin[b].2[k], box_size as int));
        }
    }
    assert(sides_are(origin, box_size));
    lemma_sources_positive(v, items, box_size);
    lemma_no_overlap_valid(v, box_size);
}

/// The state of an overlap-relaxation search between rounds: the packing
/// being changed, the best overlap-free packing met so far and its score,
/// each such packing in turn, and the number of rounds performed.
pub struct OverlapSearch {
    instance: Instance,
    current: PackingSolution,
    pending: Option<PackingSolution>,
    best_valid: PackingSolution,
    best_valid_score: Score,
    history: Vec<PackingSolution>,
    iterations: usize,
    origin: Ghost<Seq<(usize, u32, Seq<Placement>)>>,
}

impl OverlapSearch {
    /// The instance being solved.
    pub closed spec fn spec_instance(self) -> Instance {
        self.instance
    }

    /// The packing being changed.
    pub closed spec fn spec_current(self) -> PackingSolution {
        self.current
    }

    /// The proposal of the round, if one was made and not yet settled.
    pub closed spec fn spec_pending(self) -> Option<PackingSolution> {
        self.pending
    }

    /// The packing the search started from.
    pub closed spec fn spec_origin(self) -> Seq<(usize, u32, Seq<Placement>)> {
        self.origin@
    }

    /// The best overlap-free packing met so far.
    pub closed spec fn spec_best(self) -> PackingSolution {
        self.best_valid
    }

    /// Each best packing in turn, the present one last.
    pub closed spec fn spec_history(self) -> Seq<PackingSolution> {
        self.history@
    }

    /// The rounds performed.
    pub closed spec fn spec_iterations(self) -> nat {
        self.iterations as nat
    }

    /// The state is consistent: both packings can be searched and scored,
    /// the best packing has no shared area (where the start had none or every
    /// rectangle of the instance has positive size) and its score is the
    /// best score,
    /// it ends the history, and each packing of the history scores strictly
    /// below the one before; a pending proposal is one step of the search
    /// away; the packing being changed keeps what the start packing had (see
    /// `keeps_origin`); and where the start is a packing of the instance's
    /// positive rectangles with distinct identifiers, so is the best one.
    pub closed spec fn wf(self) -> bool {
        let box_size = self.instance.box_size;
        &&& overlap_admissible(self.current@, box_size)
        &&& overlap_admissible(self.best_valid@, box_size)
        &&& (spec_total_overlap(self.origin@) == 0 || all_rects_positive(self.instance.rectangles@))
            ==> spec_total_overlap(self.best_valid@) == 0
        &&& self.best_valid_score == spec_evaluate(self.best_valid, box_size)
        &&& self.history@.len() > 0
        &&& self.history@.last()@ == self.best_valid@
        &&& forall|k: int|
            0 <= k < self.history@.len() - 1 ==> spec_evaluate(self.history@[k + 1], box_size).is_below(
                spec_evaluate(#[trigger] self.history@[k], box_size),
            )
        &&& self.pending matches Some(p) ==> overlap_admissible(p@, box_size) && is_some_overlap_step(
            self.current@,
            p@,
            box_size,
        )
        &&& keeps_origin(self.origin@, self.current@, box_size)
        &&& self.origin@.len() <= usize::MAX
        &&& (all_rects_positive(self.instance.rectangles@) && distinct_ids(self.origin@) && view_packs(
            self.instance.rectangles@,
            box_size,
            self.origin@,
        )) ==> view_packs(self.instance.rectangles@, box_size, self.best_valid@)
    }

    /// Starts from the given packing. Where it has no shared area it is also
    /// the best packing so far; otherwise the instance packed greedily,
    /// largest area first, is.
    pub fn start(instance: &Instance, start_solution: PackingSolution) -> (r: Self)
        requires
            overlap_admissible(start_solution@, instance.box_size),
            spec_total_overlap(start_solution@) > 0 ==> areas_in_range(instance.rectangles@) && fallback_admissible(
                instance.rectangles@,
                instance.box_size,
            ),
        ensures
            r.wf(),
            r.spec_instance().rectangles@ == instance.rectangles@,
            r.spec_instance().box_size == instance.box_size,
            r.spec_current()@ == start_solution@,
            spec_total_overlap(start_solution@) == 0 ==> r.spec_best()@ == start_solution@,
            spec_total_overlap(start_solution@) > 0 ==> (forall|sorted: Seq<Rectangle>|
                #[trigger] is_stable_sort_of(RectOrder::AreaDescending, sorted, instance.rectangles@) ==> r.spec_best()@
                    == packed_view(instance.box_size, sorted) && is_packing_of(sorted, instance.box_size, r.spec_best()))
                && is_packing_of(instance.rectangles@, instance.box_size, r.spec_best()),
            r.spec_history().len() == 1,
            r.spec_history()[0]@ == r.spec_best()@,
            r.spec_iterations() == 0,
            r.spec_origin() == start_solution@,
            r.spec_pending() is None,
    {
        let box_size = instance.box_size;
        let ghost v = start_solution@;
        proof {
            assert(start_solution.bins.len() == start_solution.bins@.len());
            if view_packs(instance.rectangles@, box_size, v) {
                lemma_valid_view_no_overlap(v, box_size);
            }
        }
        proof {
            let limit = choose|limit: u32| box_size <= limit && bounded_by(v, limit);
            lemma_bounded_facts(v, box_size, limit);
            lemma_bins_nonneg(view_groups(v), 0);
        }
        let best_valid = if overlaps_exist(&start_solution) {
            let g = run_greedy(instance, GreedyStrategy::AreaDescending);
            proof {
                assert(strategy_order(GreedyStrategy::AreaDescending) == RectOrder::AreaDescending);
                let sorted = choose|sorted: Seq<Rectangle>|
                    is_stable_sort_of(RectOrder::AreaDescending, sorted, instance.rectangles@) && g@ == packed_view(
                        box_size,
                        sorted,
                    ) && #[trigger] is_packing_of(sorted, box_size, g);
                assert forall|other: Seq<Rectangle>|
                    #[trigger] is_stable_sort_of(RectOrder::AreaDescending, other, instance.rectangles@) implies g@
                        == packed_view(box_size, other) && is_packing_of(other, box_size, g) by {
                    crate::rect_order::lemma_stable_sort_unique(RectOrder::AreaDescending, sorted, other, instance.rectangles@);
                }
                assert(overlap_admissible(packed_view(box_size, sorted), box_size));
                assert(overlap_admissible(g@, box_size));
                if all_rects_positive(instance.rectangles@) {
                    lemma_valid_no_overlap(g, box_size);
                }
            }
            g
        } else {
            start_solution.clone()
        };
        proof {
            let limit = choose|limit: u32| box_size <= limit && bounded_by(best_valid@, limit);
            lemma_bounded_facts(best_valid@, box_size, limit);
        }
        let best_valid_score = score_packing(&best_valid, box_size);
        let mut history: Vec<PackingSolution> = Vec::new();
        history.push(best_valid.clone());
        OverlapSearch {
            instance: instance.clone(),
            current: start_solution,
            pending: None,
            best_valid,
            best_valid_score,
            history,
            iterations: 0,
            origin: Ghost(v),
        }
    }

    /// The packing being changed has at least one bin.
    pub fn has_bins(&self) -> (r: bool)
        ensures
            r == (self.spec_current()@.len() > 0),
    {
        self.current.bins.len() > 0
    }

    /// The rounds performed so far.
    pub fn iterations(&self) -> (r: usize)
        ensures
            r == self.spec_iterations(),
    {
        self.iterations
    }

    /// The penalised score of the packing being changed (see
    /// `spec_overlap_score`).
    pub fn current_score(&self, overlap_weight: u32) -> (r: (usize, u32, u32, u32))
        requires
            self.wf(),
        ensures
            r == spec_overlap_score(self.spec_current()@, self.spec_instance().box_size, overlap_weight),
    {
        score_with_overlap_penalty(&self.current, self.instance.box_size, overlap_weight)
    }

    /// The best of `tries` random proposals from the packing being changed
    /// (see `best_overlap_candidate`) becomes the round's proposal; its
    /// penalised score is handed back.
    pub fn propose(&mut self, rng: &mut ThreadRng, tries: usize, allowed: &Vec<u32>, overlap_weight: u32) -> (r: Option<
        (usize, u32, u32, u32),
    >)
        requires
            old(self).wf(),
            allowed@.len() > old(self).spec_instance().box_size * old(self).spec_instance().box_size,
        ensures
            final(self).wf(),
            final(self).spec_instance() == old(self).spec_instance(),
            final(self).spec_current() == old(self).spec_current(),
            final(self).spec_best() == old(self).spec_best(),
            final(self).spec_history() == old(self).spec_history(),
            final(self).spec_iterations() == old(self).spec_iterations(),
            final(self).spec_origin() == old(self).spec_origin(),
            old(self).spec_current()@.len() == 0 || tries == 0 ==> final(self).spec_pending() is None,
            r is Some <==> final(self).spec_pending() is Some,
            final(self).spec_pending() matches Some(p) ==> is_overlap_step(
                old(self).spec_current()@,
                p@,
                allowed@,
                old(self).spec_instance().box_size,
            ) && overlap_admissible(p@, old(self).spec_instance().box_size) && r == Some(
                spec_overlap_score(p@, old(self).spec_instance().box_size, overlap_weight),
            ),
            is_lowest_of_draws(
                old(self).spec_current()@,
                tries as int,
                allowed@,
                old(self).spec_instance().box_size,
                overlap_weight,
                paired_view(final(self).spec_pending(), r),
            ),
    {
        let found = best_overlap_candidate(&self.current, rng, tries, allowed, self.instance.box_size, overlap_weight);
        match found {
            Some((candidate, tuple)) => {
                proof {
                    assert(is_overlap_step(self.current@, candidate@, allowed@, self.instance.box_size));
                    assert(is_some_overlap_step(self.current@, candidate@, self.instance.box_size));
                }
                self.pending = Some(candidate);
                Some(tuple)
            },
            None => {
                self.pending = None;
                None
            },
        }
    }

    /// Ends a round: where `accept` holds and there is a proposal, it becomes
    /// the packing being changed; the proposal is dropped; then, where the
    /// packing being changed has no shared area and scores strictly below
    /// the best so far, it becomes the best and joins the history.
    pub fn advance(&mut self, accept: bool)
        requires
            old(self).wf(),
            old(self).spec_iterations() < usize::MAX,
        ensures
            final(self).wf(),
            final(self).spec_instance() == old(self).spec_instance(),
            final(self).spec_origin() == old(self).spec_origin(),
            final(self).spec_pending() is None,
            final(self).spec_iterations() == old(self).spec_iterations() + 1,
            !(accept && old(self).spec_pending() is Some) ==> final(self).spec_current() == old(self).spec_current(),
            accept && old(self).spec_pending() is Some ==> final(self).spec_current() == old(self).spec_pending()->0,
            old(self).spec_current()@.len() > 0 ==> final(self).spec_current()@.len() > 0,
            ({
                let box_size = old(self).spec_instance().box_size;
                let cur = final(self).spec_current();
                if spec_total_overlap(cur@) == 0 && spec_evaluate(cur, box_size).is_below(
                    spec_evaluate(old(self).spec_best(), box_size),
                ) {
                    &&& final(self).spec_best()@ == cur@
                    &&& final(self).spec_history().len() == old(self).spec_history().len() + 1
                    &&& final(self).spec_history().drop_last() == old(self).spec_history()
                    &&& final(self).spec_history().last()@ == cur@
                } else {
                    &&& final(self).spec_best() == old(self).spec_best()
                    &&& final(self).spec_history() == old(self).spec_history()
                }
            }),
    {
        let proposal = self.pending.take();
        if accept {
            if let Some(s) = proposal {
                proof {
                    assert(self.current.bins.len() == self.current.bins@.len());
                    lemma_keeps_step(self.origin@, self.current@, s@, self.instance.box_size);
                    let allowed = choose|allowed: Seq<u32>|
                        #[trigger] is_overlap_step(self.current@, s@, allowed, self.instance.box_size);
                    lemma_overlap_step_has_bins(self.current@, s@, allowed, self.instance.box_size);
                }
                self.current = s;
            }
        }
        self.iterations = self.iterations + 1;
        let box_size = self.instance.box_size;
        let ghost cur = self.current@;
        proof {
            let limit = choose|limit: u32| box_size <= limit && bounded_by(cur, limit);
            lemma_bounded_facts(cur, box_size, limit);
            lemma_bins_nonneg(view_groups(cur), 0);
        }
        if !overlaps_exist(&self.current) {
            let score = score_packing(&self.current, box_size);
            if score.bins_used < self.best_valid_score.bins_used || (score.bins_used == self.best_valid_score.bins_used
                && score.wasted_area < self.best_valid_score.wasted_area) {
                let ghost old_history = self.history@;
                proof {
                    let items = self.instance.rectangles@;
                    if all_rects_positive(items) && distinct_ids(self.origin@) && view_packs(items, box_size, self.origin@) {
                        lemma_kept_packs(items, box_size, self.origin@, cur);
                    }
                }
                self.best_valid = self.current.clone();
                self.best_valid_score = score;
                self.history.push(self.best_valid.clone());
                proof {
                    assert(self.history@.drop_last() == old_history);
                    assert forall|k: int| 0 <= k < self.history@.len() - 1 implies spec_evaluate(
                        self.history@[k + 1],
                        box_size,
                    ).is_below(spec_evaluate(#[trigger] self.history@[k], box_size)) by {
                        if k == self.history@.len() - 2 {
                            assert(self.history@[k] == old_history.last());
                        } else {
                            assert(self.history@[k] == old_history[k]);
                            assert(self.history@[k + 1] == old_history[k + 1]);
                        }
                    }
                }
            }
        }
    }

    /// Ends the search: the best packing, repaired where it has shared area
    /// (see `repair_to_valid`; the best packing has none where the start had
    /// none or every rectangle has positive size), with its
    /// score and the rounds performed; the repaired packing would join the
    /// history where it scored strictly below the history's last packing,
    /// which is the best one.
    pub fn finish(self) -> (r: OverlapResult)
        requires
            self.wf(),
        ensures
            spec_total_overlap(self.spec_best()@) == 0 ==> r.solution@ == self.spec_best()@ && r.history@
                == self.spec_history() && r.history@.last()@ == r.solution@,
            (spec_total_overlap(self.spec_origin()) == 0 || all_rects_positive(self.spec_instance().rectangles@))
                ==> spec_total_overlap(self.spec_best()@) == 0,
            placements_positive(self.spec_best()@) ==> spec_total_overlap(r.solution@) == 0,
            r.score == spec_evaluate(r.solution, self.spec_instance().box_size),
            r.iterations == self.spec_iterations(),
            r.history@.len() >= self.spec_history().len(),
            forall|k: int| 0 <= k < self.spec_history().len() ==> r.history@[k] == #[trigger] self.spec_history()[k],
            all_rects_positive(self.spec_instance().rectangles@) && distinct_ids(self.spec_origin()) && view_packs(
                self.spec_instance().rectangles@,
                self.spec_instance().box_size,
                self.spec_origin(),
            ) ==> view_packs(self.spec_instance().rectangles@, self.spec_instance().box_size, r.solution@),
            forall|k: int|
                0 <= k < r.history@.len() - 1 ==> spec_evaluate(r.history@[k + 1], self.spec_instance().box_size).is_below(
                    spec_evaluate(#[trigger] r.history@[k], self.spec_instance().box_size),
                ),
    {
        let box_size = self.instance.box_size;
        let ghost best = self.best_valid@;
        let ghost limit = choose|limit: u32| box_size <= limit && bounded_by(best, limit);
        let final_solution = repair_to_valid(&self.instance, &self.best_valid);
        proof {
            lemma_bounded_facts(best, box_size, limit);
        }
        let final_score = score_packing(&final_solution, box_size);
        let mut history = self.history;
        let ghost old_history = history@;
        let last_index = history.len() - 1;
        let last_score = score_packing(&history[last_index], box_size);
        proof {
            assert(history@[last_index as int] == old_history.last());
        }
        if final_score.bins_used < last_score.bins_used || (final_score.bins_used == last_score.bins_used
            && final_score.wasted_area < last_score.wasted_area) {
            history.push(final_solution.clone());
            proof {
                assert(history@.drop_last() == old_history);
                assert forall|k: int| 0 <= k < history@.len() - 1 implies spec_evaluate(history@[k + 1], box_size).is_below(
                    spec_evaluate(#[trigger] history@[k], box_size),
                ) by {
                    if k == history@.len() - 2 {
                        assert(history@[k] == old_history.last());
                    } else {
                        assert(history@[k] == old_history[k]);
                        assert(history@[k + 1] == old_history[k + 1]);
                    }
                }
            }
        }
        OverlapResult { solution: final_solution, score: final_score, iterations: self.iterations, history }
    }
}

/// Proposals made in each round: 140 for instances of at most 25
/// rectangles, 40 for larger ones.
pub fn tries_per_iteration(instance: &Instance) -> (r: usize)
    ensures
        r == (if instance.rectangles@.len() <= 25 {
            140usize
        } else {
            40usize
        }),
{
    if instance.rectangles.len() <= 25 {
        140
    } else {
        40
    }
}

/// Taking a placement out keeps the identifiers distinct and takes out the
/// rectangle it stands for.
proof fn lemma_without_keeps(v: Seq<(usize, u32, Seq<Placement>)>, j: int, i: int)
    requires
        0 <= j < v.len(),
        0 <= i < v[j].2.len(),
        distinct_ids(v),
    ensures
        distinct_ids(without_placement(v, j, i)),
        groups_sources(view_groups(v)) == groups_sources(view_groups(without_placement(v, j, i))).insert(
            source_of(v[j].2[i]),
        ),
        forall|b: int, k: int|
            0 <= b < v.len() && 0 <= k < without_placement(v, j, i)[b].2.len() ==> (#[trigger] without_placement(v, j, i)[b].2[k]).rect_id
                != v[j].2[i].rect_id,
        forall|b: int, k: int|
            0 <= b < v.len() && 0 <= k < without_placement(v, j, i)[b].2.len() ==> #[trigger] without_placement(v, j, i)[b].2[k]
                == v[b].2[if b == j && k >= i {
                k + 1
            } else {
                k
            }],
{
    let w = without_placement(v, j, i);
    assert forall|b: int, k: int| 0 <= b < w.len() && 0 <= k < w[b].2.len() implies (#[trigger] w[b].2[k]) == v[b].2[if b
        == j && k >= i {
        k + 1
    } else {
        k
    }] by {}
    assert forall|b1: int, k1: int, b2: int, k2: int|
        0 <= b1 < w.len() && 0 <= k1 < w[b1].2.len() && 0 <= b2 < w.len() && 0 <= k2 < w[b2].2.len() && (b1 != b2
            || k1 != k2) implies (#[trigger] w[b1].2[k1]).rect_id != (#[trigger] w[b2].2[k2]).rect_id by {
        let m1 = if b1 == j && k1 >= i { k1 + 1 } else { k1 };
        let m2 = if b2 == j && k2 >= i { k2 + 1 } else { k2 };
        assert(w[b1].2[k1] == v[b1].2[m1]);
        assert(w[b2].2[k2] == v[b2].2[m2]);
    }
    assert forall|b: int, k: int| 0 <= b < v.len() && 0 <= k < w[b].2.len() implies (#[trigger] w[b].2[k]).rect_id
        != v[j].2[i].rect_id by {
        let m = if b == j && k >= i { k + 1 } else { k };
        assert(w[b].2[k] == v[b].2[m]);
    }
    assert(view_groups(w) =~= view_groups(v).update(j, v[j].2.remove(i)));
    crate::local_search_geometry::lemma_groups_remove(view_groups(v), j, i);
}

/// Adding a placement whose identifier no placement carries keeps the
/// identifiers distinct and adds the rectangle it stands for.
proof fn lemma_with_keeps(v: Seq<(usize, u32, Seq<Placement>)>, j: int, p: Placement)
    requires
        0 <= j < v.len(),
        distinct_ids(v),
        forall|b: int, k: int| 0 <= b < v.len() && 0 <= k < v[b].2.len() ==> (#[trigger] v[b].2[k]).rect_id != p.rect_id,
    ensures
        distinct_ids(with_placement(v, j, p)),
        groups_sources(view_groups(with_placement(v, j, p))) == groups_sources(view_groups(v)).insert(source_of(p)),
{
    let w = with_placement(v, j, p);
    assert forall|b1: int, k1: int, b2: int, k2: int|
        0 <= b1 < w.len() && 0 <= k1 < w[b1].2.len() && 0 <= b2 < w.len() && 0 <= k2 < w[b2].2.len() && (b1 != b2
            || k1 != k2) implies (#[trigger] w[b1].2[k1]).rect_id != (#[trigger] w[b2].2[k2]).rect_id by {
        let new1 = b1 == j && k1 == v[j].2.len();
        let new2 = b2 == j && k2 == v[j].2.len();
        if new1 {
            assert(w[b2].2[k2] == v[b2].2[k2]);
        } else if new2 {
            assert(w[b1].2[k1] == v[b1].2[k1]);
        } else {
            assert(w[b1].2[k1] == v[b1].2[k1]);
            assert(w[b2].2[k2] == v[b2].2[k2]);
        }
    }
    assert(view_groups(w) =~= view_groups(v).update(j, v[j].2.push(p)));
    lemma_groups_push(view_groups(v), j, p);
}

/// Dropping empty bins and numbering the rest keeps the identifiers distinct
/// and the rectangles placed, and leaves the bins numbered in order, none
/// empty.
proof fn lemma_tidy_keeps(v: Seq<(usize, u32, Seq<Placement>)>)
    requires
        distinct_ids(v),
        v.len() <= usize::MAX,
    ensures
        distinct_ids(renumbered(nonempty_bins(v))),
        groups_sources(view_groups(renumbered(nonempty_bins(v)))) == groups_sources(view_groups(v)),
        numbered_nonempty(renumbered(nonempty_bins(v))),
{
    let ne = nonempty_bins(v);
    let w = renumbered(ne);
    lemma_groups_nonempty(v);
    lemma_nonempty_bins(v);
    lemma_nonempty_distinct_ids(v);
    assert(view_groups(w) =~= view_groups(ne));
    assert forall|b1: int, k1: int, b2: int, k2: int|
        0 <= b1 < w.len() && 0 <= k1 < w[b1].2.len() && 0 <= b2 < w.len() && 0 <= k2 < w[b2].2.len() && (b1 != b2
            || k1 != k2) implies (#[trigger] w[b1].2[k1]).rect_id != (#[trigger] w[b2].2[k2]).rect_id by {
        assert(w[b1].2[k1] == ne[b1].2[k1]);
        assert(w[b2].2[k2] == ne[b2].2[k2]);
    }
}

/// Law: a step of the overlap search from a packing whose placements carry
/// distinct identifiers places the same rectangles (each turned or not as
/// before), keeps the identifiers distinct, and leaves the bins numbered in
/// order, none empty.
pub proof fn lemma_overlap_step_keeps_rectangles(
    v: Seq<(usize, u32, Seq<Placement>)>,
    w: Seq<(usize, u32, Seq<Placement>)>,
    allowed: Seq<u32>,
    box_size: u32,
)
    requires
        is_overlap_step(v, w, allowed, box_size),
        distinct_ids(v),
        v.len() <= usize::MAX,
    ensures
        groups_sources(view_groups(w)) == groups_sources(view_groups(v)),
        distinct_ids(w),
        numbered_nonempty(w),
{
    broadcast use vstd::multiset::group_multiset_axioms;
    if exists|mv: GeometryMove| #[trigger] overlap_moved_view(v, mv, allowed, box_size) == Some(w) && move_keeps_shape(v, mv) {
        let mv = choose|mv: GeometryMove| #[trigger] overlap_moved_view(v, mv, allowed, box_size) == Some(w) && move_keeps_shape(v, mv);
        let f = mv.from_bin as int;
        let i = first_index_of_id(v[f].2, mv.rect_id);
        assert(is_first_with_id(v[f].2, mv.rect_id, i)) by {
            let i0 = choose|i0: int| 0 <= i0 < v[f].2.len() && (#[trigger] v[f].2[i0]).rect_id == mv.rect_id;
            lemma_first_witness(v[f].2, mv.rect_id, i0);
        }
        let k0 = choose|k: int| 0 <= k < v[f].2.len() && #[trigger] shape_matches(v[f].2[k], mv);
        assert(k0 == i) by {
            if k0 != i {
                assert(v[f].2[k0].rect_id != v[f].2[i].rect_id);
            }
        }
        let v1 = without_placement(v, f, i);
        let p = Placement {
            rect_id: mv.rect_id,
            x: mv.new_x,
            y: mv.new_y,
            width: mv.new_width,
            height: mv.new_height,
            rotated: mv.rotated,
        };
        lemma_without_keeps(v, f, i);
        lemma_with_keeps(v1, mv.to_bin as int, p);
        assert(source_of(p) == source_of(v[f].2[i]));
        let v2 = with_placement(v1, mv.to_bin as int, p);
        lemma_tidy_keeps(v2);
        assert(groups_sources(view_groups(v2)) =~= groups_sources(view_groups(v)));
    } else {
        let (bin_a, rect_a, bin_b, rect_b) = choose|bin_a: usize, rect_a: usize, bin_b: usize, rect_b: usize|
            #[trigger] overlap_swapped_view(v, bin_a, rect_a, bin_b, rect_b, allowed, box_size) == Some(w);
        let ja = bin_a as int;
        let jb = bin_b as int;
        let ia = first_index_of_id(v[ja].2, rect_a);
        let ib = first_index_of_id(v[jb].2, rect_b);
        assert(is_first_with_id(v[ja].2, rect_a, ia)) by {
            let i0 = choose|i0: int| 0 <= i0 < v[ja].2.len() && (#[trigger] v[ja].2[i0]).rect_id == rect_a;
            lemma_first_witness(v[ja].2, rect_a, i0);
        }
        assert(is_first_with_id(v[jb].2, rect_b, ib)) by {
            let i0 = choose|i0: int| 0 <= i0 < v[jb].2.len() && (#[trigger] v[jb].2[i0]).rect_id == rect_b;
            lemma_first_witness(v[jb].2, rect_b, i0);
        }
        let a = v[ja].2[ia];
        let b = v[jb].2[ib];
        let v0 = without_placement(v, ja, ia);
        lemma_without_keeps(v, ja, ia);
        assert(v0[jb] == v[jb]);
        let v1 = without_placement(v0, jb, ib);
        lemma_without_keeps(v0, jb, ib);
        let pa = Placement { rect_id: rect_b, x: a.x, y: a.y, width: b.width, height: b.height, rotated: b.rotated };
        let pb = Placement { rect_id: rect_a, x: b.x, y: b.y, width: a.width, height: a.height, rotated: a.rotated };
        assert forall|c: int, k: int| 0 <= c < v1.len() && 0 <= k < v1[c].2.len() implies (#[trigger] v1[c].2[k]).rect_id
            != rect_a by {
            let m = if c == jb && k >= ib { k + 1 } else { k };
            assert(v1[c].2[k] == v0[c].2[m]);
        }
        lemma_with_keeps(v1, ja, pa);
        let v2 = with_placement(v1, ja, pa);
        assert forall|c: int, k: int| 0 <= c < v2.len() && 0 <= k < v2[c].2.len() implies (#[trigger] v2[c].2[k]).rect_id
            != rect_a by {
            if c == ja && k == v1[ja].2.len() {
                assert(v2[c].2[k] == pa);
                assert(a.rect_id != b.rect_id);
            } else {
                assert(v2[c].2[k] == v1[c].2[k]);
            }
        }
        lemma_with_keeps(v2, jb, pb);
        let v3 = with_placement(v2, jb, pb);
        lemma_tidy_keeps(v3);
        assert(source_of(pa) == source_of(b));
        assert(source_of(pb) == source_of(a));
        assert(groups_sources(view_groups(v3)) =~= groups_sources(view_groups(v)));
    }
}

/// How far a placement reaches: the larger of its right and top edges.
pub open spec fn reach(p: Placement) -> int {
    if p.x + p.width >= p.y + p.height {
        p.x + p.width
    } else {
        p.y + p.height
    }
}

/// The largest reach of any placement of `v`, and `box_size` where that is
/// larger.
pub open spec fn extent(v: Seq<(usize, u32, Seq<Placement>)>, box_size: u32) -> int
    decreases v.len(),
{
    if v.len() == 0 {
        box_size as int
    } else {
        let rest = extent(v.drop_last(), box_size);
        let here = group_extent(v.last().2);
        if here > rest {
            here
        } else {
            rest
        }
    }
}

/// The largest reach of the placements (0 for none).
pub open spec fn group_extent(ps: Seq<Placement>) -> int
    decreases ps.len(),
{
    if ps.len() == 0 {
        0
    } else {
        let rest = group_extent(ps.drop_last());
        if reach(ps.last()) > rest {
            reach(ps.last())
        } else {
            rest
        }
    }
}

pub(crate) proof fn lemma_group_extent(ps: Seq<Placement>)
    ensures
        group_extent(ps) >= 0,
        forall|k: int| 0 <= k < ps.len() ==> reach(#[trigger] ps[k]) <= group_extent(ps),
        ps.len() > 0 ==> exists|k: int| 0 <= k < ps.len() && reach(#[trigger] ps[k]) == group_extent(ps),
    decreases ps.len(),
{
    if ps.len() > 0 {
        let d = ps.drop_last();
        lemma_group_extent(d);
        assert forall|k: int| 0 <= k < ps.len() implies reach(#[trigger] ps[k]) <= group_extent(ps) by {
            if k < d.len() {
                assert(d[k] == ps[k]);
            }
        }
        if reach(ps.last()) > group_extent(d) || d.len() == 0 {
            assert(reach(ps[ps.len() - 1]) == group_extent(ps));
        } else {
            let k = choose|k: int| 0 <= k < d.len() && reach(#[trigger] d[k]) == group_extent(d);
            assert(d[k] == ps[k]);
        }
    }
}

proof fn lemma_extent(v: Seq<(usize, u32, Seq<Placement>)>, box_size: u32)
    ensures
        extent(v, box_size) >= box_size,
        forall|b: int, k: int| 0 <= b < v.len() && 0 <= k < v[b].2.len() ==> reach(#[trigger] v[b].2[k]) <= extent(v, box_size),
        extent(v, box_size) == box_size || exists|b: int, k: int|
            0 <= b < v.len() && 0 <= k < v[b].2.len() && reach(#[trigger] v[b].2[k]) == extent(v, box_size),
    decreases v.len(),
{
    if v.len() > 0 {
        let d = v.drop_last();
        lemma_extent(d, box_size);
        let last = v.last().2;
        lemma_group_extent(last);
        assert(v[v.len() - 1].2 == last);
        assert forall|b: int, k: int| 0 <= b < v.len() && 0 <= k < v[b].2.len() implies reach(#[trigger] v[b].2[k])
            <= extent(v, box_size) by {
            if b < d.len() {
                assert(d[b] == v[b]);
            } else {
                assert(v[b].2[k] == last[k]);
            }
        }
        if group_extent(last) > extent(d, box_size) {
            let k = choose|k: int| 0 <= k < last.len() && reach(#[trigger] last[k]) == group_extent(last);
            assert(v[v.len() - 1].2[k] == last[k]);
        } else if extent(d, box_size) != box_size {
            let (b, k) = choose|b: int, k: int|
                0 <= b < d.len() && 0 <= k < d[b].2.len() && reach(#[trigger] d[b].2[k]) == extent(d, box_size);
            assert(d[b] == v[b]);
        }
    }
}

/// A packing bounded by some extent at least the box side is bounded by its
/// own extent.
proof fn lemma_extent_least(v: Seq<(usize, u32, Seq<Placement>)>, box_size: u32, m: u32)
    requires
        box_size <= m,
        bounded_by(v, m),
    ensures
        extent(v, box_size) <= m,
{
    lemma_extent(v, box_size);
    if extent(v, box_size) != box_size {
        let (b, k) = choose|b: int, k: int|
            0 <= b < v.len() && 0 <= k < v[b].2.len() && reach(#[trigger] v[b].2[k]) == extent(v, box_size);
        assert(within(v[b].2[k], m));
    }
}

/// Whether the overlap search can work on the packing (see
/// `overlap_admissible`): the smallest candidate extent is tried.
pub fn is_overlap_admissible(solution: &PackingSolution, box_size: u32) -> (r: bool)
    ensures
        r == overlap_admissible(solution@, box_size),
{
    let ghost v = solution@;
    let nb = solution.bins.len();
    let mut limit: u64 = box_size as u64;
    let mut areas_ok = true;
    let mut b: usize = 0;
    proof {
        assert(v.take(0) =~= Seq::<(usize, u32, Seq<Placement>)>::empty());
    }
    while b < nb
        invariant
            nb == v.len(),
            v == solution@,
            b <= nb,
            limit == extent(v.take(b as int), box_size),
            limit <= 2 * (u32::MAX as int),
            areas_ok == (forall|c: int, k: int|
                0 <= c < b && 0 <= k < v[c].2.len() ==> (#[trigger] v[c].2[k]).width * v[c].2[k].height <= u32::MAX),
        decreases nb - b,
    {
        let ps = &solution.bins[b].placements;
        let ghost s = ps@;
        let n = ps.len();
        let mut g: u64 = 0;
        let mut fit = true;
        let mut k: usize = 0;
        proof {
            assert(s == v[b as int].2);
            assert(s.take(0) =~= Seq::<Placement>::empty());
        }
        while k < n
            invariant
                n == s.len(),
                s == ps@,
                k <= n,
                g == group_extent(s.take(k as int)),
                g <= 2 * (u32::MAX as int),
                fit == (forall|m: int| 0 <= m < k ==> (#[trigger] s[m]).width * s[m].height <= u32::MAX),
            decreases n - k,
        {
            let p = ps[k];
            let right = p.x as u64 + p.width as u64;
            let top = p.y as u64 + p.height as u64;
            let here = if right >= top {
                right
            } else {
                top
            };
            proof {
                assert(s.take(k + 1).drop_last() =~= s.take(k as int));
                assert(s.take(k + 1).last() == p);
                assert(p.width * p.height <= u64::MAX) by (nonlinear_arith)
                    requires
                        p.width <= u32::MAX,
                        p.height <= u32::MAX,
                ;
            }
            if here > g {
                g = here;
            }
            if p.width as u64 * p.height as u64 > u32::MAX as u64 {
                fit = false;
            }
            k += 1;
        }
        proof {
            assert(s.take(n as int) =~= s);
            assert(v.take(b + 1).drop_last() =~= v.take(b as int));
            assert(v.take(b + 1).last() == v[b as int]);
        }
        if g > limit {
            limit = g;
        }
        areas_ok = areas_ok && fit;
        b += 1;
    }
    proof {
        assert(v.take(nb as int) =~= v);
        lemma_extent(v, box_size);
    }
    if limit > u32::MAX as u64 {
        proof {
            assert forall|m: u32| box_size <= m implies !#[trigger] bounded_by(v, m) by {
                if bounded_by(v, m) {
                    lemma_extent_least(v, box_size, m);
                }
            }
        }
        return false;
    }
    proof {
        let lim = limit as u32;
        assert forall|b: int, k: int| 0 <= b < v.len() && 0 <= k < v[b].2.len() implies within(#[trigger] v[b].2[k], lim) by {
            assert(reach(v[b].2[k]) <= extent(v, box_size));
        }
        if areas_ok {
            assert forall|b: int, k: int| 0 <= b < v.len() && 0 <= k < v[b].2.len() implies (area_fits())(
                #[trigger] v[b].2[k],
            ) by {}
            assert(bounded_by(v, lim));
        } else {
            assert forall|m: u32| box_size <= m implies !#[trigger] bounded_by(v, m) by {
                if bounded_by(v, m) {
                    let (c, k) = choose|c: int, k: int|
                        0 <= c < nb && 0 <= k < v[c].2.len() && !((#[trigger] v[c].2[k]).width * v[c].2[k].height
                            <= u32::MAX);
                    assert((area_fits())(v[c].2[k]));
                }
            }
        }
    }
    areas_ok
}

impl OverlapSearch {
    /// Starts from the given packing (see `start`) where the search can work
    /// on it: the packing is admissible and, where it has shared area, every
    /// rectangle's area fits in a `u32` and the greedy packing it falls back
    /// to is admissible too. `None` otherwise.
    pub fn start_checked(instance: &Instance, start_solution: PackingSolution) -> (r: Option<Self>)
        ensures
            r is Some <==> (overlap_admissible(start_solution@, instance.box_size) && (spec_total_overlap(start_solution@)
                > 0 ==> areas_in_range(instance.rectangles@) && fallback_admissible(
                instance.rectangles@,
                instance.box_size,
            ))),
            r matches Some(s) ==> s.wf() && s.spec_current()@ == start_solution@ && s.spec_instance().box_size
                == instance.box_size && s.spec_instance().rectangles@ == instance.rectangles@ && s.spec_iterations() == 0
                && s.spec_history().len() == 1 && s.spec_history()[0]@ == s.spec_best()@ && (spec_total_overlap(
                start_solution@,
            ) == 0 ==> s.spec_best()@ == start_solution@) && (spec_total_overlap(start_solution@) > 0 ==> forall|
                sorted: Seq<Rectangle>,
            |
                #[trigger] is_stable_sort_of(RectOrder::AreaDescending, sorted, instance.rectangles@) ==> s.spec_best()@
                    == packed_view(instance.box_size, sorted)) && s.spec_origin() == start_solution@ && s.spec_pending()
                is None,
    {
        if !is_overlap_admissible(&start_solution, instance.box_size) {
            return None;
        }
        proof {
            let limit = choose|limit: u32| instance.box_size <= limit && bounded_by(start_solution@, limit);
            lemma_bounded_facts(start_solution@, instance.box_size, limit);
            lemma_bins_nonneg(view_groups(start_solution@), 0);
        }
        if overlaps_exist(&start_solution) {
            if !areas_fit(instance.rectangles.as_slice()) {
                return None;
            }
            let g = run_greedy(instance, GreedyStrategy::AreaDescending);
            let fits = is_overlap_admissible(&g, instance.box_size);
            proof {
                assert(strategy_order(GreedyStrategy::AreaDescending) == RectOrder::AreaDescending);
                let sorted = choose|sorted: Seq<Rectangle>|
                    is_stable_sort_of(RectOrder::AreaDescending, sorted, instance.rectangles@) && g@ == packed_view(
                        instance.box_size,
                        sorted,
                    ) && #[trigger] is_packing_of(sorted, instance.box_size, g);
                if fits {
                    assert forall|other: Seq<Rectangle>|
                        #[trigger] is_stable_sort_of(RectOrder::AreaDescending, other, instance.rectangles@) implies overlap_admissible(
                        packed_view(instance.box_size, other),
                        instance.box_size,
                    ) by {
                        crate::rect_order::lemma_stable_sort_unique(
                            RectOrder::AreaDescending,
                            sorted,
                            other,
                            instance.rectangles@,
                        );
                    }
                } else {
                    assert(!fallback_admissible(instance.rectangles@, instance.box_size)) by {
                        assert(is_stable_sort_of(RectOrder::AreaDescending, sorted, instance.rectangles@));
                    }
                }
            }
            if !fits {
                return None;
            }
        }
        Some(OverlapSearch::start(instance, start_solution))
    }
}

/// Every bin has side `box_size`.
pub open spec fn sides_are(v: Seq<(usize, u32, Seq<Placement>)>, box_size: u32) -> bool {
    forall|b: int| 0 <= b < v.len() ==> (#[trigger] v[b]).1 == box_size
}

proof fn lemma_sides_update(v: Seq<(usize, u32, Seq<Placement>)>, j: int, ps: Seq<Placement>, box_size: u32)
    requires
        0 <= j < v.len(),
        sides_are(v, box_size),
    ensures
        sides_are(v.update(j, (v[j].0, v[j].1, ps)), box_size),
{
    let w = v.update(j, (v[j].0, v[j].1, ps));
    assert forall|b: int| 0 <= b < w.len() implies (#[trigger] w[b]).1 == box_size by {
        if b != j {
            assert(w[b] == v[b]);
        }
    }
}

proof fn lemma_sides_tidy(v: Seq<(usize, u32, Seq<Placement>)>, box_size: u32)
    requires
        sides_are(v, box_size),
    ensures
        sides_are(renumbered(nonempty_bins(v)), box_size),
{
    let ne = nonempty_bins(v);
    let w = renumbered(ne);
    lemma_nonempty_bins(v);
    assert forall|b: int| 0 <= b < w.len() implies (#[trigger] w[b]).1 == box_size by {
        let c = choose|c: int| 0 <= c < v.len() && v[c] == #[trigger] ne[b];
        assert(w[b].1 == ne[b].1);
    }
}

/// A step of the overlap search keeps every placement within the box where
/// all were, and every bin's side where all had the box's.
pub proof fn lemma_overlap_step_keeps_box(
    v: Seq<(usize, u32, Seq<Placement>)>,
    w: Seq<(usize, u32, Seq<Placement>)>,
    allowed: Seq<u32>,
    box_size: u32,
)
    requires
        is_overlap_step(v, w, allowed, box_size),
    ensures
        all_within(v, box_size) ==> all_within(w, box_size),
        sides_are(v, box_size) ==> sides_are(w, box_size),
{
    let pred = within_box(box_size);
    lemma_every_within(v, box_size);
    lemma_every_within(w, box_size);
    if exists|mv: GeometryMove| #[trigger] overlap_moved_view(v, mv, allowed, box_size) == Some(w) && move_keeps_shape(v, mv) {
        let mv = choose|mv: GeometryMove| #[trigger] overlap_moved_view(v, mv, allowed, box_size) == Some(w) && move_keeps_shape(v, mv);
        let f = mv.from_bin as int;
        let i = first_index_of_id(v[f].2, mv.rect_id);
        assert(is_first_with_id(v[f].2, mv.rect_id, i)) by {
            let i0 = choose|i0: int| 0 <= i0 < v[f].2.len() && (#[trigger] v[f].2[i0]).rect_id == mv.rect_id;
            lemma_first_witness(v[f].2, mv.rect_id, i0);
        }
        let v1 = without_placement(v, f, i);
        let p = Placement {
            rect_id: mv.rect_id,
            x: mv.new_x,
            y: mv.new_y,
            width: mv.new_width,
            height: mv.new_height,
            rotated: mv.rotated,
        };
        let v2 = with_placement(v1, mv.to_bin as int, p);
        lemma_without(v, f, i, pred);
        lemma_with(v1, mv.to_bin as int, p, pred);
        lemma_tidy(v2, pred);
        assert(pred(p));
        if sides_are(v, box_size) {
            lemma_sides_update(v, f, v[f].2.remove(i), box_size);
            lemma_sides_update(v1, mv.to_bin as int, v1[mv.to_bin as int].2.push(p), box_size);
            lemma_sides_tidy(v2, box_size);
        }
    } else {
        let (bin_a, rect_a, bin_b, rect_b) = choose|bin_a: usize, rect_a: usize, bin_b: usize, rect_b: usize|
            #[trigger] overlap_swapped_view(v, bin_a, rect_a, bin_b, rect_b, allowed, box_size) == Some(w);
        let ja = bin_a as int;
        let jb = bin_b as int;
        let ia = first_index_of_id(v[ja].2, rect_a);
        let ib = first_index_of_id(v[jb].2, rect_b);
        assert(is_first_with_id(v[ja].2, rect_a, ia)) by {
            let i0 = choose|i0: int| 0 <= i0 < v[ja].2.len() && (#[trigger] v[ja].2[i0]).rect_id == rect_a;
            lemma_first_witness(v[ja].2, rect_a, i0);
        }
        assert(is_first_with_id(v[jb].2, rect_b, ib)) by {
            let i0 = choose|i0: int| 0 <= i0 < v[jb].2.len() && (#[trigger] v[jb].2[i0]).rect_id == rect_b;
            lemma_first_witness(v[jb].2, rect_b, i0);
        }
        let a = v[ja].2[ia];
        let b = v[jb].2[ib];
        let v0 = without_placement(v, ja, ia);
        assert(v0[jb] == v[jb]);
        let v1 = without_placement(v0, jb, ib);
        let pa = Placement { rect_id: rect_b, x: a.x, y: a.y, width: b.width, height: b.height, rotated: b.rotated };
        let pb = Placement { rect_id: rect_a, x: b.x, y: b.y, width: a.width, height: a.height, rotated: a.rotated };
        let v2 = with_placement(v1, ja, pa);
        let v3 = with_placement(v2, jb, pb);
        lemma_without(v, ja, ia, pred);
        lemma_without(v0, jb, ib, pred);
        lemma_with(v1, ja, pa, pred);
        lemma_with(v2, jb, pb, pred);
        lemma_tidy(v3, pred);
        assert(pred(pa));
        assert(pred(pb));
        if sides_are(v, box_size) {
            lemma_sides_update(v, ja, v[ja].2.remove(ia), box_size);
            lemma_sides_update(v0, jb, v0[jb].2.remove(ib), box_size);
            lemma_sides_update(v1, ja, v1[ja].2.push(pa), box_size);
            lemma_sides_update(v2, jb, v2[jb].2.push(pb), box_size);
            lemma_sides_tidy(v3, box_size);
        }
    }
}

proof fn lemma_row_zero_each(s: Seq<Placement>, i: int, j0: int)
    requires
        0 <= i < s.len(),
        0 <= j0,
        row_overlap(s, i, j0) == 0,
    ensures
        forall|j: int| j0 <= j < s.len() ==> overlap_area(s[i], #[trigger] s[j]) == 0,
    decreases s.len() - j0,
{
    if j0 < s.len() {
        lemma_overlap_nonneg(s[i], s[j0]);
        lemma_row_nonneg(s, i, j0 + 1);
        lemma_row_zero_each(s, i, j0 + 1);
    }
}

proof fn lemma_rows_zero_each(s: Seq<Placement>, i0: int)
    requires
        0 <= i0,
        rows_overlap(s, i0) == 0,
    ensures
        forall|i: int, j: int| i0 <= i < j < s.len() ==> overlap_area(#[trigger] s[i], #[trigger] s[j]) == 0,
    decreases s.len() - i0,
{
    if i0 < s.len() {
        lemma_row_nonneg(s, i0, i0 + 1);
        lemma_rows_nonneg(s, i0 + 1);
        lemma_rows_zero_each(s, i0 + 1);
        lemma_row_zero_each(s, i0, i0 + 1);
    }
}

proof fn lemma_bins_zero_each(pss: Seq<Seq<Placement>>, b0: int)
    requires
        0 <= b0,
        bins_overlap(pss, b0) == 0,
    ensures
        forall|b: int| b0 <= b < pss.len() ==> rows_overlap(#[trigger] pss[b], 0) == 0,
    decreases pss.len() - b0,
{
    if b0 < pss.len() {
        lemma_rows_nonneg(pss[b0], 0);
        lemma_bins_nonneg(pss, b0 + 1);
        lemma_bins_zero_each(pss, b0 + 1);
    }
}

/// Placements of positive size that share no area do not conflict.
proof fn lemma_area_zero_apart(a: Placement, b: Placement)
    requires
        a.width > 0,
        a.height > 0,
        b.width > 0,
        b.height > 0,
        overlap_area(a, b) == 0,
    ensures
        !overlaps(a, b),
        !overlaps(b, a),
{
    let x_left = if a.x >= b.x { a.x as int } else { b.x as int };
    let y_top = if a.y >= b.y { a.y as int } else { b.y as int };
    let x_right = if a.x + a.width <= b.x + b.width { a.x + a.width } else { b.x + b.width };
    let y_bottom = if a.y + a.height <= b.y + b.height { a.y + a.height } else { b.y + b.height };
    if overlaps(a, b) {
        assert(x_right > x_left && y_bottom > y_top);
        assert((x_right - x_left) * (y_bottom - y_top) > 0) by (nonlinear_arith)
            requires
                x_right - x_left > 0,
                y_bottom - y_top > 0,
        ;
    }
}

/// A packing without shared area, whose placements have positive size and
/// lie within boxes of side `box_size` with bins of that side, is proper in
/// every bin.
proof fn lemma_no_overlap_valid(v: Seq<(usize, u32, Seq<Placement>)>, box_size: u32)
    requires
        spec_total_overlap(v) == 0,
        placements_positive(v),
        all_within(v, box_size),
        sides_are(v, box_size),
    ensures
        bins_valid(v, box_size),
{
    let pss = view_groups(v);
    lemma_bins_zero_each(pss, 0);
    assert forall|b: int| 0 <= b < v.len() implies (#[trigger] v[b]).1 == box_size && valid_placements(
        v[b].2,
        box_size as int,
    ) by {
        let s = v[b].2;
        assert(pss[b] == s);
        lemma_rows_zero_each(s, 0);
        assert forall|i: int, j: int| 0 <= i < s.len() && 0 <= j < s.len() && i != j implies !overlaps(
            #[trigger] s[i],
            #[trigger] s[j],
        ) by {
            if i < j {
                assert(overlap_area(s[i], s[j]) == 0);
                lemma_area_zero_apart(s[i], s[j]);
            } else {
                assert(overlap_area(s[j], s[i]) == 0);
                lemma_area_zero_apart(s[j], s[i]);
            }
        }
        assert forall|i: int| 0 <= i < s.len() implies inside(#[trigger] s[i], box_size as int) by {
            assert(within(v[b].2[i], box_size));
        }
        assert forall|i: int| 0 <= i < s.len() implies (#[trigger] s[i]).width > 0 && s[i].height > 0 by {
            assert(v[b].2[i] == s[i]);
        }
    }
}

} // verus!
