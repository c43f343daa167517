use vstd::prelude::*;

use crate::bin::Placement;
use crate::greedy::PackingSolution;

verus! {

/// The quality of a packing: fewer bins first, then less wasted area.
#[derive(Debug, Clone, Copy, PartialEq, Eq, Structural, Ord)]
pub struct Score {
    pub bins_used: usize,
    pub wasted_area: u32,
}

impl Score {
    /// Strictly better (smaller) in the lexicographic order on
    /// `(bins_used, wasted_area)`.
    pub open spec fn is_below(self, other: Score) -> bool {
        self.bins_used < other.bins_used || (self.bins_used == other.bins_used
            && self.wasted_area < other.wasted_area)
    }
}

impl PartialOrd for Score {
    fn partial_cmp(&self, other: &Score) -> (r: Option<core::cmp::Ordering>) {
        if self.bins_used < other.bins_used {
            Some(core::cmp::Ordering::Less)
        } else if self.bins_used > other.bins_used {
            Some(core::cmp::Ordering::Greater)
        } else if self.wasted_area < other.wasted_area {
            Some(core::cmp::Ordering::Less)
        } else if self.wasted_area > other.wasted_area {
            Some(core::cmp::Ordering::Greater)
        } else {
            Some(core::cmp::Ordering::Equal)
        }
    }
}

impl vstd::std_specs::cmp::PartialOrdSpecImpl for Score {
    open spec fn obeys_partial_cmp_spec() -> bool {
        true
    }

    open spec fn partial_cmp_spec(&self, other: &Score) -> Option<core::cmp::Ordering> {
        if self.bins_used < other.bins_used {
            Some(core::cmp::Ordering::Less)
        } else if self.bins_used > other.bins_used {
            Some(core::cmp::Ordering::Greater)
        } else if self.wasted_area < other.wasted_area {
            Some(core::cmp::Ordering::Less)
        } else if self.wasted_area > other.wasted_area {
            Some(core::cmp::Ordering::Greater)
        } else {
            Some(core::cmp::Ordering::Equal)
        }
    }
}

/// The area covered by the placements of `ps`, counted with multiplicity.
pub open spec fn placements_area(ps: Seq<Placement>) -> int
    decreases ps.len(),
{
    if ps.len() == 0 {
        0
    } else {
        placements_area(ps.drop_last()) + ps.last().width * ps.last().height
    }
}

/// The area covered by all placements of all groups.
pub open spec fn groups_area(pss: Seq<Seq<Placement>>) -> int
    decreases pss.len(),
{
    if pss.len() == 0 {
        0
    } else {
        groups_area(pss.drop_last()) + placements_area(pss.last())
    }
}

/// The placements of each bin of a packing given as a view.
pub open spec fn view_groups(v: Seq<(usize, u32, Seq<Placement>)>) -> Seq<Seq<Placement>> {
    v.map_values(|b: (usize, u32, Seq<Placement>)| b.2)
}

/// The capacity of the bins and the area placed in them both fit in a `u32`.
pub open spec fn view_in_range(v: Seq<(usize, u32, Seq<Placement>)>, box_size: u32) -> bool {
    &&& v.len() * box_size * box_size <= u32::MAX
    &&& groups_area(view_groups(v)) <= u32::MAX
}

/// `value` capped at `u32::MAX`.
pub open spec fn capped(value: int) -> int {
    if value > u32::MAX {
        u32::MAX as int
    } else {
        value
    }
}

/// The score of a packing: the number of bins, and their total capacity
/// minus the placed area (zero where the placed area is larger, and capped
/// at `u32::MAX`, which it reaches only where the capacity itself does not
/// fit in a `u32`).
pub open spec fn view_score(v: Seq<(usize, u32, Seq<Placement>)>, box_size: u32) -> Score {
    let capacity = v.len() * box_size * box_size;
    let used = groups_area(view_groups(v));
    Score {
        bins_used: v.len() as usize,
        wasted_area: capped(
            if capacity >= used {
                capacity - used
            } else {
                0
            },
        ) as u32,
    }
}

/// `value` saturated at `u128::MAX`.
pub open spec fn saturated(value: int) -> int {
    if value > u128::MAX {
        u128::MAX as int
    } else {
        value
    }
}

/// Scores a solution as `evaluate` does (see `view_score`), on any packing:
/// the sums are taken wide enough not to overflow, so the score is the
/// same wherever `evaluate` accepts the packing.
pub fn score_packing(solution: &PackingSolution, box_size: u32) -> (r: Score)
    ensures
        r == spec_evaluate(*solution, box_size),
{
    let bins_used = solution.bins.len();
    let ghost bins = view_groups(solution@);
    let side = box_size as u128;
    assert(side * side <= u64::MAX * u64::MAX) by (nonlinear_arith)
        requires
            side <= u32::MAX,
    ;
    assert((bins_used as int) * (side * side) <= u64::MAX * (u32::MAX * u32::MAX)) by (nonlinear_arith)
        requires
            0 <= bins_used <= u64::MAX,
            0 <= side <= u32::MAX,
    ;
    assert(u64::MAX * (u32::MAX * u32::MAX) <= u128::MAX) by (nonlinear_arith);
    let capacity: u128 = match (bins_used as u128).checked_mul(side * side) {
        Some(z) => z,
        None => u128::MAX,
    };
    proof {
        assert(bins_used * box_size * box_size == (bins_used as int) * (side * side)) by (nonlinear_arith)
            requires
                side == box_size,
        ;
    }
    let mut used: u128 = 0;
    let mut i: usize = 0;
    while i < bins_used
        invariant
            bins_used == solution.bins.len(),
            bins == view_groups(solution@),
            i <= bins_used,
            used == saturated(groups_area(bins.take(i as int))),
            groups_area(bins.take(i as int)) >= 0,
        decreases bins_used - i,
    {
        let bin = &solution.bins[i];
        let m = bin.placements.len();
        let ghost ps = bin.placements@;
        let mut j: usize = 0;
        proof {
            assert(ps == bins[i as int]);
            assert(bins.take(i + 1).drop_last() =~= bins.take(i as int));
            assert(bins.take(i + 1).last() == ps);
            assert(ps.take(0) =~= Seq::<Placement>::empty());
        }
        while j < m
            invariant
                m == ps.len(),
                ps == bin.placements@,
                j <= m,
                groups_area(bins.take(i as int)) >= 0,
                placements_area(ps.take(j as int)) >= 0,
                used == saturated(groups_area(bins.take(i as int)) + placements_area(ps.take(j as int))),
            decreases m - j,
        {
            let p = &bin.placements[j];
            proof {
                assert(ps.take(j + 1).drop_last() =~= ps.take(j as int));
                assert(ps.take(j + 1).last() == *p);
                assert(p.width * p.height <= u64::MAX) by (nonlinear_arith)
                    requires
                        p.width <= u32::MAX,
                        p.height <= u32::MAX,
                ;
                assert(p.width * p.height >= 0) by (nonlinear_arith);
            }
            let area = p.width as u128 * p.height as u128;
            used = used.saturating_add(area);
            j += 1;
        }
        proof {
            assert(ps.take(m as int) =~= ps);
        }
        i += 1;
    }
    proof {
        assert(bins.take(bins_used as int) =~= bins);
    }
    proof {
        let g = groups_area(bins);
        assert(capacity == bins_used * box_size * box_size);
        if g > u128::MAX {
            assert(used == u128::MAX);
        }
    }
    let waste: u128 = if capacity >= used {
        capacity - used
    } else {
        0
    };
    let wasted_area: u32 = if waste > u32::MAX as u128 {
        u32::MAX
    } else {
        waste as u32
    };
    Score { bins_used, wasted_area }
}

/// The capacity of the bins and the area placed in them both fit in a `u32`.
pub open spec fn evaluation_in_range(solution: PackingSolution, box_size: u32) -> bool {
    view_in_range(solution@, box_size)
}

/// The score of a solution (see `view_score`).
pub open spec fn spec_evaluate(solution: PackingSolution, box_size: u32) -> Score {
    view_score(solution@, box_size)
}

proof fn lemma_placements_area_nonneg_prefix(ps: Seq<Placement>, i: int)
    requires
        0 <= i <= ps.len(),
    ensures
        0 <= placements_area(ps.take(i)) <= placements_area(ps),
    decreases ps.len(),
{
    if ps.len() > 0 {
        if i == ps.len() {
            assert(ps.take(i) =~= ps);
            lemma_placements_area_nonneg_prefix(ps.drop_last(), i - 1);
            assert(ps.drop_last().take(i - 1) =~= ps.drop_last().take(i - 1));
        } else {
            lemma_placements_area_nonneg_prefix(ps.drop_last(), i);
            assert(ps.drop_last().take(i) =~= ps.take(i));
        }
    }
}

proof fn lemma_groups_area_prefix(bins: Seq<Seq<Placement>>, i: int)
    requires
        0 <= i <= bins.len(),
    ensures
        0 <= groups_area(bins.take(i)) <= groups_area(bins),
    decreases bins.len(),
{
    if bins.len() > 0 {
        lemma_placements_area_nonneg_prefix(bins.last(), bins.last().len() as int);
        assert(bins.last().take(bins.last().len() as int) =~= bins.last());
        if i == bins.len() {
            assert(bins.take(i) =~= bins);
            lemma_groups_area_prefix(bins.drop_last(), i - 1);
        } else {
            lemma_groups_area_prefix(bins.drop_last(), i);
            assert(bins.drop_last().take(i) =~= bins.take(i));
        }
    }
}

/// Scores a solution: the number of bins used, and the capacity of those bins
/// (`box_size` squared each) minus the area of the placed rectangles.
pub fn evaluate(solution: &PackingSolution, box_size: u32) -> (r: Score)
    requires
        evaluation_in_range(*solution, box_size),
    ensures
        r == spec_evaluate(*solution, box_size),
{
    let bins_used = solution.bins.len();
    let ghost bins = view_groups(solution@);
    assert((bins_used as int) * (box_size as int) <= u32::MAX) by (nonlinear_arith)
        requires
            bins_used * box_size * box_size <= u32::MAX,
    {
        if box_size > 0 {
            assert(bins_used * box_size <= bins_used * box_size * box_size);
        }
    }
    let total_capacity: u32 = (bins_used as u64 * box_size as u64 * box_size as u64) as u32;
    let mut used_area: u32 = 0;
    let mut i: usize = 0;
    while i < bins_used
        invariant
            bins_used == solution.bins.len(),
            bins == view_groups(solution@),
            i <= bins_used,
            groups_area(bins) <= u32::MAX,
            used_area == groups_area(bins.take(i as int)),
        decreases bins_used - i,
    {
        let bin = &solution.bins[i];
        let m = bin.placements.len();
        let ghost ps = bin.placements@;
        let mut j: usize = 0;
        proof {
            lemma_groups_area_prefix(bins, i + 1);
            lemma_groups_area_prefix(bins, i as int);
            assert(ps == bins[i as int]);
            assert(bins.take(i + 1).drop_last() =~= bins.take(i as int));
            assert(ps.take(0) =~= Seq::<Placement>::empty());
        }
        while j < m
            invariant
                m == ps.len(),
                ps == bin.placements@,
                j <= m,
                0 <= groups_area(bins.take(i as int)),
                groups_area(bins.take(i as int)) + placements_area(ps) <= u32::MAX,
                used_area == groups_area(bins.take(i as int)) + placements_area(ps.take(j as int)),
            decreases m - j,
        {
            let p = &bin.placements[j];
            proof {
                lemma_placements_area_nonneg_prefix(ps, j + 1);
                assert(ps.take(j + 1).drop_last() =~= ps.take(j as int));
            }
            used_area = used_area + p.width * p.height;
            j += 1;
        }
        proof {
            assert(ps.take(m as int) =~= ps);
        }
        i += 1;
    }
    proof {
        assert(bins.take(bins_used as int) =~= bins);
    }
    let wasted_area = total_capacity.saturating_sub(used_area);
    Score { bins_used, wasted_area }
}

/// Whether the solution can be scored with boxes of side `box_size` (see
/// `evaluation_in_range`).
pub fn fits_evaluation(solution: &PackingSolution, box_size: u32) -> (r: bool)
    ensures
        r == evaluation_in_range(*solution, box_size),
{
    let bins_used = solution.bins.len();
    let side = box_size as u128;
    assert(side * side <= u64::MAX * u64::MAX) by (nonlinear_arith)
        requires
            side <= u32::MAX,
    ;
    let fits_capacity = match (bins_used as u128).checked_mul(side * side) {
        Some(z) => z <= u32::MAX as u128,
        None => false,
    };
    proof {
        assert(bins_used * box_size * box_size == (bins_used as int) * (side * side)) by (nonlinear_arith)
            requires
                side == box_size,
        ;
    }
    if !fits_capacity {
        return false;
    }
    let ghost bins = view_groups(solution@);
    let mut used: u128 = 0;
    let mut i: usize = 0;
    while i < bins_used
        invariant
            bins_used == solution.bins.len(),
            bins == view_groups(solution@),
            i <= bins_used,
            used == groups_area(bins.take(i as int)),
            used <= u32::MAX,
            solution@.len() * box_size * box_size <= u32::MAX,
        decreases bins_used - i,
    {
        let bin = &solution.bins[i];
        let m = bin.placements.len();
        let ghost ps = bin.placements@;
        let mut j: usize = 0;
        proof {
            assert(ps == bins[i as int]);
            assert(bins.take(i + 1).drop_last() =~= bins.take(i as int));
            assert(bins.take(i + 1).last() == ps);
            assert(ps.take(0) =~= Seq::<Placement>::empty());
        }
        while j < m
            invariant
                m == ps.len(),
                ps == bin.placements@,
                bins == view_groups(solution@),
                i < bins_used,
                bins_used == solution.bins.len(),
                ps == bins[i as int],
                j <= m,
                used == groups_area(bins.take(i as int)) + placements_area(ps.take(j as int)),
                used <= u32::MAX,
            decreases m - j,
        {
            let p = &bin.placements[j];
            proof {
                assert(ps.take(j + 1).drop_last() =~= ps.take(j as int));
                assert(ps.take(j + 1).last() == *p);
            }
            let w = p.width as u128;
            let h = p.height as u128;
            assert(w * h <= u64::MAX * u64::MAX) by (nonlinear_arith)
                requires
                    w <= u32::MAX,
                    h <= u32::MAX,
            ;
            used = used + w * h;
            if used > u32::MAX as u128 {
                proof {
                    lemma_placements_area_nonneg_prefix(ps, j + 1);
                    lemma_groups_area_prefix(bins, i + 1);
                    lemma_groups_area_prefix(bins, i as int);
                    assert(bins.take(i + 1).drop_last() =~= bins.take(i as int));
                    assert(bins.take(i + 1).last() == ps);
                    assert(placements_area(ps.take(j + 1)) == placements_area(ps.take(j as int)) + w * h);
                }
                return false;
            }
            j += 1;
        }
        proof {
            assert(ps.take(m as int) =~= ps);
        }
        i += 1;
    }
    proof {
        assert(bins.take(bins_used as int) =~= bins);
    }
    true
}

} // verus!
