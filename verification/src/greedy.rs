use vstd::prelude::*;
use vstd::multiset::Multiset;

use crate::bin::{Bin, Placement, valid_placements, places_rect};
use crate::instance::Instance;
use crate::rectangle::Rectangle;
use crate::skyline::{SkylineBin, SkylineNode, fits_empty_box, state_has_room, state_after_place, empty_state};
use crate::rect_order::{RectOrder, is_stable_sort_of};
use crate::packing_problem::PackingProblem;
use crate::generic_greedy::run_generic_greedy;
use crate::algorithm::PackingAlgorithm;
use crate::framework::GreedyProblem;

verus! {

/// The order in which the greedy packer takes the rectangles.
#[derive(Debug, Clone, Copy)]
pub enum GreedyStrategy {
    AreaDescending,
    MaxSideDescending,
}

/// A packing: the bins in use, each with its placements.
#[derive(Debug)]
pub struct PackingSolution {
    pub bins: Vec<Bin>,
}

/// A bin as identifier, side and placements.
pub open spec fn bin_view(b: Bin) -> (usize, u32, Seq<Placement>) {
    (b.id, b.size, b.placements@)
}

impl View for PackingSolution {
    type V = Seq<(usize, u32, Seq<Placement>)>;

    open spec fn view(&self) -> Seq<(usize, u32, Seq<Placement>)> {
        self.bins@.map_values(|b: Bin| bin_view(b))
    }
}

impl Clone for PackingSolution {
    fn clone(&self) -> (r: Self)
        ensures
            r@ == self@,
    {
        let r = PackingSolution { bins: self.bins.clone() };
        proof {
            assert forall|i: int| 0 <= i < r.bins@.len() implies #[trigger] bin_view(r.bins@[i]) == bin_view(self.bins@[i]) by {
                assert(vstd::pervasive::cloned(self.bins@[i], r.bins@[i]));
            }
            assert(r@ =~= self@);
        }
        r
    }
}

/// The rectangle a placement stands for: its identifier and its dimensions
/// before any turn.
pub open spec fn source_of(p: Placement) -> (usize, u32, u32) {
    if p.rotated {
        (p.rect_id, p.height, p.width)
    } else {
        (p.rect_id, p.width, p.height)
    }
}

/// A rectangle as identifier and dimensions.
pub open spec fn rect_key(r: Rectangle) -> (usize, u32, u32) {
    (r.id, r.width, r.height)
}

/// The rectangles that the placements of `ps` stand for, with multiplicity.
pub open spec fn sources(ps: Seq<Placement>) -> Multiset<(usize, u32, u32)>
    decreases ps.len(),
{
    if ps.len() == 0 {
        Multiset::empty()
    } else {
        sources(ps.drop_last()).insert(source_of(ps.last()))
    }
}

/// The rectangles that all groups of placements stand for.
pub open spec fn groups_sources(pss: Seq<Seq<Placement>>) -> Multiset<(usize, u32, u32)>
    decreases pss.len(),
{
    if pss.len() == 0 {
        Multiset::empty()
    } else {
        groups_sources(pss.drop_last()).add(sources(pss.last()))
    }
}

/// The placements of each bin.
pub open spec fn bin_groups(bins: Seq<Bin>) -> Seq<Seq<Placement>> {
    bins.map_values(|b: Bin| b.placements@)
}

/// The rectangles placed anywhere in the solution, with multiplicity.
pub open spec fn solution_sources(s: PackingSolution) -> Multiset<(usize, u32, u32)> {
    groups_sources(bin_groups(s.bins@))
}

/// The rectangles of `rects` that have room in an empty box of side `size`,
/// with multiplicity.
pub open spec fn fitting_keys(rects: Seq<Rectangle>, size: u32) -> Multiset<(usize, u32, u32)>
    decreases rects.len(),
{
    if rects.len() == 0 {
        Multiset::empty()
    } else if fits_empty_box(rects.last(), size) {
        fitting_keys(rects.drop_last(), size).insert(rect_key(rects.last()))
    } else {
        fitting_keys(rects.drop_last(), size)
    }
}

/// All rectangles have positive width and height.
pub open spec fn all_rects_positive(rects: Seq<Rectangle>) -> bool {
    forall|i: int| 0 <= i < rects.len() ==> (#[trigger] rects[i]).width > 0 && rects[i].height > 0
}

/// Every bin of the solution is a proper packing of a box of side `box_size`.
pub open spec fn valid_solution(s: PackingSolution, box_size: u32) -> bool {
    forall|b: int| 0 <= b < s.bins@.len() ==> valid_placements(#[trigger] s.bins@[b].placements@, box_size as int)
}

/// Bin `b` carries identifier `b` and side `box_size`, and no bin is empty.
pub open spec fn well_numbered(s: PackingSolution, box_size: u32) -> bool {
    forall|b: int|
        0 <= b < s.bins@.len() ==> (#[trigger] s.bins@[b]).id == b && s.bins@[b].size == box_size
            && s.bins@[b].placements@.len() > 0
}

/// `solution` packs `items` into boxes of side `box_size`: bins are numbered
/// in order and none is empty, each rectangle with room in an empty box is
/// placed exactly once (possibly turned) and no other is, and where all
/// rectangles have positive size no two placements in a bin overlap and all
/// lie inside their bin.
pub open spec fn is_packing_of(items: Seq<Rectangle>, box_size: u32, solution: PackingSolution) -> bool {
    &&& well_numbered(solution, box_size)
    &&& solution_sources(solution) == fitting_keys(items, box_size)
    &&& all_rects_positive(items) ==> valid_solution(solution, box_size)
}

/// The sort order that a greedy strategy uses.
pub open spec fn strategy_order(strategy: GreedyStrategy) -> RectOrder {
    match strategy {
        GreedyStrategy::AreaDescending => RectOrder::AreaDescending,
        GreedyStrategy::MaxSideDescending => RectOrder::MaxSideThenAreaDescending,
    }
}

/// The first bin from `j` on that has room for `rect`, or the number of bins.
pub open spec fn first_with_room(bins: Seq<(u32, Seq<SkylineNode>, Seq<Placement>)>, rect: Rectangle, j: int) -> int
    decreases bins.len() - j,
{
    if j < 0 || j >= bins.len() {
        bins.len() as int
    } else if state_has_room(bins[j], rect) {
        j
    } else {
        first_with_room(bins, rect, j + 1)
    }
}

/// The skyline bins after packing `rects`, in order, into boxes of side
/// `size`: each rectangle goes into the first bin with room for it, or else
/// into a new bin where it has room there, or nowhere.
pub open spec fn pack_states(size: u32, rects: Seq<Rectangle>) -> Seq<(u32, Seq<SkylineNode>, Seq<Placement>)>
    decreases rects.len(),
{
    if rects.len() == 0 {
        Seq::empty()
    } else {
        let bins = pack_states(size, rects.drop_last());
        let rect = rects.last();
        let j = first_with_room(bins, rect, 0);
        if j < bins.len() {
            bins.update(j, state_after_place(bins[j], rect))
        } else if state_has_room(empty_state(size), rect) {
            bins.push(state_after_place(empty_state(size), rect))
        } else {
            bins
        }
    }
}

/// The packing of `rects`, in order, into boxes of side `size`, as bins
/// `(identifier, side, placements)` numbered from 0.
pub open spec fn packed_view(size: u32, rects: Seq<Rectangle>) -> Seq<(usize, u32, Seq<Placement>)> {
    pack_states(size, rects).map(|k: int, st: (u32, Seq<SkylineNode>, Seq<Placement>)| (k as usize, st.0, st.2))
}

/// The bins as values.
pub open spec fn skyline_states(bins: Seq<SkylineBin>) -> Seq<(u32, Seq<SkylineNode>, Seq<Placement>)> {
    bins.map_values(|b: SkylineBin| b.state())
}

proof fn lemma_first_with_room_skip(bins: Seq<(u32, Seq<SkylineNode>, Seq<Placement>)>, rect: Rectangle, j: int)
    requires
        0 <= j <= bins.len(),
        forall|b: int| 0 <= b < j ==> !state_has_room(#[trigger] bins[b], rect),
    ensures
        first_with_room(bins, rect, 0) == first_with_room(bins, rect, j),
    decreases j,
{
    if j > 0 {
        lemma_first_with_room_skip(bins, rect, j - 1);
        assert(!state_has_room(bins[j - 1], rect));
    }
}

/// The placements of each skyline bin.
pub open spec fn skyline_groups(bins: Seq<SkylineBin>) -> Seq<Seq<Placement>> {
    bins.map_values(|b: SkylineBin| b.spec_placements())
}

/// Adding a placement to one group adds the rectangle it stands for.
pub proof fn lemma_groups_push(pss: Seq<Seq<Placement>>, j: int, p: Placement)
    requires
        0 <= j < pss.len(),
    ensures
        groups_sources(pss.update(j, pss[j].push(p))) =~= groups_sources(pss).insert(source_of(p)),
    decreases pss.len(),
{
    let nw = pss.update(j, pss[j].push(p));
    if j == pss.len() - 1 {
        assert(nw.drop_last() =~= pss.drop_last());
        assert(pss[j].push(p).drop_last() =~= pss[j]);
    } else {
        lemma_groups_push(pss.drop_last(), j, p);
        assert(nw.drop_last() =~= pss.drop_last().update(j, pss[j].push(p)));
    }
}

/// Appending a group adds the rectangles it stands for.
pub proof fn lemma_groups_append(pss: Seq<Seq<Placement>>, ps: Seq<Placement>)
    ensures
        groups_sources(pss.push(ps)) =~= groups_sources(pss).add(sources(ps)),
{
    assert(pss.push(ps).drop_last() =~= pss);
}

/// A group of one placement stands for one rectangle.
pub proof fn lemma_sources_single(p: Placement)
    ensures
        sources(seq![p]) =~= Multiset::empty().insert(source_of(p)),
{
    assert(seq![p].drop_last() =~= Seq::<Placement>::empty());
    assert(sources(Seq::<Placement>::empty()) == Multiset::<(usize, u32, u32)>::empty());
}

/// `fitting_keys` of a concatenation is the sum of both parts.
pub proof fn lemma_fitting_keys_concat(p: Seq<Rectangle>, q: Seq<Rectangle>, size: u32)
    ensures
        fitting_keys(p + q, size) =~= fitting_keys(p, size).add(fitting_keys(q, size)),
    decreases q.len(),
{
    if q.len() == 0 {
        assert(p + q =~= p);
    } else {
        lemma_fitting_keys_concat(p, q.drop_last(), size);
        assert((p + q).drop_last() =~= p + q.drop_last());
        assert((p + q).last() == q.last());
    }
}

/// `fitting_keys` depends only on which rectangles occur, not on their order.
pub proof fn lemma_fitting_keys_perm(a: Seq<Rectangle>, b: Seq<Rectangle>, size: u32)
    requires
        a.to_multiset() == b.to_multiset(),
    ensures
        fitting_keys(a, size) == fitting_keys(b, size),
    decreases a.len(),
{
    broadcast use vstd::seq_lib::group_to_multiset_ensures;
    if a.len() == 0 {
        assert(a.to_multiset().len() == a.len());
        assert(b.to_multiset().len() == b.len());
        assert(b.len() == 0);
        assert(b =~= a);
    } else {
        let x = a.last();
        assert(a.drop_last().push(x) =~= a);
        assert(a.to_multiset().count(x) > 0);
        assert(b.contains(x));
        let j = choose|j: int| 0 <= j < b.len() && b[j] == x;
        assert(b.remove(j).to_multiset() =~= b.to_multiset().remove(x));
        assert(a.drop_last().to_multiset() =~= a.to_multiset().remove(x));
        lemma_fitting_keys_perm(a.drop_last(), b.remove(j), size);
        let pre = b.subrange(0, j);
        let suf = b.subrange(j + 1, b.len() as int);
        assert(b =~= pre + seq![x] + suf);
        assert(b.remove(j) =~= pre + suf);
        lemma_fitting_keys_concat(pre + seq![x], suf, size);
        lemma_fitting_keys_concat(pre, seq![x], size);
        lemma_fitting_keys_concat(pre, suf, size);
        assert(seq![x].drop_last() =~= Seq::<Rectangle>::empty());
        assert(fitting_keys(Seq::<Rectangle>::empty(), size) == Multiset::<(usize, u32, u32)>::empty());
    }
}

/// The identifiers of the rectangles of `rects` that fit no empty box of
/// side `size` (see `fits_empty_box`), in their order.
pub open spec fn unplaceable_ids(rects: Seq<Rectangle>, size: u32) -> Seq<usize>
    decreases rects.len(),
{
    if rects.len() == 0 {
        Seq::empty()
    } else if fits_empty_box(rects.last(), size) {
        unplaceable_ids(rects.drop_last(), size)
    } else {
        unplaceable_ids(rects.drop_last(), size).push(rects.last().id)
    }
}

/// Every rectangle either fits an empty box or is left out.
pub proof fn lemma_fitting_or_unplaceable(rects: Seq<Rectangle>, size: u32)
    ensures
        fitting_keys(rects, size).len() + unplaceable_ids(rects, size).len() == rects.len(),
    decreases rects.len(),
{
    broadcast use vstd::multiset::group_multiset_axioms;
    if rects.len() > 0 {
        lemma_fitting_or_unplaceable(rects.drop_last(), size);
    }
}

/// The rectangles that packing leaves out, by identifier and in order: those
/// that fit no empty box, as they stand or turned.
pub fn unplaced_rectangles(instance: &Instance, rectangles: &[Rectangle]) -> (r: Vec<usize>)
    ensures
        r@ == unplaceable_ids(rectangles@, instance.box_size),
{
    let size = instance.box_size;
    let mut ids: Vec<usize> = Vec::new();
    let n = rectangles.len();
    let mut k: usize = 0;
    while k < n
        invariant
            n == rectangles@.len(),
            k <= n,
            ids@ == unplaceable_ids(rectangles@.take(k as int), size),
        decreases n - k,
    {
        let rect = rectangles[k];
        let w = rect.width;
        let h = rect.height;
        let fits = (w <= size && (w == 0 || h <= size)) || (w != h && h <= size && (h == 0 || w <= size));
        proof {
            assert(rectangles@.take(k + 1).drop_last() =~= rectangles@.take(k as int));
            assert(rectangles@.take(k + 1).last() == rect);
        }
        if !fits {
            ids.push(rect.id);
        }
        k += 1;
    }
    proof {
        assert(rectangles@.take(n as int) =~= rectangles@);
    }
    ids
}

/// Packs the rectangles in the given order with the skyline heuristic: each
/// goes into the first open bin with room for it, or else into a new bin;
/// one that has no room even in an empty bin is left out.
pub fn pack_rectangles(instance: &Instance, rectangles: &[Rectangle]) -> (r: PackingSolution)
    ensures
        r@ == packed_view(instance.box_size, rectangles@),
        is_packing_of(rectangles@, instance.box_size, r),
{
    let box_size = instance.box_size;
    let mut skyline_bins: Vec<SkylineBin> = Vec::new();
    let n = rectangles.len();
    let mut k: usize = 0;
    proof {
        assert(skyline_groups(skyline_bins@) =~= Seq::<Seq<Placement>>::empty());
        assert(rectangles@.take(0) =~= Seq::<Rectangle>::empty());
    }
    while k < n
        invariant
            n == rectangles@.len(),
            k <= n,
            forall|b: int|
                0 <= b < skyline_bins@.len() ==> (#[trigger] skyline_bins@[b]).wf()
                    && skyline_bins@[b].spec_size() == box_size && skyline_bins@[b].spec_placements().len() > 0,
            groups_sources(skyline_groups(skyline_bins@)) == fitting_keys(rectangles@.take(k as int), box_size),
            skyline_states(skyline_bins@) == pack_states(box_size, rectangles@.take(k as int)),
            all_rects_positive(rectangles@.take(k as int)) ==> forall|b: int|
                0 <= b < skyline_bins@.len() ==> valid_placements(
                    (#[trigger] skyline_bins@[b]).spec_placements(),
                    box_size as int,
                ),
        decreases n - k,
    {
        let rect = &rectangles[k];
        let ghost start = skyline_bins@;
        let mut placed = false;
        let mut j: usize = 0;
        while j < skyline_bins.len()
            invariant_except_break
                skyline_bins@ == start,
                !placed,
            invariant
                j <= skyline_bins@.len(),
                skyline_bins@.len() == start.len(),
                forall|b: int| 0 <= b < j ==> !(#[trigger] start[b]).has_room(*rect),
                forall|b: int| 0 <= b < j ==> !state_has_room(#[trigger] skyline_states(start)[b], *rect),
                forall|b: int|
                    0 <= b < start.len() ==> (#[trigger] start[b]).wf() && start[b].spec_size() == box_size
                        && start[b].spec_placements().len() > 0,
            ensures
                !placed ==> skyline_bins@ == start && forall|b: int|
                    0 <= b < start.len() ==> !(#[trigger] start[b]).has_room(*rect),
                placed ==> {
                    &&& j < start.len()
                    &&& skyline_bins@ == start.update(j as int, skyline_bins@[j as int])
                    &&& skyline_bins@[j as int].wf()
                    &&& skyline_bins@[j as int].spec_size() == box_size
                    &&& fits_empty_box(*rect, box_size)
                    &&& skyline_bins@[j as int].spec_placements().len() > 0
                    &&& skyline_bins@[j as int].spec_placements().drop_last() == start[j as int].spec_placements()
                    &&& places_rect(skyline_bins@[j as int].spec_placements().last(), *rect)
                    &&& state_has_room(start[j as int].state(), *rect)
                    &&& skyline_bins@[j as int].state() == state_after_place(start[j as int].state(), *rect)
                    &&& (valid_placements(start[j as int].spec_placements(), box_size as int) && rect.width > 0
                        && rect.height > 0 ==> valid_placements(skyline_bins@[j as int].spec_placements(), box_size as int))
                },
            decreases start.len() - j,
        {
            proof {
                skyline_bins@[j as int].lemma_state_parts();
            }
            if skyline_bins[j].place(rect) {
                placed = true;
                break;
            }
            proof {
                assert(skyline_states(start)[j as int] == start[j as int].state());
            }
            j += 1;
        }
        proof {
            assert(rectangles@.take(k + 1).drop_last() =~= rectangles@.take(k as int));
            assert(rectangles@.take(k + 1).last() == *rect);
        }
        proof {
            let states = skyline_states(start);
            assert(rectangles@.take(k + 1).drop_last() =~= rectangles@.take(k as int));
            if placed {
                lemma_first_with_room_skip(states, *rect, j as int);
                assert(states[j as int] == start[j as int].state());
                assert(first_with_room(states, *rect, j as int) == j);
            } else {
                assert forall|b: int| 0 <= b < states.len() implies !state_has_room(#[trigger] states[b], *rect) by {
                    start[b].lemma_state_parts();
                }
                lemma_first_with_room_skip(states, *rect, states.len() as int);
            }
        }
        if placed {
            proof {
                assert(skyline_states(skyline_bins@) =~= skyline_states(start).update(j as int, skyline_bins@[j as int].state()));
                let pss = skyline_groups(start);
                let p = skyline_bins@[j as int].spec_placements().last();
                assert(skyline_bins@[j as int].spec_placements() =~= pss[j as int].push(p));
                assert(skyline_groups(skyline_bins@) =~= pss.update(j as int, pss[j as int].push(p)));
                lemma_groups_push(pss, j as int, p);
                assert(source_of(p) == rect_key(*rect));
                if all_rects_positive(rectangles@.take(k + 1)) {
                    assert(rectangles@.take(k + 1)[k as int] == *rect);
                    assert(all_rects_positive(rectangles@.take(k as int))) by {
                        assert forall|i: int| 0 <= i < k implies (#[trigger] rectangles@.take(k as int)[i]).width > 0
                            && rectangles@.take(k as int)[i].height > 0 by {
                            assert(rectangles@.take(k as int)[i] == rectangles@.take(k + 1)[i]);
                        }
                    }
                }
            }
        } else {
            let mut new_bin = SkylineBin::new(box_size);
            proof {
                new_bin.lemma_state_parts();
            }
            let ok = new_bin.place(rect);
            if ok {
                skyline_bins.push(new_bin);
                proof {
                    assert(skyline_states(skyline_bins@) =~= skyline_states(start).push(new_bin.state()));
                    let pss = skyline_groups(start);
                    let p = new_bin.spec_placements().last();
                    assert(new_bin.spec_placements() =~= seq![p]);
                    assert(skyline_groups(skyline_bins@) =~= pss.push(seq![p]));
                    lemma_groups_append(pss, seq![p]);
                    lemma_sources_single(p);
                    assert(source_of(p) == rect_key(*rect));
                    if all_rects_positive(rectangles@.take(k + 1)) {
                        assert(rectangles@.take(k + 1)[k as int] == *rect);
                        assert(all_rects_positive(rectangles@.take(k as int))) by {
                            assert forall|i: int| 0 <= i < k implies (#[trigger] rectangles@.take(k as int)[i]).width > 0
                                && rectangles@.take(k as int)[i].height > 0 by {
                                assert(rectangles@.take(k as int)[i] == rectangles@.take(k + 1)[i]);
                            }
                        }
                        assert(valid_placements(Seq::<Placement>::empty(), box_size as int));
                    }
                }
            } else {
                proof {
                    assert(skyline_bins@ == start);
                    if all_rects_positive(rectangles@.take(k + 1)) {
                        assert(all_rects_positive(rectangles@.take(k as int))) by {
                            assert forall|i: int| 0 <= i < k implies (#[trigger] rectangles@.take(k as int)[i]).width > 0
                                && rectangles@.take(k as int)[i].height > 0 by {
                                assert(rectangles@.take(k as int)[i] == rectangles@.take(k + 1)[i]);
                            }
                        }
                    }
                }
            }
        }
        k += 1;
    }
    proof {
        assert(rectangles@.take(n as int) =~= rectangles@);
    }
    let ghost all_sky = skyline_bins@;
    let total = skyline_bins.len();
    let mut bins: Vec<Bin> = Vec::new();
    let mut id: usize = 0;
    while id < total
        invariant
            total == all_sky.len(),
            id <= total,
            skyline_bins@ == all_sky.subrange(id as int, total as int),
            bins@.len() == id,
            forall|b: int|
                0 <= b < id ==> (#[trigger] bins@[b]).id == b && bins@[b].size == all_sky[b].spec_size()
                    && bins@[b].placements@ == all_sky[b].spec_placements(),
            skyline_states(all_sky) == pack_states(box_size, rectangles@),
        decreases total - id,
    {
        let sky = skyline_bins.remove(0);
        let bin = sky.into_bin(id);
        bins.push(bin);
        proof {
            assert(skyline_bins@ =~= all_sky.subrange(id + 1, total as int));
        }
        id += 1;
    }
    let r = PackingSolution { bins };
    proof {
        assert(bin_groups(r.bins@) =~= skyline_groups(all_sky));
        assert forall|b: int| 0 <= b < r@.len() implies #[trigger] r@[b] == packed_view(box_size, rectangles@)[b] by {
            all_sky[b].lemma_state_parts();
            assert(skyline_states(all_sky)[b] == all_sky[b].state());
        }
        assert(r@ =~= packed_view(box_size, rectangles@));
    }
    r
}

} // verus!

verus! {

/// Reordering the rectangles changes neither which of them are placed nor
/// whether all have positive size.
pub proof fn lemma_packing_perm(a: Seq<Rectangle>, b: Seq<Rectangle>, box_size: u32, solution: PackingSolution)
    requires
        a.to_multiset() == b.to_multiset(),
        is_packing_of(a, box_size, solution),
    ensures
        is_packing_of(b, box_size, solution),
{
    broadcast use vstd::seq_lib::group_to_multiset_ensures;
    lemma_fitting_keys_perm(a, b, box_size);
    if all_rects_positive(b) {
        assert forall|i: int| 0 <= i < a.len() implies (#[trigger] a[i]).width > 0 && a[i].height > 0 by {
            assert(a.contains(a[i]));
            assert(a.to_multiset().count(a[i]) > 0);
            assert(b.contains(a[i]));
        }
    }
}

/// Packs the instance greedily: the rectangles sorted by the strategy, then
/// packed in that order.
pub fn run_greedy(instance: &Instance, strategy: GreedyStrategy) -> (r: PackingSolution)
    requires
        crate::rect_order::areas_in_range(instance.rectangles@),
    ensures
        exists|sorted: Seq<Rectangle>|
            is_stable_sort_of(strategy_order(strategy), sorted, instance.rectangles@) && r@ == packed_view(
                instance.box_size,
                sorted,
            ) && #[trigger] is_packing_of(sorted, instance.box_size, r),
        forall|sorted: Seq<Rectangle>|
            #[trigger] is_stable_sort_of(strategy_order(strategy), sorted, instance.rectangles@) ==> r@ == packed_view(
                instance.box_size,
                sorted,
            ),
        exists|sorted: Seq<Rectangle>|
            {
                &&& sorted.to_multiset() == instance.rectangles@.to_multiset()
                &&& r@ == #[trigger] packed_view(instance.box_size, sorted)
                &&& strategy == GreedyStrategy::AreaDescending ==> forall|i: int, j: int|
                    #![trigger sorted[i], sorted[j]]
                    0 <= i < j < sorted.len() ==> sorted[i].width * sorted[i].height >= sorted[j].width * sorted[j].height
                &&& strategy == GreedyStrategy::MaxSideDescending ==> forall|i: int, j: int|
                    #![trigger sorted[i], sorted[j]]
                    0 <= i < j < sorted.len() ==> {
                        let a = sorted[i];
                        let b = sorted[j];
                        let sa = if a.width >= a.height { a.width } else { a.height };
                        let sb = if b.width >= b.height { b.width } else { b.height };
                        sa > sb || (sa == sb && a.width * a.height >= b.width * b.height)
                    }
            },
        is_packing_of(instance.rectangles@, instance.box_size, r),
{
    let problem = PackingProblem { instance: instance.clone() };
    let r = run_generic_greedy(&problem, &strategy);
    proof {
        let sorted = choose|sorted: Seq<Rectangle>|
            problem.sorted_by_strategy(strategy, sorted, problem.spec_items()) && #[trigger] problem.builds(sorted, r);
        lemma_packing_perm(sorted, instance.rectangles@, instance.box_size, r);
        crate::rect_order::lemma_sorted_output_order(strategy_order(strategy), sorted, instance.rectangles@);
        assert forall|other: Seq<Rectangle>|
            #[trigger] is_stable_sort_of(strategy_order(strategy), other, instance.rectangles@) implies r@ == packed_view(
                instance.box_size,
                other,
            ) by {
            crate::rect_order::lemma_stable_sort_unique(strategy_order(strategy), sorted, other, instance.rectangles@);
        }
    }
    r
}

/// Greedy packing, largest area first.
pub struct GreedyAreaAlgorithm;

/// Greedy packing, longest side first.
pub struct GreedyMaxSideAlgorithm;

impl PackingAlgorithm for GreedyAreaAlgorithm {
    open spec fn spec_name(&self) -> Seq<char> {
        "Greedy Area"@
    }

    open spec fn runnable(&self, instance: Instance) -> bool {
        crate::rect_order::areas_in_range(instance.rectangles@)
    }

    open spec fn produces(&self, instance: Instance, solution: PackingSolution) -> bool {
        exists|sorted: Seq<Rectangle>|
            is_stable_sort_of(RectOrder::AreaDescending, sorted, instance.rectangles@) && solution@ == packed_view(
                instance.box_size,
                sorted,
            ) && #[trigger] is_packing_of(sorted, instance.box_size, solution)
    }

    fn name(&self) -> (r: &str) {
        "Greedy Area"
    }

    fn run(&self, instance: &Instance) -> (r: PackingSolution) {
        let problem = PackingProblem { instance: instance.clone() };
        run_generic_greedy(&problem, &GreedyStrategy::AreaDescending)
    }
}

impl PackingAlgorithm for GreedyMaxSideAlgorithm {
    open spec fn spec_name(&self) -> Seq<char> {
        "Greedy Max Side"@
    }

    open spec fn runnable(&self, instance: Instance) -> bool {
        crate::rect_order::areas_in_range(instance.rectangles@)
    }

    open spec fn produces(&self, instance: Instance, solution: PackingSolution) -> bool {
        exists|sorted: Seq<Rectangle>|
            is_stable_sort_of(RectOrder::MaxSideThenAreaDescending, sorted, instance.rectangles@) && solution@ == packed_view(
                instance.box_size,
                sorted,
            ) && #[trigger] is_packing_of(sorted, instance.box_size, solution)
    }

    fn name(&self) -> (r: &str) {
        "Greedy Max Side"
    }

    fn run(&self, instance: &Instance) -> (r: PackingSolution) {
        let problem = PackingProblem { instance: instance.clone() };
        run_generic_greedy(&problem, &GreedyStrategy::MaxSideDescending)
    }
}

} // verus!

verus! {

/// The number of placements over all groups.
pub open spec fn groups_count(pss: Seq<Seq<Placement>>) -> int
    decreases pss.len(),
{
    if pss.len() == 0 {
        0
    } else {
        groups_count(pss.drop_last()) + pss.last().len()
    }
}

proof fn lemma_sources_len(ps: Seq<Placement>)
    ensures
        sources(ps).len() == ps.len(),
    decreases ps.len(),
{
    broadcast use vstd::multiset::group_multiset_axioms;
    if ps.len() > 0 {
        lemma_sources_len(ps.drop_last());
    }
}

proof fn lemma_groups_sources_len(pss: Seq<Seq<Placement>>)
    ensures
        groups_sources(pss).len() == groups_count(pss),
    decreases pss.len(),
{
    broadcast use vstd::multiset::group_multiset_axioms;
    if pss.len() > 0 {
        lemma_groups_sources_len(pss.drop_last());
        lemma_sources_len(pss.last());
    }
}

proof fn lemma_fitting_keys_len(rects: Seq<Rectangle>, size: u32)
    ensures
        fitting_keys(rects, size).len() <= rects.len(),
    decreases rects.len(),
{
    broadcast use vstd::multiset::group_multiset_axioms;
    if rects.len() > 0 {
        lemma_fitting_keys_len(rects.drop_last(), size);
    }
}

proof fn lemma_in_sources(ps: Seq<Placement>, k: int)
    requires
        0 <= k < ps.len(),
    ensures
        sources(ps).count(source_of(ps[k])) > 0,
    decreases ps.len(),
{
    broadcast use vstd::multiset::group_multiset_axioms;
    if k < ps.len() - 1 {
        lemma_in_sources(ps.drop_last(), k);
        assert(ps.drop_last()[k] == ps[k]);
    }
}

/// Every placement of the groups counts among what they stand for.
pub proof fn lemma_in_groups(pss: Seq<Seq<Placement>>, b: int, k: int)
    requires
        0 <= b < pss.len(),
        0 <= k < pss[b].len(),
    ensures
        groups_sources(pss).count(source_of(pss[b][k])) > 0,
    decreases pss.len(),
{
    broadcast use vstd::multiset::group_multiset_axioms;
    if b == pss.len() - 1 {
        lemma_in_sources(pss[b], k);
    } else {
        lemma_in_groups(pss.drop_last(), b, k);
        assert(pss.drop_last()[b] == pss[b]);
    }
}

/// Everything counted by `fitting_keys` comes from a rectangle with room in
/// an empty box.
pub proof fn lemma_fitting_member(rects: Seq<Rectangle>, size: u32, x: (usize, u32, u32))
    requires
        fitting_keys(rects, size).count(x) > 0,
    ensures
        exists|i: int| 0 <= i < rects.len() && fits_empty_box(#[trigger] rects[i], size) && rect_key(rects[i]) == x,
    decreases rects.len(),
{
    broadcast use vstd::multiset::group_multiset_axioms;
    if rects.len() > 0 {
        let last = rects.len() - 1;
        if fits_empty_box(rects[last], size) && rect_key(rects[last]) == x {
        } else {
            lemma_fitting_member(rects.drop_last(), size, x);
            let i = choose|i: int|
                0 <= i < rects.drop_last().len() && fits_empty_box(#[trigger] rects.drop_last()[i], size)
                    && rect_key(rects.drop_last()[i]) == x;
            assert(rects[i] == rects.drop_last()[i]);
        }
    }
}

proof fn lemma_placements_area_bound(ps: Seq<Placement>, bound: int)
    requires
        bound >= 0,
        forall|k: int| 0 <= k < ps.len() ==> (#[trigger] ps[k]).width * ps[k].height <= bound,
    ensures
        crate::evaluator::placements_area(ps) <= bound * ps.len(),
    decreases ps.len(),
{
    if ps.len() > 0 {
        lemma_placements_area_bound(ps.drop_last(), bound);
        assert(ps.last() == ps[ps.len() - 1]);
        assert(bound * ps.drop_last().len() + bound == bound * ps.len()) by (nonlinear_arith)
            requires
                ps.drop_last().len() + 1 == ps.len(),
        ;
    }
}

/// The placed area is at most `bound` per placement.
pub proof fn lemma_groups_area_bound(pss: Seq<Seq<Placement>>, bound: int)
    requires
        bound >= 0,
        forall|b: int, k: int|
            0 <= b < pss.len() && 0 <= k < pss[b].len() ==> (#[trigger] pss[b][k]).width * pss[b][k].height <= bound,
    ensures
        crate::evaluator::groups_area(pss) <= bound * groups_count(pss),
    decreases pss.len(),
{
    if pss.len() > 0 {
        let last = pss.len() - 1;
        assert forall|b: int, k: int|
            0 <= b < pss.drop_last().len() && 0 <= k < pss.drop_last()[b].len() implies (#[trigger] pss.drop_last()[b][k]).width
                * pss.drop_last()[b][k].height <= bound by {
            assert(pss.drop_last()[b] == pss[b]);
        }
        lemma_groups_area_bound(pss.drop_last(), bound);
        assert forall|k: int| 0 <= k < pss.last().len() implies (#[trigger] pss.last()[k]).width * pss.last()[k].height <= bound by {
            assert(pss.last() == pss[last]);
            assert(pss[last][k] == pss.last()[k]);
        }
        lemma_placements_area_bound(pss.last(), bound);
        assert(bound * groups_count(pss.drop_last()) + bound * pss.last().len() == bound * groups_count(pss)) by (nonlinear_arith)
            requires
                groups_count(pss) == groups_count(pss.drop_last()) + pss.last().len(),
        ;
    }
}

/// With no empty group there are at least as many placements as groups.
pub proof fn lemma_groups_count_ge(pss: Seq<Seq<Placement>>)
    requires
        forall|b: int| 0 <= b < pss.len() ==> (#[trigger] pss[b]).len() > 0,
    ensures
        groups_count(pss) >= pss.len(),
        groups_count(pss) >= 0,
    decreases pss.len(),
{
    if pss.len() > 0 {
        assert forall|b: int| 0 <= b < pss.drop_last().len() implies (#[trigger] pss.drop_last()[b]).len() > 0 by {
            assert(pss.drop_last()[b] == pss[b]);
        }
        lemma_groups_count_ge(pss.drop_last());
        assert(pss.last() == pss[pss.len() - 1]);
    }
}

/// A rectangle with room in an empty box of side `size` has area at most
/// `size * size`.
pub proof fn lemma_fitting_area(r: Rectangle, size: u32)
    requires
        fits_empty_box(r, size),
    ensures
        r.width * r.height <= size * size,
{
    if r.width == 0 || r.height == 0 {
        assert(r.width * r.height == 0) by (nonlinear_arith)
            requires
                r.width == 0 || r.height == 0,
        ;
        assert(size * size >= 0) by (nonlinear_arith);
    } else {
        assert(r.width <= size && r.height <= size);
        assert(r.width * r.height <= size * size) by (nonlinear_arith)
            requires
                r.width <= size,
                r.height <= size,
        ;
    }
}

/// Each placement of a packing of `items` has area at most `box_size` squared.
pub proof fn lemma_packing_placement_area(items: Seq<Rectangle>, box_size: u32, sol: PackingSolution, b: int, k: int)
    requires
        solution_sources(sol) == fitting_keys(items, box_size),
        0 <= b < sol.bins@.len(),
        0 <= k < sol.bins@[b].placements@.len(),
    ensures
        sol.bins@[b].placements@[k].width * sol.bins@[b].placements@[k].height <= box_size * box_size,
        exists|i: int|
            0 <= i < items.len() && (#[trigger] items[i]).width * items[i].height == sol.bins@[b].placements@[k].width
                * sol.bins@[b].placements@[k].height,
{
    let pss = bin_groups(sol.bins@);
    let p = sol.bins@[b].placements@[k];
    assert(pss[b] == sol.bins@[b].placements@);
    lemma_in_groups(pss, b, k);
    lemma_fitting_member(items, box_size, source_of(p));
    let i = choose|i: int| 0 <= i < items.len() && fits_empty_box(#[trigger] items[i], box_size) && rect_key(items[i]) == source_of(p);
    lemma_fitting_area(items[i], box_size);
    assert(p.width * p.height == items[i].width * items[i].height) by (nonlinear_arith)
        requires
            (p.width == items[i].width && p.height == items[i].height) || (p.width == items[i].height && p.height
                == items[i].width),
    ;
}

/// A packing of `items` can be evaluated once `items.len()` boxes'
/// capacity fits in a `u32`.
pub proof fn lemma_packing_in_range(items: Seq<Rectangle>, box_size: u32, sol: PackingSolution)
    requires
        is_packing_of(items, box_size, sol),
        fitting_keys(items, box_size).len() * box_size * box_size <= u32::MAX,
    ensures
        crate::evaluator::evaluation_in_range(sol, box_size),
{
    let pss = bin_groups(sol.bins@);
    assert(crate::evaluator::view_groups(sol@) =~= pss);
    let bound = box_size * box_size;
    assert(box_size * box_size >= 0) by (nonlinear_arith);
    lemma_groups_sources_len(pss);
    lemma_fitting_keys_len(items, box_size);
    let count = groups_count(pss);
    assert forall|b: int, k: int| 0 <= b < pss.len() && 0 <= k < pss[b].len() implies (#[trigger] pss[b][k]).width
        * pss[b][k].height <= bound by {
        lemma_packing_placement_area(items, box_size, sol, b, k);
    }
    lemma_groups_area_bound(pss, bound);
    assert forall|b: int| 0 <= b < pss.len() implies (#[trigger] pss[b]).len() > 0 by {
        assert(sol.bins@[b].placements@.len() > 0);
    }
    lemma_groups_count_ge(pss);
    assert(count == fitting_keys(items, box_size).len());
    let fit = fitting_keys(items, box_size).len() as int;
    assert(fit * box_size * box_size == bound * fit) by (nonlinear_arith)
        requires
            bound == box_size * box_size,
    ;
    assert(sol.bins@.len() * bound <= count * bound) by (nonlinear_arith)
        requires
            sol.bins@.len() <= count,
            bound >= 0,
    ;
    assert(sol@.len() * box_size * box_size == sol.bins@.len() * bound) by (nonlinear_arith)
        requires
            bound == box_size * box_size,
            sol@.len() == sol.bins@.len(),
    ;
}

/// A packing of `items` holds at most `items.len()` placements, and at least
/// one per bin.
pub proof fn lemma_packing_count(items: Seq<Rectangle>, box_size: u32, sol: PackingSolution)
    requires
        is_packing_of(items, box_size, sol),
    ensures
        sol@.len() <= groups_count(crate::evaluator::view_groups(sol@)) <= items.len(),
{
    let pss = bin_groups(sol.bins@);
    assert(crate::evaluator::view_groups(sol@) =~= pss);
    lemma_groups_sources_len(pss);
    lemma_fitting_keys_len(items, box_size);
    assert forall|b: int| 0 <= b < pss.len() implies (#[trigger] pss[b]).len() > 0 by {
        assert(sol.bins@[b].placements@.len() > 0);
    }
    lemma_groups_count_ge(pss);
}

/// Whether every rectangle has positive width and height (see
/// `all_rects_positive`).
pub fn rects_positive(rects: &[Rectangle]) -> (r: bool)
    ensures
        r == all_rects_positive(rects@),
{
    let n = rects.len();
    let mut i: usize = 0;
    while i < n
        invariant
            n == rects@.len(),
            i <= n,
            forall|j: int| 0 <= j < i ==> (#[trigger] rects@[j]).width > 0 && rects@[j].height > 0,
        decreases n - i,
    {
        if rects[i].width == 0 || rects[i].height == 0 {
            return false;
        }
        i += 1;
    }
    true
}

} // verus!
