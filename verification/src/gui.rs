use vstd::prelude::*;

use crate::bin::{Bin, Placement};
use crate::greedy::PackingSolution;
use crate::instance::Instance;
use crate::rectangle::Rectangle;
use std::collections::HashMap;

verus! {

/// What the viewer shows and remembers: the instance, the solution and the
/// snapshots of the last run with the one on display, the controls' values,
/// and which rectangles are followed.
#[derive(Debug)]
pub struct PackingApp {
    pub instance: Option<Instance>,
    pub solution: Option<PackingSolution>,
    pub selected_algo: usize,
    pub status: String,
    pub num_rects: usize,
    pub min_size: u32,
    pub max_size: u32,
    pub box_size: u32,
    pub history: Vec<PackingSolution>,
    pub history_index: usize,
    pub tracked_rectangles_input: String,
    pub tracked_rectangles: Vec<usize>,
    pub auto_track_most_changed: bool,
}

impl Default for PackingApp {
    fn default() -> (r: Self)
        ensures
            r.instance is None,
            r.solution is None,
            r.selected_algo == 0,
            r.status@ == "Ready"@,
            r.num_rects == 10,
            r.min_size == 1,
            r.max_size == 8,
            r.box_size == 10,
            r.history@.len() == 0,
            r.history_index == 0,
            r.tracked_rectangles_input@.len() == 0,
            r.tracked_rectangles@.len() == 0,
            r.auto_track_most_changed,
            history_index_ok(r),
    {
        PackingApp {
            instance: None,
            solution: None,
            selected_algo: 0,
            status: String::from_str("Ready"),
            num_rects: 10,
            min_size: 1,
            max_size: 8,
            box_size: 10,
            history: Vec::new(),
            history_index: 0,
            tracked_rectangles_input: String::new(),
            tracked_rectangles: Vec::new(),
            auto_track_most_changed: true,
        }
    }
}

/// The placement a rectangle gets when it is put alone into a box of side
/// `size` at the origin: upright where both sides fit, turned where only its
/// height fits, and otherwise upright with each side cut to the box.
pub open spec fn scattered_placement(rect: Rectangle, size: u32) -> Placement {
    let (width, height, rotated) = if rect.width <= size && rect.height <= size {
        (rect.width, rect.height, false)
    } else if rect.height <= size {
        (rect.height, rect.width, true)
    } else {
        (
            if rect.width <= size {
                rect.width
            } else {
                size
            },
            size,
            false,
        )
    };
    Placement { rect_id: rect.id, x: 0, y: 0, width, height, rotated }
}

impl PackingApp {
    /// The snapshot on display, or the solution where there is no history.
    pub fn current_display_solution(&self) -> (r: Option<&PackingSolution>)
        ensures
            self.history@.len() > 0 ==> (if self.history_index < self.history@.len() {
                r == Some(&self.history@[self.history_index as int])
            } else {
                r is None
            }),
            self.history@.len() == 0 ==> r == match self.solution {
                Some(s) => Some(&s),
                None => None,
            },
    {
        if self.history.len() > 0 {
            if self.history_index < self.history.len() {
                Some(&self.history[self.history_index])
            } else {
                None
            }
        } else {
            match &self.solution {
                Some(s) => Some(s),
                None => None,
            }
        }
    }

    /// The snapshot before the one on display, if there is one.
    pub fn previous_display_solution(&self) -> (r: Option<&PackingSolution>)
        ensures
            r == (if self.history@.len() > 0 && self.history_index > 0 && self.history_index - 1 < self.history@.len() {
                Some(&self.history@[self.history_index - 1])
            } else {
                None
            }),
    {
        if self.history.len() > 0 && self.history_index > 0 {
            if self.history_index - 1 < self.history.len() {
                Some(&self.history[self.history_index - 1])
            } else {
                None
            }
        } else {
            None
        }
    }

    /// A local search is selected and the instance is small (at most 25
    /// rectangles): every step is shown.
    pub fn is_small_demo_mode(&self) -> (r: bool)
        ensures
            r == spec_small_demo(*self),
    {
        self.selected_algo >= 2 && match &self.instance {
            Some(i) => i.rectangles.len() <= 25,
            None => false,
        }
    }

    /// Takes the snapshots as they are; the last one goes on display and
    /// becomes the solution. With none, history and solution are cleared.
    pub fn set_history_raw(&mut self, snapshots: Vec<PackingSolution>)
        ensures
            final(self).history@ == (if snapshots@.len() == 0 {
                Seq::<PackingSolution>::empty()
            } else {
                snapshots@
            }),
            final(self).history_index == (if snapshots@.len() == 0 {
                0
            } else {
                snapshots@.len() - 1
            }),
            snapshots@.len() == 0 ==> final(self).solution is None,
            snapshots@.len() > 0 ==> (final(self).solution matches Some(s) && s@ == snapshots@.last()@),
            final(self).instance == old(self).instance,
            final(self).box_size == old(self).box_size,
            final(self).selected_algo == old(self).selected_algo,
            final(self).tracked_rectangles == old(self).tracked_rectangles,
            final(self).auto_track_most_changed == old(self).auto_track_most_changed,
            final(self).status == old(self).status,
            final(self).num_rects == old(self).num_rects,
            final(self).min_size == old(self).min_size,
            final(self).max_size == old(self).max_size,
            final(self).tracked_rectangles_input == old(self).tracked_rectangles_input,
            history_index_ok(*final(self)),
    {
        if snapshots.len() == 0 {
            self.history.clear();
            self.history_index = 0;
            self.solution = None;
        } else {
            self.history = snapshots;
            self.history_index = self.history.len() - 1;
            self.solution = Some(self.history[self.history_index].clone());
        }
    }

    /// Whether a label is drawn on a rectangle: always.
    pub fn should_draw_label(&self, rect_id: usize, width_cells: u32, height_cells: u32, focus_ids: &[usize]) -> (r: bool)
        ensures
            r,
    {
        true
    }

    /// One bin per rectangle, each holding it alone at the origin (see
    /// `scattered_placement`), numbered in order.
    pub fn build_scattered_solution(instance: &Instance) -> (r: PackingSolution)
        ensures
            r@.len() == instance.rectangles@.len(),
            forall|i: int|
                0 <= i < r@.len() ==> #[trigger] r@[i] == (
                    i as usize,
                    instance.box_size,
                    seq![scattered_placement(instance.rectangles@[i], instance.box_size)],
                ),
    {
        let size = instance.box_size;
        let n = instance.rectangles.len();
        let mut bins: Vec<Bin> = Vec::new();
        let mut i: usize = 0;
        while i < n
            invariant
                n == instance.rectangles@.len(),
                size == instance.box_size,
                i <= n,
                bins@.len() == i,
                forall|k: int|
                    0 <= k < i ==> #[trigger] crate::greedy::bin_view(bins@[k]) == (
                        k as usize,
                        size,
                        seq![scattered_placement(instance.rectangles@[k], size)],
                    ),
            decreases n - i,
        {
            let rect = instance.rectangles[i];
            let (width, height, rotated) = if rect.width <= size && rect.height <= size {
                (rect.width, rect.height, false)
            } else if rect.height <= size && rect.width <= size {
                (rect.height, rect.width, true)
            } else if rect.height <= size {
                (rect.height, rect.width, true)
            } else {
                (if rect.width <= size { rect.width } else { size }, if rect.height <= size { rect.height } else { size }, false)
            };
            let p = Placement { rect_id: rect.id, x: 0, y: 0, width, height, rotated };
            let mut placements: Vec<Placement> = Vec::new();
            placements.push(p);
            proof {
                assert(p == scattered_placement(rect, size));
                assert(placements@ =~= seq![scattered_placement(instance.rectangles@[i as int], size)]);
            }
            bins.push(Bin { id: bins.len(), size, placements });
            i += 1;
        }
        let r = PackingSolution { bins };
        proof {
            assert forall|k: int| 0 <= k < r@.len() implies #[trigger] r@[k] == (
                k as usize,
                size,
                seq![scattered_placement(instance.rectangles@[k], size)],
            ) by {
                assert(r@[k] == crate::greedy::bin_view(r.bins@[k]));
            }
        }
        r
    }
}

/// Where a placement stands: its bin's index, position, dimensions and turn.
pub open spec fn record(b: int, p: Placement) -> (usize, u32, u32, u32, u32, bool) {
    (b as usize, p.x, p.y, p.width, p.height, p.rotated)
}

/// Each placement's rectangle identifier with its record, bin after bin.
pub open spec fn entries(v: Seq<(usize, u32, Seq<Placement>)>) -> Seq<(usize, (usize, u32, u32, u32, u32, bool))>
    decreases v.len(),
{
    if v.len() == 0 {
        Seq::empty()
    } else {
        entries(v.drop_last()) + v.last().2.map_values(|p: Placement| (p.rect_id, record(v.len() - 1, p)))
    }
}

/// The record of the first entry for `id`, if any.
pub open spec fn first_record(e: Seq<(usize, (usize, u32, u32, u32, u32, bool))>, id: usize) -> Option<
    (usize, u32, u32, u32, u32, bool),
>
    decreases e.len(),
{
    if e.len() == 0 {
        None
    } else {
        match first_record(e.drop_last(), id) {
            Some(r) => Some(r),
            None => if e.last().0 == id {
                Some(e.last().1)
            } else {
                None
            },
        }
    }
}

/// The record of the last entry for `id`, if any: a later placement of the
/// same rectangle replaces an earlier one.
pub open spec fn last_record(e: Seq<(usize, (usize, u32, u32, u32, u32, bool))>, id: usize) -> Option<
    (usize, u32, u32, u32, u32, bool),
>
    decreases e.len(),
{
    if e.len() == 0 {
        None
    } else if e.last().0 == id {
        Some(e.last().1)
    } else {
        last_record(e.drop_last(), id)
    }
}

/// Some entry is for `id`.
pub open spec fn has_entry(e: Seq<(usize, (usize, u32, u32, u32, u32, bool))>, id: usize) -> bool {
    exists|i: int| 0 <= i < e.len() && (#[trigger] e[i]).0 == id
}

proof fn lemma_last_record_some(e: Seq<(usize, (usize, u32, u32, u32, u32, bool))>, id: usize)
    ensures
        last_record(e, id) is Some <==> has_entry(e, id),
    decreases e.len(),
{
    if e.len() > 0 {
        lemma_last_record_some(e.drop_last(), id);
        if has_entry(e.drop_last(), id) {
            let i = choose|i: int| 0 <= i < e.drop_last().len() && (#[trigger] e.drop_last()[i]).0 == id;
            assert(e[i] == e.drop_last()[i]);
        }
        if has_entry(e, id) && e.last().0 != id {
            let i = choose|i: int| 0 <= i < e.len() && (#[trigger] e[i]).0 == id;
            assert(e.drop_last()[i] == e[i]);
        }
    }
}

/// Ascending without repetition.
pub open spec fn strictly_increasing(s: Seq<usize>) -> bool {
    forall|i: int, j: int| 0 <= i < j < s.len() ==> s[i] < s[j]
}

/// The records of the solution's placements (see `entries`).
fn placement_entries(solution: &PackingSolution) -> (r: Vec<(usize, (usize, u32, u32, u32, u32, bool))>)
    ensures
        r@ == entries(solution@),
{
    let ghost v = solution@;
    let nb = solution.bins.len();
    let mut out: Vec<(usize, (usize, u32, u32, u32, u32, bool))> = Vec::new();
    let mut b: usize = 0;
    proof {
        assert(v.take(0) =~= Seq::<(usize, u32, Seq<Placement>)>::empty());
    }
    while b < nb
        invariant
            nb == v.len(),
            v == solution@,
            b <= nb,
            out@ == entries(v.take(b as int)),
        decreases nb - b,
    {
        let ps = &solution.bins[b].placements;
        let ghost s = ps@;
        let ghost base = out@;
        proof {
            assert(s == v[b as int].2);
            assert(v.take(b + 1).drop_last() =~= v.take(b as int));
            assert(v.take(b + 1).last() == v[b as int]);
        }
        let n = ps.len();
        let mut k: usize = 0;
        while k < n
            invariant
                n == s.len(),
                s == ps@,
                k <= n,
                b < nb,
                out@ == base + s.take(k as int).map_values(|p: Placement| (p.rect_id, record(b as int, p))),
            decreases n - k,
        {
            let p = ps[k];
            out.push((p.rect_id, (b, p.x, p.y, p.width, p.height, p.rotated)));
            proof {
                assert(s.take(k + 1).map_values(|p: Placement| (p.rect_id, record(b as int, p))) =~= s.take(
                    k as int,
                ).map_values(|p: Placement| (p.rect_id, record(b as int, p))).push((p.rect_id, record(b as int, p))));
                assert(s[k as int] == p);
            }
            k += 1;
        }
        proof {
            assert(s.take(n as int) =~= s);
        }
        b += 1;
    }
    proof {
        assert(v.take(nb as int) =~= v);
    }
    out
}

/// The records of `e` by identifier, a later record replacing an earlier
/// one.
pub open spec fn record_map(e: Seq<(usize, (usize, u32, u32, u32, u32, bool))>) -> Map<
    usize,
    (usize, u32, u32, u32, u32, bool),
>
    decreases e.len(),
{
    if e.len() == 0 {
        Map::empty()
    } else {
        record_map(e.drop_last()).insert(e.last().0, e.last().1)
    }
}

proof fn lemma_record_map(e: Seq<(usize, (usize, u32, u32, u32, u32, bool))>, id: usize)
    ensures
        record_map(e).contains_key(id) <==> last_record(e, id) is Some,
        record_map(e).contains_key(id) ==> last_record(e, id) == Some(record_map(e)[id]),
    decreases e.len(),
{
    if e.len() > 0 {
        lemma_record_map(e.drop_last(), id);
    }
}

/// The last record of each rectangle of the solution, by identifier (see
/// `entries`).
fn placement_map(solution: &PackingSolution) -> (r: HashMap<usize, (usize, u32, u32, u32, u32, bool)>)
    ensures
        r@ == record_map(entries(solution@)),
{
    broadcast use vstd::std_specs::hash::group_hash_axioms;
    let e = placement_entries(solution);
    let mut map: HashMap<usize, (usize, u32, u32, u32, u32, bool)> = HashMap::new();
    let n = e.len();
    let mut i: usize = 0;
    proof {
        assert(e@.take(0) =~= Seq::<(usize, (usize, u32, u32, u32, u32, bool))>::empty());
    }
    while i < n
        invariant
            n == e@.len(),
            i <= n,
            map@ == record_map(e@.take(i as int)),
        decreases n - i,
    {
        proof {
            assert(e@.take(i + 1).drop_last() =~= e@.take(i as int));
            assert(e@.take(i + 1).last() == e@[i as int]);
        }
        map.insert(e[i].0, e[i].1);
        i += 1;
    }
    proof {
        assert(e@.take(n as int) =~= e@);
    }
    map
}

/// The record of `id` in a map built from `e` (see `record_map`).
fn record_at(
    map: &HashMap<usize, (usize, u32, u32, u32, u32, bool)>,
    id: usize,
    Ghost(e): Ghost<Seq<(usize, (usize, u32, u32, u32, u32, bool))>>,
) -> (r: Option<(usize, u32, u32, u32, u32, bool)>)
    requires
        map@ == record_map(e),
    ensures
        r == last_record(e, id),
{
    broadcast use vstd::std_specs::hash::group_hash_axioms;
    proof {
        lemma_record_map(e, id);
    }
    match map.get(&id) {
        Some(v) => Some(*v),
        None => None,
    }
}

/// Whether two records, or their absence, agree.
fn same_record(a: &Option<(usize, u32, u32, u32, u32, bool)>, b: &Option<(usize, u32, u32, u32, u32, bool)>) -> (r: bool)
    ensures
        r == (*a == *b),
{
    match (a, b) {
        (None, None) => true,
        (Some(x), Some(y)) => x.0 == y.0 && x.1 == y.1 && x.2 == y.2 && x.3 == y.3 && x.4 == y.4 && x.5 == y.5,
        _ => false,
    }
}

/// Puts `x` into an ascending list without repetition, keeping it so.
fn insert_id(v: &mut Vec<usize>, x: usize)
    requires
        strictly_increasing(old(v)@),
    ensures
        strictly_increasing(final(v)@),
        forall|y: usize| #[trigger] final(v)@.contains(y) <==> (old(v)@.contains(y) || y == x),
{
    let n = v.len();
    let mut i: usize = 0;
    while i < n && v[i] < x
        invariant
            n == v@.len(),
            v@ == old(v)@,
            i <= n,
            forall|j: int| 0 <= j < i ==> v@[j] < x,
        decreases n - i,
    {
        i += 1;
    }
    if i < n && v[i] == x {
        return;
    }
    let ghost before = v@;
    v.insert(i, x);
    proof {
        assert(v@ =~= before.subrange(0, i as int).push(x) + before.subrange(i as int, n as int));
        assert forall|a: int, b: int| 0 <= a < b < v@.len() implies v@[a] < v@[b] by {
            if b < i {
            } else if b == i {
            } else if a < i {
                assert(v@[b] == before[b - 1]);
            } else if a == i {
                assert(v@[b] == before[b - 1]);
                assert(before[i as int] > x);
                if b - 1 > i {
                    assert(before[i as int] < before[b - 1]);
                }
            } else {
                assert(v@[a] == before[a - 1]);
                assert(v@[b] == before[b - 1]);
            }
        }
        assert forall|y: usize| #[trigger] v@.contains(y) <==> (before.contains(y) || y == x) by {
            if v@.contains(y) {
                let k = choose|k: int| 0 <= k < v@.len() && v@[k] == y;
                if k < i {
                    assert(before[k] == y);
                } else if k > i {
                    assert(before[k - 1] == y);
                }
            }
            if before.contains(y) {
                let k = choose|k: int| 0 <= k < before.len() && before[k] == y;
                if k < i {
                    assert(v@[k] == y);
                } else {
                    assert(v@[k + 1] == y);
                }
            }
            if y == x {
                assert(v@[i as int] == x);
            }
        }
    }
}

impl PackingApp {
    /// Where the rectangle `rect_id` first stands in the solution: its bin's
    /// index, position, dimensions and turn.
    pub fn find_rect_position(solution: &PackingSolution, rect_id: usize) -> (r: Option<(usize, u32, u32, u32, u32, bool)>)
        ensures
            r == first_record(entries(solution@), rect_id),
    {
        let e = placement_entries(solution);
        let n = e.len();
        let mut found: Option<(usize, u32, u32, u32, u32, bool)> = None;
        let mut i: usize = 0;
        proof {
            assert(e@.take(0) =~= Seq::<(usize, (usize, u32, u32, u32, u32, bool))>::empty());
        }
        while i < n
            invariant
                n == e@.len(),
                i <= n,
                found == first_record(e@.take(i as int), rect_id),
            decreases n - i,
        {
            proof {
                assert(e@.take(i + 1).drop_last() =~= e@.take(i as int));
                assert(e@.take(i + 1).last() == e@[i as int]);
            }
            if found.is_none() && e[i].0 == rect_id {
                found = Some(e[i].1);
            }
            i += 1;
        }
        proof {
            assert(e@.take(n as int) =~= e@);
        }
        found
    }

    /// The rectangles whose (last) record differs between the two solutions,
    /// one being absent counting as a difference, in ascending order.
    pub fn changed_rectangles_between(previous: &PackingSolution, current: &PackingSolution) -> (r: Vec<usize>)
        ensures
            strictly_increasing(r@),
            forall|id: usize|
                #[trigger] r@.contains(id) <==> last_record(entries(previous@), id) != last_record(entries(current@), id),
    {
        let prev = placement_entries(previous);
        let curr = placement_entries(current);
        let prev_map = placement_map(previous);
        let curr_map = placement_map(current);
        let mut changed: Vec<usize> = Vec::new();
        let np = prev.len();
        let mut i: usize = 0;
        while i < np
            invariant
                np == prev@.len(),
                prev@ == entries(previous@),
                curr@ == entries(current@),
                prev_map@ == record_map(prev@),
                curr_map@ == record_map(curr@),
                i <= np,
                strictly_increasing(changed@),
                forall|id: usize|
                    #[trigger] changed@.contains(id) ==> last_record(prev@, id) != last_record(curr@, id),
                forall|j: int|
                    0 <= j < i ==> (last_record(prev@, (#[trigger] prev@[j]).0) != last_record(curr@, prev@[j].0)
                        ==> changed@.contains(prev@[j].0)),
            decreases np - i,
        {
            let id = prev[i].0;
            let a = record_at(&prev_map, id, Ghost(prev@));
            let b = record_at(&curr_map, id, Ghost(curr@));
            if !same_record(&a, &b) {
                insert_id(&mut changed, id);
            }
            i += 1;
        }
        let nc = curr.len();
        let mut k: usize = 0;
        while k < nc
            invariant
                nc == curr@.len(),
                prev@ == entries(previous@),
                curr@ == entries(current@),
                prev_map@ == record_map(prev@),
                curr_map@ == record_map(curr@),
                k <= nc,
                strictly_increasing(changed@),
                forall|id: usize|
                    #[trigger] changed@.contains(id) ==> last_record(prev@, id) != last_record(curr@, id),
                forall|j: int|
                    0 <= j < prev@.len() ==> (last_record(prev@, (#[trigger] prev@[j]).0) != last_record(curr@, prev@[j].0)
                        ==> changed@.contains(prev@[j].0)),
                forall|j: int|
                    0 <= j < k ==> (last_record(prev@, (#[trigger] curr@[j]).0) != last_record(curr@, curr@[j].0)
                        ==> changed@.contains(curr@[j].0)),
            decreases nc - k,
        {
            let id = curr[k].0;
            let a = record_at(&prev_map, id, Ghost(prev@));
            let b = record_at(&curr_map, id, Ghost(curr@));
            if !same_record(&a, &b) {
                insert_id(&mut changed, id);
            }
            k += 1;
        }
        proof {
            assert forall|id: usize| last_record(prev@, id) != last_record(curr@, id) implies #[trigger] changed@.contains(id) by {
                lemma_last_record_some(prev@, id);
                lemma_last_record_some(curr@, id);
                if has_entry(prev@, id) {
                    let j = choose|j: int| 0 <= j < prev@.len() && (#[trigger] prev@[j]).0 == id;
                } else {
                    let j = choose|j: int| 0 <= j < curr@.len() && (#[trigger] curr@[j]).0 == id;
                }
            }
        }
        changed
    }
}

/// How much a rectangle's record changed from one snapshot to the next: 5
/// for another bin, 1 for another position, 2 for other dimensions or turn,
/// added up; 3 where it appears or disappears; 0 where nothing changed.
pub open spec fn step_score(p: Option<(usize, u32, u32, u32, u32, bool)>, c: Option<(usize, u32, u32, u32, u32, bool)>) -> int {
    if p == c {
        0
    } else {
        match (p, c) {
            (Some(a), Some(b)) => (if a.0 != b.0 {
                5int
            } else {
                0int
            }) + (if a.1 != b.1 || a.2 != b.2 {
                1int
            } else {
                0int
            }) + (if a.3 != b.3 || a.4 != b.4 || a.5 != b.5 {
                2int
            } else {
                0int
            }),
            _ => 3,
        }
    }
}

/// The change scores of `id` summed over the steps between the first `n`
/// snapshots.
pub open spec fn change_score(h: Seq<PackingSolution>, id: usize, n: int) -> int
    decreases n,
{
    if n <= 1 || n > h.len() {
        0
    } else {
        change_score(h, id, n - 1) + step_score(last_record(entries(h[n - 2]@), id), last_record(entries(h[n - 1]@), id))
    }
}

/// The change score of `id` over the whole history.
pub open spec fn total_change(h: Seq<PackingSolution>, id: usize) -> int {
    change_score(h, id, h.len() as int)
}

/// `a` ranks before `b`: a higher change score, or the same and a smaller
/// identifier.
pub open spec fn ranks_before(h: Seq<PackingSolution>, a: usize, b: usize) -> bool {
    total_change(h, a) > total_change(h, b) || (total_change(h, a) == total_change(h, b) && a < b)
}

proof fn lemma_step_score(p: Option<(usize, u32, u32, u32, u32, bool)>, c: Option<(usize, u32, u32, u32, u32, bool)>)
    ensures
        0 <= step_score(p, c) <= 8,
        step_score(p, c) > 0 <==> p != c,
{
}

proof fn lemma_change_score(h: Seq<PackingSolution>, id: usize, n: int)
    requires
        0 <= n <= h.len(),
    ensures
        0 <= change_score(h, id, n) <= 8 * n,
        change_score(h, id, n) > 0 ==> exists|k: int| 0 <= k < n && has_entry(entries((#[trigger] h[k])@), id),
    decreases n,
{
    if n > 1 {
        lemma_change_score(h, id, n - 1);
        let p = last_record(entries(h[n - 2]@), id);
        let c = last_record(entries(h[n - 1]@), id);
        lemma_step_score(p, c);
        lemma_last_record_some(entries(h[n - 2]@), id);
        lemma_last_record_some(entries(h[n - 1]@), id);
        if change_score(h, id, n - 1) == 0 && step_score(p, c) > 0 {
            if p is Some {
                assert(has_entry(entries(h[n - 2]@), id));
            } else {
                assert(has_entry(entries(h[n - 1]@), id));
            }
        }
    }
}

/// Whether `a` ranks before `b`, given their scores.
fn ranked_before(a: (usize, i32), b: (usize, i32)) -> (r: bool)
    ensures
        r == (a.1 > b.1 || (a.1 == b.1 && a.0 < b.0)),
{
    a.1 > b.1 || (a.1 == b.1 && a.0 < b.0)
}

/// The pairs are in ranking order, each with its rectangle's change score.
pub open spec fn is_ranking(h: Seq<PackingSolution>, s: Seq<(usize, i32)>) -> bool {
    &&& forall|i: int| 0 <= i < s.len() ==> (#[trigger] s[i]).1 == total_change(h, s[i].0)
    &&& forall|i: int, j: int| 0 <= i < j < s.len() ==> ranks_before(h, (#[trigger] s[i]).0, (#[trigger] s[j]).0)
}

/// Puts a rectangle with its score into a ranking at its place.
fn insert_ranked(ranked: &mut Vec<(usize, i32)>, x: (usize, i32), Ghost(h): Ghost<Seq<PackingSolution>>)
    requires
        is_ranking(h, old(ranked)@),
        x.1 == total_change(h, x.0),
        forall|i: int| 0 <= i < old(ranked)@.len() ==> (#[trigger] old(ranked)@[i]).0 != x.0,
    ensures
        is_ranking(h, final(ranked)@),
        forall|y: (usize, i32)| #[trigger] final(ranked)@.contains(y) <==> (old(ranked)@.contains(y) || y == x),
        final(ranked)@.len() == old(ranked)@.len() + 1,
{
    let n = ranked.len();
    let mut i: usize = 0;
    while i < n && ranked_before(ranked[i], x)
        invariant
            n == ranked@.len(),
            ranked@ == old(ranked)@,
            i <= n,
            forall|j: int| 0 <= j < i ==> ranks_before(h, (#[trigger] ranked@[j]).0, x.0),
            is_ranking(h, ranked@),
            x.1 == total_change(h, x.0),
        decreases n - i,
    {
        i += 1;
    }
    let ghost before = ranked@;
    proof {
        if i < n {
            assert(!ranks_before(h, before[i as int].0, x.0));
            assert(before[i as int].0 != x.0);
            assert(ranks_before(h, x.0, before[i as int].0));
        }
    }
    ranked.insert(i, x);
    proof {
        assert(ranked@ =~= before.subrange(0, i as int).push(x) + before.subrange(i as int, n as int));
        assert forall|a: int| 0 <= a < ranked@.len() implies (#[trigger] ranked@[a]).1 == total_change(h, ranked@[a].0) by {
            if a < i {
                assert(ranked@[a] == before[a]);
            } else if a > i {
                assert(ranked@[a] == before[a - 1]);
            }
        }
        assert forall|a: int, b: int| 0 <= a < b < ranked@.len() implies ranks_before(h, (#[trigger] ranked@[a]).0, (#[trigger] ranked@[b]).0) by {
            if b < i {
                assert(ranked@[a] == before[a]);
                assert(ranked@[b] == before[b]);
            } else if b == i {
                assert(ranked@[a] == before[a]);
            } else if a < i {
                assert(ranked@[a] == before[a]);
                assert(ranked@[b] == before[b - 1]);
            } else if a == i {
                assert(ranked@[b] == before[b - 1]);
                if b - 1 > i {
                    assert(ranks_before(h, before[i as int].0, before[b - 1].0));
                }
            } else {
                assert(ranked@[a] == before[a - 1]);
                assert(ranked@[b] == before[b - 1]);
            }
        }
        assert forall|y: (usize, i32)| #[trigger] ranked@.contains(y) <==> (before.contains(y) || y == x) by {
            if ranked@.contains(y) {
                let k = choose|k: int| 0 <= k < ranked@.len() && ranked@[k] == y;
                if k < i {
                    assert(before[k] == y);
                } else if k > i {
                    assert(before[k - 1] == y);
                }
            }
            if before.contains(y) {
                let k = choose|k: int| 0 <= k < before.len() && before[k] == y;
                if k < i {
                    assert(ranked@[k] == y);
                } else {
                    assert(ranked@[k + 1] == y);
                }
            }
            if y == x {
                assert(ranked@[i as int] == x);
            }
        }
    }
}

/// `r` lists the `top_k` rectangles that changed most over the history
/// (see `total_change`), highest score first and smaller identifier first
/// among equals, counting only rectangles that changed at all; it is empty
/// with fewer than two snapshots.
pub open spec fn is_top_changed(h: Seq<PackingSolution>, r: Seq<usize>, top_k: usize) -> bool {
    &&& h.len() < 2 ==> r.len() == 0
    &&& r.len() <= top_k
    &&& forall|i: int| 0 <= i < r.len() ==> total_change(h, #[trigger] r[i]) > 0
    &&& forall|i: int, j: int| 0 <= i < j < r.len() ==> ranks_before(h, #[trigger] r[i], #[trigger] r[j])
    &&& forall|id: usize|
        total_change(h, id) > 0 && !r.contains(id) ==> r.len() == top_k && forall|i: int|
            0 <= i < r.len() ==> ranks_before(h, #[trigger] r[i], id)
}

impl PackingApp {
    /// The `top_k` rectangles that changed most over the history (see
    /// `total_change`), highest score first and smaller identifier first
    /// among equals; only rectangles that changed at all count. Empty with
    /// fewer than two snapshots.
    pub fn most_changed_rectangles(&self, top_k: usize) -> (r: Vec<usize>)
        requires
            8 * self.history@.len() <= i32::MAX,
        ensures
            is_top_changed(self.history@, r@, top_k),
    {
        let ghost h = self.history@;
        let n = self.history.len();
        if n < 2 {
            return Vec::new();
        }
        // the records of every snapshot
        let mut all: Vec<Vec<(usize, (usize, u32, u32, u32, u32, bool))>> = Vec::new();
        let mut k: usize = 0;
        while k < n
            invariant
                n == h.len(),
                h == self.history@,
                k <= n,
                all@.len() == k,
                forall|j: int| 0 <= j < k ==> (#[trigger] all@[j])@ == entries(h[j]@),
            decreases n - k,
        {
            all.push(placement_entries(&self.history[k]));
            k += 1;
        }
        // the last record of each rectangle, snapshot by snapshot
        let mut maps: Vec<HashMap<usize, (usize, u32, u32, u32, u32, bool)>> = Vec::new();
        let mut k: usize = 0;
        while k < n
            invariant
                n == h.len(),
                h == self.history@,
                k <= n,
                maps@.len() == k,
                forall|j: int| 0 <= j < k ==> (#[trigger] maps@[j])@ == record_map(entries(h[j]@)),
            decreases n - k,
        {
            maps.push(placement_map(&self.history[k]));
            k += 1;
        }
        // every rectangle that appears somewhere
        let mut candidates: Vec<usize> = Vec::new();
        let mut k: usize = 0;
        while k < n
            invariant
                n == h.len(),
                all@.len() == n,
                forall|j: int| 0 <= j < n ==> (#[trigger] all@[j])@ == entries(h[j]@),
                maps@.len() == n,
                forall|j: int| 0 <= j < n ==> (#[trigger] maps@[j])@ == record_map(entries(h[j]@)),
                k <= n,
                strictly_increasing(candidates@),
                forall|id: usize, j: int| 0 <= j < k && #[trigger] has_entry(entries(h[j]@), id) ==> candidates@.contains(id),
            decreases n - k,
        {
            let e = &all[k];
            let m = e.len();
            let mut i: usize = 0;
            while i < m
                invariant
                    n == h.len(),
                    all@.len() == n,
                    forall|j: int| 0 <= j < n ==> (#[trigger] all@[j])@ == entries(h[j]@),
                    maps@.len() == n,
                    forall|j: int| 0 <= j < n ==> (#[trigger] maps@[j])@ == record_map(entries(h[j]@)),
                    k < n,
                    e == all@[k as int],
                    m == e@.len(),
                    i <= m,
                    strictly_increasing(candidates@),
                    forall|id: usize, j: int| 0 <= j < k && #[trigger] has_entry(entries(h[j]@), id) ==> candidates@.contains(id),
                    forall|j: int| 0 <= j < i ==> candidates@.contains((#[trigger] e@[j]).0),
                decreases m - i,
            {
                insert_id(&mut candidates, e[i].0);
                i += 1;
            }
            proof {
                assert forall|id: usize, j: int| 0 <= j < k + 1 && #[trigger] has_entry(entries(h[j]@), id) implies candidates@.contains(id) by {
                    if j == k {
                        let q = choose|q: int| 0 <= q < e@.len() && (#[trigger] e@[q]).0 == id;
                    }
                }
            }
            k += 1;
        }
        // the rectangles that changed, in ranking order
        let mut ranked: Vec<(usize, i32)> = Vec::new();
        let nc = candidates.len();
        let mut c: usize = 0;
        while c < nc
            invariant
                n == h.len(),
                n >= 2,
                8 * n <= i32::MAX,
                all@.len() == n,
                forall|j: int| 0 <= j < n ==> (#[trigger] all@[j])@ == entries(h[j]@),
                maps@.len() == n,
                forall|j: int| 0 <= j < n ==> (#[trigger] maps@[j])@ == record_map(entries(h[j]@)),
                nc == candidates@.len(),
                strictly_increasing(candidates@),
                c <= nc,
                is_ranking(h, ranked@),
                forall|i: int| 0 <= i < ranked@.len() ==> total_change(h, (#[trigger] ranked@[i]).0) > 0,
                forall|i: int| 0 <= i < ranked@.len() ==> exists|q: int| 0 <= q < c && candidates@[q] == (#[trigger] ranked@[i]).0,
                forall|q: int| 0 <= q < c && total_change(h, #[trigger] candidates@[q]) > 0 ==> exists|i: int|
                    0 <= i < ranked@.len() && (#[trigger] ranked@[i]).0 == candidates@[q],
            decreases nc - c,
        {
            let id = candidates[c];
            let mut score: i32 = 0;
            let mut s: usize = 1;
            while s < n
                invariant
                    n == h.len(),
                    8 * n <= i32::MAX,
                    maps@.len() == n,
                    forall|j: int| 0 <= j < n ==> (#[trigger] maps@[j])@ == record_map(entries(h[j]@)),
                    1 <= s <= n,
                    score == change_score(h, id, s as int),
                decreases n - s,
            {
                proof {
                    lemma_change_score(h, id, s as int);
                }
                let a = record_at(&maps[s - 1], id, Ghost(entries(h[s - 1]@)));
                let b = record_at(&maps[s], id, Ghost(entries(h[s as int]@)));
                proof {
                    lemma_step_score(a, b);
                }
                let delta: i32 = match (a, b) {
                    (Some(p), Some(q)) => {
                        let mut d: i32 = 0;
                        if p.0 != q.0 {
                            d = d + 5;
                        }
                        if p.1 != q.1 || p.2 != q.2 {
                            d = d + 1;
                        }
                        if p.3 != q.3 || p.4 != q.4 || p.5 != q.5 {
                            d = d + 2;
                        }
                        d
                    },
                    (None, None) => 0,
                    _ => 3,
                };
                score = score + delta;
                s += 1;
            }
            proof {
                lemma_change_score(h, id, n as int);
            }
            if score > 0 {
                proof {
                    assert forall|i: int| 0 <= i < ranked@.len() implies (#[trigger] ranked@[i]).0 != id by {
                        let q = choose|q: int| 0 <= q < c && candidates@[q] == ranked@[i].0;
                        assert(candidates@[q] < candidates@[c as int]);
                    }
                }
                let ghost before = ranked@;
                insert_ranked(&mut ranked, (id, score), Ghost(h));
                proof {
                    assert forall|i: int| 0 <= i < ranked@.len() implies total_change(h, (#[trigger] ranked@[i]).0) > 0 by {
                        assert(ranked@.contains(ranked@[i]));
                        if ranked@[i] != (id, score) {
                            assert(before.contains(ranked@[i]));
                            let k2 = choose|k2: int| 0 <= k2 < before.len() && before[k2] == ranked@[i];
                        }
                    }
                    assert forall|i: int| 0 <= i < ranked@.len() implies exists|q: int|
                        0 <= q < c + 1 && candidates@[q] == (#[trigger] ranked@[i]).0 by {
                        assert(ranked@.contains(ranked@[i]));
                        if ranked@[i] != (id, score) {
                            assert(before.contains(ranked@[i]));
                            let k2 = choose|k2: int| 0 <= k2 < before.len() && before[k2] == ranked@[i];
                            let q = choose|q: int| 0 <= q < c && candidates@[q] == (#[trigger] before[k2]).0;
                        } else {
                            assert(candidates@[c as int] == ranked@[i].0);
                        }
                    }
                    assert forall|q: int| 0 <= q < c + 1 && total_change(h, #[trigger] candidates@[q]) > 0 implies exists|i: int|
                        0 <= i < ranked@.len() && (#[trigger] ranked@[i]).0 == candidates@[q] by {
                        if q == c {
                            assert(ranked@.contains((id, score)));
                        } else {
                            let i0 = choose|i0: int| 0 <= i0 < before.len() && (#[trigger] before[i0]).0 == candidates@[q];
                            assert(before.contains(before[i0]));
                            assert(ranked@.contains(before[i0]));
                        }
                    }
                }
            }
            c += 1;
        }
        // the first `top_k` of them
        let count = if ranked.len() < top_k {
            ranked.len()
        } else {
            top_k
        };
        let mut out: Vec<usize> = Vec::new();
        let mut i: usize = 0;
        while i < count
            invariant
                count <= ranked@.len(),
                i <= count,
                out@.len() == i,
                forall|j: int| 0 <= j < i ==> #[trigger] out@[j] == ranked@[j].0,
            decreases count - i,
        {
            out.push(ranked[i].0);
            i += 1;
        }
        proof {
            assert forall|id: usize| total_change(h, id) > 0 && !out@.contains(id) implies out@.len() == top_k && forall|i: int|
                0 <= i < out@.len() ==> ranks_before(h, #[trigger] out@[i], id) by {
                lemma_change_score(h, id, n as int);
                let k = choose|k: int| 0 <= k < n && has_entry(entries((#[trigger] h[k])@), id);
                assert(candidates@.contains(id));
                let q = choose|q: int| 0 <= q < candidates@.len() && candidates@[q] == id;
                let i0 = choose|i0: int| 0 <= i0 < ranked@.len() && (#[trigger] ranked@[i0]).0 == candidates@[q];
                if i0 < count {
                    assert(out@[i0] == id);
                }
                assert forall|i: int| 0 <= i < out@.len() implies ranks_before(h, #[trigger] out@[i], id) by {
                    assert(out@[i] == ranked@[i].0);
                }
            }
            assert forall|i: int| 0 <= i < out@.len() implies total_change(h, #[trigger] out@[i]) > 0 by {
                assert(out@[i] == ranked@[i].0);
            }
            assert forall|a: int, b: int| 0 <= a < b < out@.len() implies ranks_before(h, #[trigger] out@[a], #[trigger] out@[b]) by {
                assert(out@[a] == ranked@[a].0);
                assert(out@[b] == ranked@[b].0);
            }
        }
        out
    }
}

/// The records of both packings agree as multisets: they hold the same
/// placements in the same bins.
pub open spec fn same_layout(a: Seq<(usize, u32, Seq<Placement>)>, b: Seq<(usize, u32, Seq<Placement>)>) -> bool {
    entries(a).to_multiset() == entries(b).to_multiset()
}

/// How often `x` occurs in `v`.
fn count_in(v: &Vec<(usize, (usize, u32, u32, u32, u32, bool))>, x: (usize, (usize, u32, u32, u32, u32, bool))) -> (r: usize)
    ensures
        r == v@.to_multiset().count(x),
{
    broadcast use vstd::seq_lib::group_to_multiset_ensures;
    broadcast use vstd::multiset::group_multiset_axioms;
    let n = v.len();
    let mut c: usize = 0;
    let mut i: usize = 0;
    proof {
        assert(v@.take(0) =~= Seq::<(usize, (usize, u32, u32, u32, u32, bool))>::empty());
        assert(v@.take(0).to_multiset() =~= vstd::multiset::Multiset::<(usize, (usize, u32, u32, u32, u32, bool))>::empty()) by {
            assert(v@.take(0).to_multiset().len() == 0);
        }
    }
    while i < n
        invariant
            n == v@.len(),
            i <= n,
            c <= i,
            c == v@.take(i as int).to_multiset().count(x),
        decreases n - i,
    {
        let y = v[i];
        let eq = y.0 == x.0 && y.1.0 == x.1.0 && y.1.1 == x.1.1 && y.1.2 == x.1.2 && y.1.3 == x.1.3 && y.1.4 == x.1.4
            && y.1.5 == x.1.5;
        proof {
            assert(v@.take(i + 1) =~= v@.take(i as int).push(y));
            vstd::seq_lib::to_multiset_build(v@.take(i as int), y);
            assert(v@.take(i + 1).to_multiset() =~= v@.take(i as int).to_multiset().insert(y));
            assert(eq == (y == x));
        }
        if eq {
            c = c + 1;
        }
        i += 1;
    }
    proof {
        assert(v@.take(n as int) =~= v@);
    }
    c
}

/// Whether the two lists hold the same elements, each as often.
fn same_entries(
    a: &Vec<(usize, (usize, u32, u32, u32, u32, bool))>,
    b: &Vec<(usize, (usize, u32, u32, u32, u32, bool))>,
) -> (r: bool)
    ensures
        r == (a@.to_multiset() == b@.to_multiset()),
{
    broadcast use vstd::seq_lib::group_to_multiset_ensures;
    let na = a.len();
    let mut i: usize = 0;
    while i < na
        invariant
            na == a@.len(),
            i <= na,
            forall|j: int| 0 <= j < i ==> a@.to_multiset().count(#[trigger] a@[j]) == b@.to_multiset().count(a@[j]),
        decreases na - i,
    {
        if count_in(a, a[i]) != count_in(b, a[i]) {
            return false;
        }
        i += 1;
    }
    let nb = b.len();
    let mut k: usize = 0;
    while k < nb
        invariant
            nb == b@.len(),
            na == a@.len(),
            k <= nb,
            forall|j: int| 0 <= j < na ==> a@.to_multiset().count(#[trigger] a@[j]) == b@.to_multiset().count(a@[j]),
            forall|j: int| 0 <= j < k ==> a@.to_multiset().count(#[trigger] b@[j]) == b@.to_multiset().count(b@[j]),
        decreases nb - k,
    {
        if count_in(a, b[k]) != count_in(b, b[k]) {
            return false;
        }
        k += 1;
    }
    proof {
        assert forall|x: (usize, (usize, u32, u32, u32, u32, bool))| a@.to_multiset().count(x) == b@.to_multiset().count(x) by {
            if a@.contains(x) {
                let j = choose|j: int| 0 <= j < a@.len() && a@[j] == x;
            } else if b@.contains(x) {
                let j = choose|j: int| 0 <= j < b@.len() && b@[j] == x;
            }
        }
        assert(a@.to_multiset() =~= b@.to_multiset());
    }
    true
}

/// What `effective_tracked_rectangles` gives: the rectangles entered by hand
/// where there are any, else, where following is on, the rectangle that
/// changed most (see `is_top_changed`), else none.
pub open spec fn tracked_spec(app: PackingApp, r: Seq<usize>) -> bool {
    if app.tracked_rectangles@.len() > 0 {
        r == app.tracked_rectangles@
    } else if app.auto_track_most_changed {
        is_top_changed(app.history@, r, 1)
    } else {
        r.len() == 0
    }
}

/// A local search is selected and the instance has at most 25 rectangles.
pub open spec fn spec_small_demo(app: PackingApp) -> bool {
    app.selected_algo >= 2 && match app.instance {
        Some(i) => i.rectangles@.len() <= 25,
        None => false,
    }
}

/// The snapshot index points at a snapshot, or is 0 where there is none.
pub open spec fn history_index_ok(app: PackingApp) -> bool {
    ||| (app.history@.len() == 0 && app.history_index == 0)
    ||| app.history_index < app.history@.len()
}

/// Where the index is in range and there are snapshots, one is shown.
pub proof fn lemma_index_ok_shows_snapshot(app: PackingApp)
    requires
        history_index_ok(app),
        app.history@.len() > 0,
    ensures
        spec_current_display(app) is Some,
{
}

/// The snapshot on display, as `current_display_solution` gives it.
pub open spec fn spec_current_display(app: PackingApp) -> Option<PackingSolution> {
    if app.history@.len() > 0 {
        if app.history_index < app.history@.len() {
            Some(app.history@[app.history_index as int])
        } else {
            None
        }
    } else {
        app.solution
    }
}

/// The snapshot before it, as `previous_display_solution` gives it.
pub open spec fn spec_previous_display(app: PackingApp) -> Option<PackingSolution> {
    if app.history@.len() > 0 && app.history_index > 0 && app.history_index - 1 < app.history@.len() {
        Some(app.history@[app.history_index - 1])
    } else {
        None
    }
}

/// `b` is worth keeping after `a`: their scores differ, or they place
/// rectangles differently.
pub open spec fn differs(a: PackingSolution, b: PackingSolution, box_size: u32) -> bool {
    crate::evaluator::spec_evaluate(a, box_size) != crate::evaluator::spec_evaluate(b, box_size) || !same_layout(a@, b@)
}

/// The snapshots kept from `s`: the first, and each that differs from the
/// last one kept (see `differs`).
pub open spec fn kept_snapshots(s: Seq<PackingSolution>, box_size: u32) -> Seq<PackingSolution>
    decreases s.len(),
{
    if s.len() == 0 {
        Seq::empty()
    } else {
        let before = kept_snapshots(s.drop_last(), box_size);
        if before.len() == 0 || differs(before.last(), s.last(), box_size) {
            before.push(s.last())
        } else {
            before
        }
    }
}

proof fn lemma_kept_contains(s: Seq<PackingSolution>, box_size: u32)
    ensures
        forall|k: int| 0 <= k < kept_snapshots(s, box_size).len() ==> s.contains(#[trigger] kept_snapshots(s, box_size)[k]),
    decreases s.len(),
{
    if s.len() > 0 {
        lemma_kept_contains(s.drop_last(), box_size);
        let before = kept_snapshots(s.drop_last(), box_size);
        assert forall|k: int| 0 <= k < kept_snapshots(s, box_size).len() implies s.contains(#[trigger] kept_snapshots(s, box_size)[k]) by {
            if k < before.len() {
                assert(kept_snapshots(s, box_size)[k] == before[k]);
                assert(s.drop_last().contains(before[k]));
                let q = choose|q: int| 0 <= q < s.drop_last().len() && s.drop_last()[q] == before[k];
                assert(s[q] == before[k]);
            } else {
                assert(kept_snapshots(s, box_size)[k] == s.last());
                assert(s[s.len() - 1] == s.last());
            }
        }
    }
}

impl PackingApp {
    /// The rectangles followed (see `tracked_spec`).
    pub fn effective_tracked_rectangles(&self) -> (r: Vec<usize>)
        requires
            8 * self.history@.len() <= i32::MAX,
        ensures
            tracked_spec(*self, r@),
    {
        if self.tracked_rectangles.len() > 0 {
            let r = self.tracked_rectangles.clone();
            proof {
                assert(r@ =~= self.tracked_rectangles@);
            }
            r
        } else if self.auto_track_most_changed {
            self.most_changed_rectangles(1)
        } else {
            Vec::new()
        }
    }

    /// The rectangles to highlight: in the step-by-step mode the ones that
    /// changed from the previous snapshot to the one on display, where there
    /// are both and some changed; otherwise the rectangles followed.
    pub fn visual_focus_rectangles(&self) -> (r: Vec<usize>)
        requires
            8 * self.history@.len() <= i32::MAX,
        ensures
            ({
                let prev = spec_previous_display(*self);
                let curr = spec_current_display(*self);
                if spec_small_demo(*self) && prev is Some && curr is Some && exists|id: usize|
                    last_record(entries(prev->0@), id) != last_record(entries(curr->0@), id) {
                    &&& strictly_increasing(r@)
                    &&& forall|id: usize|
                        #[trigger] r@.contains(id) <==> last_record(entries(prev->0@), id) != last_record(
                            entries(curr->0@),
                            id,
                        )
                } else {
                    tracked_spec(*self, r@)
                }
            }),
    {
        if self.is_small_demo_mode() {
            let prev = self.previous_display_solution();
            let curr = self.current_display_solution();
            if let (Some(p), Some(c)) = (prev, curr) {
                let changed = Self::changed_rectangles_between(p, c);
                if changed.len() > 0 {
                    proof {
                        assert(changed@.contains(changed@[0]));
                    }
                    return changed;
                }
                proof {
                    assert forall|id: usize| last_record(entries(p@), id) == last_record(entries(c@), id) by {
                        if last_record(entries(p@), id) != last_record(entries(c@), id) {
                            assert(changed@.contains(id));
                        }
                    }
                }
            }
        }
        self.effective_tracked_rectangles()
    }

    /// A snapshot is kept after another where their scores differ, or where
    /// they place rectangles differently (not merely in another order within
    /// a bin).
    pub fn should_keep_snapshot(&self, previous: &PackingSolution, current: &PackingSolution) -> (r: bool)
        requires
            crate::evaluator::evaluation_in_range(*previous, self.box_size),
            crate::evaluator::evaluation_in_range(*current, self.box_size),
        ensures
            r == (crate::evaluator::spec_evaluate(*previous, self.box_size) != crate::evaluator::spec_evaluate(
                *current,
                self.box_size,
            ) || !same_layout(previous@, current@)),
    {
        let prev_score = crate::evaluator::evaluate(previous, self.box_size);
        let curr_score = crate::evaluator::evaluate(current, self.box_size);
        if prev_score.bins_used != curr_score.bins_used {
            return true;
        }
        if prev_score.wasted_area != curr_score.wasted_area {
            return true;
        }
        let prev_entries = placement_entries(previous);
        let curr_entries = placement_entries(current);
        !same_entries(&prev_entries, &curr_entries)
    }

    /// Keeps each snapshot that differs from the last one kept (see
    /// `should_keep_snapshot`), the first always; the last one kept goes on
    /// display and becomes the solution. With none, history and solution are
    /// cleared.
    pub fn set_history_filtered(&mut self, snapshots: Vec<PackingSolution>)
        requires
            forall|k: int|
                0 <= k < snapshots@.len() ==> crate::evaluator::evaluation_in_range(#[trigger] snapshots@[k], old(self).box_size),
        ensures
            final(self).history@ == kept_snapshots(snapshots@, old(self).box_size),
            final(self).history_index == (if final(self).history@.len() == 0 {
                0
            } else {
                final(self).history@.len() - 1
            }),
            final(self).history@.len() == 0 ==> final(self).solution is None,
            final(self).history@.len() > 0 ==> (final(self).solution matches Some(s) && s@ == final(self).history@.last()@),
            final(self).instance == old(self).instance,
            final(self).box_size == old(self).box_size,
            final(self).selected_algo == old(self).selected_algo,
            final(self).tracked_rectangles == old(self).tracked_rectangles,
            final(self).auto_track_most_changed == old(self).auto_track_most_changed,
            final(self).status == old(self).status,
            final(self).num_rects == old(self).num_rects,
            final(self).min_size == old(self).min_size,
            final(self).max_size == old(self).max_size,
            final(self).tracked_rectangles_input == old(self).tracked_rectangles_input,
            history_index_ok(*final(self)),
    {
        let mut filtered: Vec<PackingSolution> = Vec::new();
        let mut snapshots = snapshots;
        let ghost all = snapshots@;
        let n = snapshots.len();
        // take the snapshots out from the back, then hand them out from the front
        let mut reversed: Vec<PackingSolution> = Vec::new();
        while snapshots.len() > 0
            invariant
                reversed@.len() + snapshots@.len() == n,
                n == all.len(),
                snapshots@ == all.take(snapshots@.len() as int),
                forall|j: int| 0 <= j < reversed@.len() ==> #[trigger] reversed@[j] == all[n - 1 - j],
            decreases snapshots@.len(),
        {
            let ghost before = snapshots@;
            let last = snapshots.pop().unwrap();
            proof {
                assert(last == all[before.len() - 1]);
                assert(snapshots@ =~= all.take(snapshots@.len() as int));
            }
            reversed.push(last);
        }
        let mut i: usize = 0;
        while reversed.len() > 0
            invariant
                0 <= i <= n,
                n == all.len(),
                reversed@.len() == n - i,
                forall|j: int| 0 <= j < reversed@.len() ==> #[trigger] reversed@[j] == all[n - 1 - j],
                forall|k: int| 0 <= k < all.len() ==> crate::evaluator::evaluation_in_range(#[trigger] all[k], self.box_size),
                filtered@ == kept_snapshots(all.take(i as int), self.box_size),
                forall|k: int| 0 <= k < filtered@.len() ==> all.contains(#[trigger] filtered@[k]),
            decreases reversed@.len(),
        {
            let snapshot = reversed.pop().unwrap();
            proof {
                assert(snapshot == all[i as int]);
                assert(all.contains(all[i as int]));
                assert(all.take(i + 1).drop_last() =~= all.take(i as int));
                assert(all.take(i + 1).last() == snapshot);
                lemma_kept_contains(all.take(i as int), self.box_size);
            }
            let keep = if filtered.len() > 0 {
                let last_index = filtered.len() - 1;
                proof {
                    assert(all.contains(filtered@[last_index as int]));
                    let q = choose|q: int| 0 <= q < all.len() && all[q] == filtered@[last_index as int];
                }
                self.should_keep_snapshot(&filtered[last_index], &snapshot)
            } else {
                true
            };
            if keep {
                filtered.push(snapshot);
            }
            proof {
                assert forall|k: int| 0 <= k < filtered@.len() implies all.contains(#[trigger] filtered@[k]) by {}
            }
            i += 1;
        }
        proof {
            assert(all.take(n as int) =~= all);
        }
        if filtered.len() == 0 {
            self.history.clear();
            proof {
                assert(self.history@ =~= filtered@);
            }
            self.history_index = 0;
            self.solution = None;
        } else {
            self.history = filtered;
            self.history_index = self.history.len() - 1;
            self.solution = Some(self.history[self.history_index].clone());
        }
    }
}

impl PackingApp {
    /// Takes a new instance: no solution and no snapshots remain.
    pub fn load_instance(&mut self, instance: Instance)
        ensures
            final(self).instance == Some(instance),
            final(self).solution is None,
            final(self).history@.len() == 0,
            final(self).history_index == 0,
            history_index_ok(*final(self)),
            final(self).selected_algo == old(self).selected_algo,
            final(self).status == old(self).status,
            final(self).num_rects == old(self).num_rects,
            final(self).min_size == old(self).min_size,
            final(self).max_size == old(self).max_size,
            final(self).box_size == old(self).box_size,
            final(self).tracked_rectangles == old(self).tracked_rectangles,
            final(self).tracked_rectangles_input == old(self).tracked_rectangles_input,
            final(self).auto_track_most_changed == old(self).auto_track_most_changed,
    {
        self.instance = Some(instance);
        self.solution = None;
        self.history.clear();
        self.history_index = 0;
    }

    /// There is an earlier snapshot to step back to.
    pub fn can_step_back(&self) -> (r: bool)
        ensures
            r == (self.history_index > 0),
    {
        self.history_index > 0
    }

    /// There is a later snapshot to step forward to.
    pub fn can_step_forward(&self) -> (r: bool)
        ensures
            r == (self.history_index + 1 < self.history@.len()),
    {
        let n = self.history.len();
        n > 0 && self.history_index < n - 1
    }

    /// Shows the previous snapshot, where there is one; nothing else changes.
    pub fn step_back(&mut self)
        ensures
            final(self).history_index == (if old(self).history_index > 0 {
                old(self).history_index - 1
            } else {
                old(self).history_index as int
            }),
            final(self).history == old(self).history,
            final(self).solution == old(self).solution,
            final(self).instance == old(self).instance,
            final(self).selected_algo == old(self).selected_algo,
            final(self).status == old(self).status,
            final(self).box_size == old(self).box_size,
            final(self).tracked_rectangles == old(self).tracked_rectangles,
            final(self).tracked_rectangles_input == old(self).tracked_rectangles_input,
            final(self).auto_track_most_changed == old(self).auto_track_most_changed,
            history_index_ok(*old(self)) ==> history_index_ok(*final(self)),
    {
        if self.history_index > 0 {
            self.history_index = self.history_index - 1;
        }
    }

    /// Shows the next snapshot, where there is one; nothing else changes.
    pub fn step_forward(&mut self)
        ensures
            final(self).history_index == (if old(self).history_index + 1 < old(self).history@.len() {
                old(self).history_index + 1
            } else {
                old(self).history_index as int
            }),
            final(self).history == old(self).history,
            final(self).solution == old(self).solution,
            final(self).instance == old(self).instance,
            final(self).selected_algo == old(self).selected_algo,
            final(self).status == old(self).status,
            final(self).box_size == old(self).box_size,
            final(self).tracked_rectangles == old(self).tracked_rectangles,
            final(self).tracked_rectangles_input == old(self).tracked_rectangles_input,
            final(self).auto_track_most_changed == old(self).auto_track_most_changed,
            history_index_ok(*old(self)) ==> history_index_ok(*final(self)),
    {
        let n = self.history.len();
        if n > 0 && self.history_index < n - 1 {
            self.history_index = self.history_index + 1;
        }
    }
}

/// Unicode White_Space, the characters `char::is_whitespace` accepts.
pub open spec fn is_space(c: char) -> bool {
    ||| '\u{9}' <= c <= '\u{d}'
    ||| c == ' '
    ||| c == '\u{85}'
    ||| c == '\u{a0}'
    ||| c == '\u{1680}'
    ||| '\u{2000}' <= c <= '\u{200a}'
    ||| c == '\u{2028}'
    ||| c == '\u{2029}'
    ||| c == '\u{202f}'
    ||| c == '\u{205f}'
    ||| c == '\u{3000}'
}

/// The pieces of `s` between commas, as `str::split(',')` gives them (one
/// empty piece for an empty text).
pub open spec fn split_commas(s: Seq<char>) -> Seq<Seq<char>>
    decreases s.len(),
{
    if s.len() == 0 {
        seq![Seq::empty()]
    } else {
        let before = split_commas(s.drop_last());
        if s.last() == ',' {
            before.push(Seq::empty())
        } else {
            before.update(before.len() - 1, before.last().push(s.last()))
        }
    }
}

/// `t` without its leading white space.
pub open spec fn trim_start(t: Seq<char>) -> Seq<char>
    decreases t.len(),
{
    if t.len() > 0 && is_space(t[0]) {
        trim_start(t.drop_first())
    } else {
        t
    }
}

/// `t` without its trailing white space.
pub open spec fn trim_end(t: Seq<char>) -> Seq<char>
    decreases t.len(),
{
    if t.len() > 0 && is_space(t.last()) {
        trim_end(t.drop_last())
    } else {
        t
    }
}

/// The value of a string of decimal digits.
pub open spec fn digits_value(t: Seq<char>) -> int
    decreases t.len(),
{
    if t.len() == 0 {
        0
    } else {
        digits_value(t.drop_last()) * 10 + (t.last() as int - '0' as int)
    }
}

/// Every character is a decimal digit.
pub open spec fn all_digits(t: Seq<char>) -> bool {
    forall|i: int| 0 <= i < t.len() ==> '0' <= #[trigger] t[i] <= '9'
}

/// What `str::parse::<usize>` accepts: an optional `+` and then at least one
/// decimal digit, of value at most `usize::MAX`.
pub open spec fn parse_usize(t: Seq<char>) -> Option<usize> {
    let d = if t.len() > 0 && t[0] == '+' {
        t.drop_first()
    } else {
        t
    };
    if d.len() > 0 && all_digits(d) && digits_value(d) <= usize::MAX {
        Some(digits_value(d) as usize)
    } else {
        None
    }
}

/// `id` is written in one of the comma-separated pieces of `s`, with white
/// space around it allowed.
pub open spec fn lists_id(s: Seq<char>, id: usize) -> bool {
    exists|k: int|
        0 <= k < split_commas(s).len() && parse_usize(trim_end(trim_start(#[trigger] split_commas(s)[k]))) == Some(id)
}

proof fn lemma_digits_monotone(t: Seq<char>, i: int)
    requires
        0 <= i <= t.len(),
        all_digits(t),
    ensures
        0 <= digits_value(t.take(i)) <= digits_value(t),
    decreases t.len() - i,
{
    if i < t.len() {
        lemma_digits_monotone(t, i + 1);
        assert(t.take(i + 1).drop_last() =~= t.take(i));
        assert(t.take(i + 1).last() == t[i]);
    } else {
        assert(t.take(i) =~= t);
    }
    lemma_digits_nonneg(t.take(i));
}

proof fn lemma_digits_nonneg(t: Seq<char>)
    requires
        all_digits(t),
    ensures
        digits_value(t) >= 0,
    decreases t.len(),
{
    if t.len() > 0 {
        assert forall|i: int| 0 <= i < t.drop_last().len() implies '0' <= #[trigger] t.drop_last()[i] <= '9' by {
            assert(t.drop_last()[i] == t[i]);
        }
        lemma_digits_nonneg(t.drop_last());
        assert(t[t.len() - 1] == t.last());
    }
}

/// The number written in `chars[from..to]` (see `parse_usize`), if it is
/// one.
fn parse_piece(chars: &Vec<char>, from: usize, to: usize) -> (r: Option<usize>)
    requires
        from <= to <= chars@.len(),
    ensures
        r == parse_usize(chars@.subrange(from as int, to as int)),
{
    let ghost t = chars@.subrange(from as int, to as int);
    let mut start = from;
    if start < to && chars[start] == '+' {
        start = start + 1;
    }
    let ghost d = chars@.subrange(start as int, to as int);
    proof {
        assert(t.len() == to - from);
        if from < to {
            assert(t[0] == chars@[from as int]);
        }
        if from < to && chars@[from as int] == '+' {
            assert(d =~= t.drop_first());
        } else {
            assert(d =~= t);
        }
    }
    let ghost stripped = if t.len() > 0 && t[0] == '+' {
        t.drop_first()
    } else {
        t
    };
    proof {
        assert(stripped == d);
    }
    if start == to {
        proof {
            assert(d.len() == 0);
        }
        return None;
    }
    let mut value: usize = 0;
    let mut i: usize = start;
    while i < to
        invariant
            start <= i <= to,
            to <= chars@.len(),
            d == chars@.subrange(start as int, to as int),
            t == chars@.subrange(from as int, to as int),
            d.len() > 0,
            parse_usize(t) == (if d.len() > 0 && all_digits(d) && digits_value(d) <= usize::MAX {
                Some(digits_value(d) as usize)
            } else {
                None
            }),
            forall|j: int| 0 <= j < i - start ==> '0' <= #[trigger] d[j] <= '9',
            value == digits_value(d.take(i - start)),
        decreases to - i,
    {
        let c = chars[i];
        proof {
            assert(c == d[i - start]);
        }
        if !('0' <= c && c <= '9') {
            proof {
                assert(!('0' <= d[i - start] <= '9'));
                assert(!all_digits(d));
            }
            return None;
        }
        let digit = (c as u32 - '0' as u32) as usize;
        proof {
            assert(d.take(i - start + 1).drop_last() =~= d.take(i - start));
            assert(d.take(i - start + 1).last() == c);
        }
        let next = match value.checked_mul(10) {
            Some(m) => m.checked_add(digit),
            None => None,
        };
        match next {
            Some(v) => {
                value = v;
            },
            None => {
                proof {
                    assert(digits_value(d.take(i - start + 1)) > usize::MAX);
                    if all_digits(d) {
                        lemma_digits_monotone(d, i - start + 1);
                    }
                }
                return None;
            },
        }
        i += 1;
    }
    proof {
        assert(d.take(i - start) =~= d);
        assert(all_digits(d));
    }
    Some(value)
}

/// The identifiers listed in `input` (see `lists_id`), ascending and each
/// once.
pub fn parse_id_list(input: &str) -> (r: Vec<usize>)
    ensures
        strictly_increasing(r@),
        forall|id: usize| #[trigger] r@.contains(id) <==> lists_id(input@, id),
{
    let ghost s = input@;
    let n = input.unicode_len();
    let mut chars: Vec<char> = Vec::new();
    let mut i: usize = 0;
    while i < n
        invariant
            n == s.len(),
            s == input@,
            i <= n,
            chars@ == s.take(i as int),
        decreases n - i,
    {
        chars.push(input.get_char(i));
        proof {
            assert(s.take(i + 1) =~= s.take(i as int).push(s[i as int]));
        }
        i += 1;
    }
    proof {
        assert(s.take(n as int) =~= s);
    }
    let mut ids: Vec<usize> = Vec::new();
    let mut start: usize = 0;
    let mut k: usize = 0;
    proof {
        lemma_split_prefix(s, 0);
        assert(s.take(0) =~= Seq::<char>::empty());
        assert(s.subrange(0, 0) =~= Seq::<char>::empty());
    }
    // each piece ends at a comma, the last at the end of the text
    while k < n
        invariant
            n == s.len(),
            chars@ == s,
            start <= k <= n,
            split_commas(s.take(k as int)).last() == s.subrange(start as int, k as int),
            strictly_increasing(ids@),
            forall|id: usize| #[trigger] ids@.contains(id) <==> exists|q: int|
                0 <= q < split_commas(s.take(k as int)).len() - 1 && parse_usize(
                    trim_end(trim_start(#[trigger] split_commas(s)[q])),
                ) == Some(id),
        decreases n - k,
    {
        proof {
            lemma_split_prefix(s, k as int);
            lemma_split_prefix(s, k + 1);
            assert(s.take(k + 1).drop_last() =~= s.take(k as int));
            assert(s.take(k + 1).last() == s[k as int]);
        }
        if chars[k] == ',' {
            let parsed = trimmed_value(&chars, start, k);
            let ghost before = split_commas(s.take(k as int));
            let ghost q_here = before.len() - 1;
            proof {
                assert(split_commas(s.take(k + 1)) == before.push(Seq::<char>::empty()));
                assert(split_commas(s.take(k + 1))[q_here] == before[q_here]);
                assert(split_commas(s)[q_here] == split_commas(s.take(k + 1))[q_here]);
            }
            if let Some(id) = parsed {
                insert_id(&mut ids, id);
            }
            proof {
                assert(s.subrange(k + 1, k + 1) =~= Seq::<char>::empty());
                assert forall|id: usize| #[trigger] ids@.contains(id) <==> exists|q: int|
                    0 <= q < split_commas(s.take(k + 1)).len() - 1 && parse_usize(
                        trim_end(trim_start(#[trigger] split_commas(s)[q])),
                    ) == Some(id) by {
                    if parsed == Some(id) {
                        assert(parse_usize(trim_end(trim_start(split_commas(s)[q_here]))) == Some(id));
                    }
                }
            }
            start = k + 1;
        } else {
            proof {
                assert(s.subrange(start as int, k + 1) =~= s.subrange(start as int, k as int).push(s[k as int]));
            }
        }
        k += 1;
    }
    proof {
        assert(s.take(n as int) =~= s);
        lemma_split_len(s);
    }
    let parsed = trimmed_value(&chars, start, n);
    let ghost q_last = split_commas(s).len() - 1;
    if let Some(id) = parsed {
        insert_id(&mut ids, id);
    }
    proof {
        assert forall|id: usize| #[trigger] ids@.contains(id) <==> lists_id(s, id) by {
            if parsed == Some(id) {
                assert(parse_usize(trim_end(trim_start(split_commas(s)[q_last]))) == Some(id));
            }
        }
    }
    ids
}

/// The number written in `chars[from..to]` once white space around it is
/// dropped (see `parse_usize`), if it is one.
fn trimmed_value(chars: &Vec<char>, from: usize, to: usize) -> (r: Option<usize>)
    requires
        from <= to <= chars@.len(),
    ensures
        r == parse_usize(trim_end(trim_start(chars@.subrange(from as int, to as int)))),
{
    let ghost s = chars@;
    let mut a = from;
    let mut b = to;
    while a < b && is_space_char(chars[a])
        invariant
            from <= a <= b,
            b == to,
            to <= s.len(),
            chars@ == s,
            trim_start(s.subrange(from as int, to as int)) == trim_start(s.subrange(a as int, to as int)),
        decreases b - a,
    {
        proof {
            assert(s.subrange(a as int, to as int).drop_first() =~= s.subrange(a + 1, to as int));
            assert(s.subrange(a as int, to as int)[0] == s[a as int]);
        }
        a += 1;
    }
    proof {
        if a < b {
            assert(s.subrange(a as int, to as int)[0] == s[a as int]);
        }
        assert(trim_start(s.subrange(a as int, to as int)) == s.subrange(a as int, to as int));
    }
    while b > a && is_space_char(chars[b - 1])
        invariant
            from <= a <= b <= to,
            to <= s.len(),
            chars@ == s,
            trim_end(s.subrange(a as int, to as int)) == trim_end(s.subrange(a as int, b as int)),
        decreases b - a,
    {
        proof {
            assert(s.subrange(a as int, b as int).drop_last() =~= s.subrange(a as int, b - 1));
            assert(s.subrange(a as int, b as int).last() == s[b - 1]);
        }
        b -= 1;
    }
    proof {
        if b > a {
            assert(s.subrange(a as int, b as int).last() == s[b - 1]);
        }
        assert(trim_end(s.subrange(a as int, b as int)) == s.subrange(a as int, b as int));
    }
    parse_piece(chars, a, b)
}

/// Pieces of a prefix agree with those of the whole text, but for the last,
/// which may go on.
proof fn lemma_split_prefix(s: Seq<char>, k: int)
    requires
        0 <= k <= s.len(),
    ensures
        split_commas(s.take(k)).len() <= split_commas(s).len(),
        forall|q: int| 0 <= q < split_commas(s.take(k)).len() - 1 ==> #[trigger] split_commas(s.take(k))[q] == split_commas(s)[q],
        split_commas(s.take(k)).len() >= 1,
    decreases s.len() - k,
{
    lemma_split_len(s.take(k));
    if k < s.len() {
        lemma_split_prefix(s, k + 1);
        assert(s.take(k + 1).drop_last() =~= s.take(k));
        assert(s.take(k + 1).last() == s[k]);
        let before = split_commas(s.take(k));
        let after = split_commas(s.take(k + 1));
        assert forall|q: int| 0 <= q < before.len() - 1 implies #[trigger] before[q] == split_commas(s)[q] by {
            assert(after[q] == before[q]);
        }
    } else {
        assert(s.take(k) =~= s);
    }
}

proof fn lemma_split_len(s: Seq<char>)
    ensures
        split_commas(s).len() >= 1,
    decreases s.len(),
{
    if s.len() > 0 {
        lemma_split_len(s.drop_last());
    }
}

/// Whether `c` is white space (see `is_space`).
fn is_space_char(c: char) -> (r: bool)
    ensures
        r == is_space(c),
{
    ('\u{9}' <= c && c <= '\u{d}') || c == ' ' || c == '\u{85}' || c == '\u{a0}' || c == '\u{1680}' || ('\u{2000}' <= c
        && c <= '\u{200a}') || c == '\u{2028}' || c == '\u{2029}' || c == '\u{202f}' || c == '\u{205f}' || c == '\u{3000}'
}

impl PackingApp {
    /// Reads the identifiers typed into the tracking field (see
    /// `parse_id_list`) and follows them.
    pub fn parse_tracked_rectangles(&mut self)
        ensures
            strictly_increasing(final(self).tracked_rectangles@),
            forall|id: usize|
                #[trigger] final(self).tracked_rectangles@.contains(id) <==> lists_id(old(self).tracked_rectangles_input@, id),
            final(self).tracked_rectangles_input == old(self).tracked_rectangles_input,
            final(self).history == old(self).history,
            final(self).history_index == old(self).history_index,
            final(self).instance == old(self).instance,
            final(self).solution == old(self).solution,
            final(self).selected_algo == old(self).selected_algo,
            final(self).auto_track_most_changed == old(self).auto_track_most_changed,
            final(self).box_size == old(self).box_size,
            final(self).status == old(self).status,
            final(self).num_rects == old(self).num_rects,
            final(self).min_size == old(self).min_size,
            final(self).max_size == old(self).max_size,
            history_index_ok(*old(self)) ==> history_index_ok(*final(self)),
    {
        let ids = parse_id_list(self.tracked_rectangles_input.as_str());
        self.tracked_rectangles = ids;
    }
}

/// How a rectangle's outline is drawn: in the highlight colour of the given
/// palette index, as the largest rectangle of its bin, or plainly.
#[derive(Debug, Clone, Copy, PartialEq, Eq)]
pub enum StrokeStyle {
    Focus(usize),
    Largest,
    Plain,
}

/// The highlight colours, as red, green and blue.
pub open spec fn palette(index: int) -> (u8, u8, u8) {
    if index == 0 {
        (0u8, 102u8, 255u8)
    } else if index == 1 {
        (255u8, 99u8, 132u8)
    } else if index == 2 {
        (54u8, 162u8, 235u8)
    } else if index == 3 {
        (255u8, 206u8, 86u8)
    } else if index == 4 {
        (75u8, 192u8, 192u8)
    } else if index == 5 {
        (153u8, 102u8, 255u8)
    } else if index == 6 {
        (255u8, 159u8, 64u8)
    } else {
        (0u8, 200u8, 120u8)
    }
}

/// The first position of `id` in `ids`, if any.
pub open spec fn position_of(ids: Seq<usize>, id: usize) -> Option<usize> {
    if exists|i: int| 0 <= i < ids.len() && ids[i] == id {
        Some((choose|i: int| 0 <= i < ids.len() && ids[i] == id && forall|j: int| 0 <= j < i ==> ids[j] != id) as usize)
    } else {
        None
    }
}

/// The first position of `id` in `ids` (see `position_of`).
fn find_position(ids: &[usize], id: usize) -> (r: Option<usize>)
    ensures
        r == position_of(ids@, id),
{
    let n = ids.len();
    let mut i: usize = 0;
    while i < n
        invariant
            n == ids@.len(),
            i <= n,
            forall|j: int| 0 <= j < i ==> ids@[j] != id,
        decreases n - i,
    {
        if ids[i] == id {
            proof {
                let k = choose|k: int| 0 <= k < ids@.len() && ids@[k] == id && forall|j: int| 0 <= j < k ==> ids@[j] != id;
                if k < i {
                    assert(ids@[k] != id);
                } else if k > i {
                    assert(ids@[i as int] != id);
                }
            }
            return Some(i);
        }
        i += 1;
    }
    None
}

impl PackingApp {
    /// The highlight colour for palette position `index`, cycling through
    /// eight colours.
    pub fn highlighted_color(index: usize) -> (r: (u8, u8, u8))
        ensures
            r == palette(index as int % 8),
    {
        let k = index % 8;
        if k == 0 {
            (0, 102, 255)
        } else if k == 1 {
            (255, 99, 132)
        } else if k == 2 {
            (54, 162, 235)
        } else if k == 3 {
            (255, 206, 86)
        } else if k == 4 {
            (75, 192, 192)
        } else if k == 5 {
            (153, 102, 255)
        } else if k == 6 {
            (255, 159, 64)
        } else {
            (0, 200, 120)
        }
    }

    /// The colour of a rectangle that is not singled out, derived from its
    /// identifier; each component lies in `100..255`.
    pub fn normal_rect_color(rect_id: usize) -> (r: (u8, u8, u8))
        requires
            rect_id * 151 <= usize::MAX,
        ensures
            r == ((100 + (rect_id * 53) % 155) as u8, (100 + (rect_id * 97) % 155) as u8, (100 + (rect_id * 151) % 155) as u8),
    {
        ((100 + ((rect_id * 53) % 155)) as u8, (100 + ((rect_id * 97) % 155)) as u8, (100 + ((rect_id * 151) % 155)) as u8)
    }

    /// The grey of rectangles outside the focus.
    pub fn faded_rect_color() -> (r: (u8, u8, u8))
        ensures
            r == (130u8, 130u8, 130u8),
    {
        (130, 130, 130)
    }

    /// The fill colour of a rectangle: in the step-by-step mode, highlighted
    /// (by its place in `focus_ids`) where it is in focus and grey
    /// otherwise; elsewhere its own colour where nothing is in focus, else
    /// highlighted or grey as before.
    pub fn color_for_rect(&self, rect_id: usize, focus_ids: &[usize]) -> (r: (u8, u8, u8))
        requires
            rect_id * 151 <= usize::MAX,
        ensures
            r == (if spec_small_demo(*self) || focus_ids@.len() > 0 {
                match position_of(focus_ids@, rect_id) {
                    Some(i) => palette(i as int % 8),
                    None => (130u8, 130u8, 130u8),
                }
            } else {
                ((100 + (rect_id * 53) % 155) as u8, (100 + (rect_id * 97) % 155) as u8, (100 + (rect_id * 151) % 155) as u8)
            }),
    {
        if self.is_small_demo_mode() {
            match find_position(focus_ids, rect_id) {
                Some(index) => Self::highlighted_color(index),
                None => Self::faded_rect_color(),
            }
        } else if focus_ids.len() == 0 {
            Self::normal_rect_color(rect_id)
        } else {
            match find_position(focus_ids, rect_id) {
                Some(index) => Self::highlighted_color(index),
                None => Self::faded_rect_color(),
            }
        }
    }

    /// The outline of a rectangle: highlighted where it is in focus; marked
    /// as its bin's largest where that is so, nothing is in focus and the
    /// step-by-step mode is off; plain otherwise.
    pub fn stroke_for_rect(&self, rect_id: usize, is_largest: bool, focus_ids: &[usize]) -> (r: StrokeStyle)
        ensures
            r == (match position_of(focus_ids@, rect_id) {
                Some(i) => StrokeStyle::Focus(i),
                None => if !spec_small_demo(*self) && focus_ids@.len() == 0 && is_largest {
                    StrokeStyle::Largest
                } else {
                    StrokeStyle::Plain
                },
            }),
    {
        match find_position(focus_ids, rect_id) {
            Some(index) => StrokeStyle::Focus(index),
            None => if !self.is_small_demo_mode() && focus_ids.len() == 0 && is_largest {
                StrokeStyle::Largest
            } else {
                StrokeStyle::Plain
            },
        }
    }
}

/// The largest area of a placement of the bin (0 for an empty bin).
pub fn largest_placement_area(bin: &Bin) -> (r: u32)
    requires
        forall|k: int| 0 <= k < bin.placements@.len() ==> (#[trigger] bin.placements@[k]).width * bin.placements@[k].height <= u32::MAX,
    ensures
        forall|k: int| 0 <= k < bin.placements@.len() ==> (#[trigger] bin.placements@[k]).width * bin.placements@[k].height <= r,
        bin.placements@.len() == 0 ==> r == 0,
        bin.placements@.len() > 0 ==> exists|k: int|
            0 <= k < bin.placements@.len() && (#[trigger] bin.placements@[k]).width * bin.placements@[k].height == r,
{
    let n = bin.placements.len();
    let mut best: u32 = 0;
    let mut i: usize = 0;
    while i < n
        invariant
            n == bin.placements@.len(),
            i <= n,
            forall|k: int| 0 <= k < n ==> (#[trigger] bin.placements@[k]).width * bin.placements@[k].height <= u32::MAX,
            forall|k: int| 0 <= k < i ==> (#[trigger] bin.placements@[k]).width * bin.placements@[k].height <= best,
            i == 0 ==> best == 0,
            i > 0 ==> exists|k: int| 0 <= k < i && (#[trigger] bin.placements@[k]).width * bin.placements@[k].height == best,
        decreases n - i,
    {
        let p = bin.placements[i];
        proof {
            assert(p.width * p.height <= u32::MAX);
        }
        let area = p.width * p.height;
        if i == 0 || area > best {
            best = area;
        }
        i += 1;
    }
    best
}

impl PackingApp {
    /// Whether the viewer shows every step of a run on the instance, rather
    /// than only visibly different snapshots, and starts the geometry and
    /// overlap searches from one rectangle per box: instances of at most 25
    /// rectangles.
    pub fn shows_every_step(instance: &Instance) -> (r: bool)
        ensures
            r == (instance.rectangles@.len() <= 25),
    {
        instance.rectangles.len() <= 25
    }
}

} // verus!
