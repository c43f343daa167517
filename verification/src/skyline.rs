use vstd::prelude::*;

use crate::bin::{Bin, Placement, overlaps, inside, valid_placements, places_rect};
use crate::rectangle::Rectangle;

verus! {

/// One segment of the skyline: the horizontal run `[x, x + width)` whose
/// occupied height is `y`.
#[derive(Debug, Clone, Copy)]
pub struct SkylineNode {
    pub x: u32,
    pub y: u32,
    pub width: u32,
}

/// A bin filled by the skyline heuristic: the upper contour of what has been
/// placed is kept as a list of segments, and each rectangle goes on top of it.
#[derive(Debug)]
pub struct SkylineBin {
    size: u32,
    nodes: Vec<SkylineNode>,
    placements: Vec<Placement>,
}

impl Clone for SkylineBin {
    fn clone(&self) -> (r: Self)
        ensures
            r.state() == self.state(),
            r.wf() == self.wf(),
    {
        let r = SkylineBin { size: self.size, nodes: self.nodes.clone(), placements: self.placements.clone() };
        proof {
            assert(r.nodes@ =~= self.nodes@);
            assert(r.placements@ =~= self.placements@);
        }
        r
    }
}

/// The abscissa where a segment ends.
pub open spec fn node_end(n: SkylineNode) -> int {
    n.x + n.width
}

/// A segment of positive width and a placement of positive width share some
/// abscissa.
pub open spec fn meets(n: SkylineNode, p: Placement) -> bool {
    &&& n.width > 0
    &&& p.width > 0
    &&& n.x < p.x + p.width
    &&& p.x < n.x + n.width
}

/// Each segment starts where the previous one ends.
pub open spec fn contiguous(nodes: Seq<SkylineNode>) -> bool {
    forall|i: int| 0 <= i < nodes.len() - 1 ==> (#[trigger] nodes[i + 1]).x == node_end(nodes[i])
}

/// Every placement of positive width lies below every segment above it.
pub open spec fn below_all(nodes: Seq<SkylineNode>, ps: Seq<Placement>) -> bool {
    forall|i: int, k: int|
        0 <= i < nodes.len() && 0 <= k < ps.len() && meets(#[trigger] nodes[i], #[trigger] ps[k])
            ==> ps[k].y + ps[k].height <= nodes[i].y
}

/// The segments cover `[0, size)` one after the other, and the placements lie
/// under them.
pub open spec fn skyline_ok(nodes: Seq<SkylineNode>, size: int, ps: Seq<Placement>) -> bool {
    &&& nodes.len() >= 1
    &&& nodes[0].x == 0
    &&& contiguous(nodes)
    &&& node_end(nodes.last()) == size
    &&& below_all(nodes, ps)
}

/// The highest segment among those from `index` on that start before `end_x`
/// has height `y`.
pub open spec fn is_span_top(nodes: Seq<SkylineNode>, index: int, end_x: int, y: u32) -> bool {
    &&& exists|k: int| index <= k < nodes.len() && nodes[k].x < end_x && #[trigger] nodes[k].y == y
    &&& forall|k: int| index <= k < nodes.len() && nodes[k].x < end_x ==> #[trigger] nodes[k].y <= y
}

proof fn lemma_span_top_unique(nodes: Seq<SkylineNode>, index: int, end_x: int, y1: u32, y2: u32)
    requires
        is_span_top(nodes, index, end_x, y1),
        is_span_top(nodes, index, end_x, y2),
    ensures
        y1 == y2,
{
    let k1 = choose|k: int| index <= k < nodes.len() && nodes[k].x < end_x && #[trigger] nodes[k].y == y1;
    let k2 = choose|k: int| index <= k < nodes.len() && nodes[k].x < end_x && #[trigger] nodes[k].y == y2;
    assert(nodes[k1].y <= y2);
    assert(nodes[k2].y <= y1);
}

/// Segments further right start no earlier than earlier ones end.
proof fn lemma_ordered(nodes: Seq<SkylineNode>, i: int, j: int)
    requires
        contiguous(nodes),
        0 <= i < j < nodes.len(),
    ensures
        node_end(nodes[i]) <= nodes[j].x,
    decreases j - i,
{
    let i0 = j - 1;
    assert(nodes[i0 + 1].x == node_end(nodes[i0]));
    if i < j - 1 {
        lemma_ordered(nodes, i, j - 1);
    }
}

/// Every abscissa from the start of segment `start` up to the right end of the
/// skyline lies in some segment from `start` on.
proof fn lemma_cover(nodes: Seq<SkylineNode>, start: int, px: int) -> (k: int)
    requires
        contiguous(nodes),
        0 <= start < nodes.len(),
        nodes[start].x <= px < node_end(nodes.last()),
    ensures
        start <= k < nodes.len(),
        nodes[k].x <= px < node_end(nodes[k]),
    decreases nodes.len() - start,
{
    if px < node_end(nodes[start]) {
        start
    } else {
        assert(start + 1 < nodes.len());
        assert(nodes[start + 1].x == node_end(nodes[start]));
        lemma_cover(nodes, start + 1, px)
    }
}


proof fn lemma_merge_step(
    before: Seq<SkylineNode>,
    size: int,
    ps: Seq<Placement>,
    i: int,
    merged: SkylineNode,
    after: Seq<SkylineNode>,
)
    requires
        skyline_ok(before, size, ps),
        0 <= i < before.len() - 1,
        before[i].y == before[i + 1].y,
        merged == (SkylineNode { x: before[i].x, y: before[i].y, width: (before[i].width + before[i + 1].width) as u32 }),
        before[i].width + before[i + 1].width <= u32::MAX,
        after == before.update(i, merged).remove(i + 1),
        forall|k: int| 0 <= k < i ==> (#[trigger] before[k]).y != before[k + 1].y,
    ensures
        skyline_ok(after, size, ps),
        forall|k: int| 0 <= k < i ==> (#[trigger] after[k]).y != after[k + 1].y,
{
    assert(after.len() == before.len() - 1);
    assert(before[i + 1].x == node_end(before[i]));
    assert forall|k: int| 0 <= k < after.len() - 1 implies (#[trigger] after[k + 1]).x == node_end(
        after[k],
    ) by {
        if k < i {
            assert(before[k + 1].x == node_end(before[k]));
        } else {
            let k1 = k + 1;
            assert(before[k1 + 1].x == node_end(before[k1]));
        }
    }
    assert forall|a: int, k: int|
        0 <= a < after.len() && 0 <= k < ps.len() && meets(#[trigger] after[a], #[trigger] ps[k])
            implies ps[k].y + ps[k].height <= after[a].y by {
        if a < i {
            assert(meets(before[a], ps[k]));
        } else if a > i {
            assert(meets(before[a + 1], ps[k]));
        } else {
            let n1 = before[i];
            let n2 = before[i + 1];
            if n1.width > 0 && ps[k].x < node_end(n1) {
                assert(meets(n1, ps[k]));
            } else {
                assert(meets(n2, ps[k]));
            }
        }
    }
    if i + 1 == after.len() {
        assert(after.last() == merged);
    } else {
        assert(after.last() == before.last());
    }
    assert forall|k: int| 0 <= k < i implies (#[trigger] after[k]).y != after[k + 1].y by {
        assert(before[k].y != before[k + 1].y);
    }
}

/// The segments after trimming: `new_node` stands at `index`; the old segments
/// from `j` on follow it, the first of them cut down to start at its end when
/// `shrunk`.
pub open spec fn trimmed(
    old_nodes: Seq<SkylineNode>,
    index: int,
    new_node: SkylineNode,
    j: int,
    shrunk: bool,
) -> Seq<SkylineNode> {
    let end_x = node_end(new_node);
    if shrunk {
        old_nodes.subrange(0, index) + seq![new_node] + seq![
            SkylineNode {
                x: end_x as u32,
                y: old_nodes[j].y,
                width: (node_end(old_nodes[j]) - end_x) as u32,
            },
        ] + old_nodes.subrange(j + 1, old_nodes.len() as int)
    } else {
        old_nodes.subrange(0, index) + seq![new_node] + old_nodes.subrange(j, old_nodes.len() as int)
    }
}

/// What the trimming loop leaves behind.
pub open spec fn trim_done(
    old_nodes: Seq<SkylineNode>,
    size: int,
    index: int,
    new_node: SkylineNode,
    j: int,
    shrunk: bool,
) -> bool {
    let end_x = node_end(new_node);
    &&& index < j <= old_nodes.len() || (index == j && j < old_nodes.len())
    &&& forall|k: int| index <= k < j ==> node_end(#[trigger] old_nodes[k]) <= end_x
    &&& shrunk ==> j < old_nodes.len() && old_nodes[j].x < end_x < node_end(old_nodes[j])
    &&& !shrunk ==> j == old_nodes.len() || old_nodes[j].x == end_x
}

proof fn lemma_trim_contiguous(
    old_nodes: Seq<SkylineNode>,
    size: int,
    index: int,
    new_node: SkylineNode,
    j: int,
    shrunk: bool,
)
    requires
        old_nodes.len() >= 1,
        old_nodes[0].x == 0,
        contiguous(old_nodes),
        node_end(old_nodes.last()) == size,
        size <= u32::MAX,
        0 <= index < old_nodes.len(),
        new_node.x == old_nodes[index].x,
        node_end(new_node) <= size,
        trim_done(old_nodes, size, index, new_node, j, shrunk),
    ensures
        ({
            let nn = trimmed(old_nodes, index, new_node, j, shrunk);
            &&& nn.len() >= 1
            &&& nn[0].x == 0
            &&& contiguous(nn)
            &&& node_end(nn.last()) == size
            &&& nn[index] == new_node
            &&& forall|a: int| 0 <= a < index ==> nn[a] == old_nodes[a]
            &&& !shrunk ==> forall|a: int| index < a < nn.len() ==> nn[a] == old_nodes[a + j - index - 1]
            &&& shrunk ==> forall|a: int| index + 1 < a < nn.len() ==> nn[a] == old_nodes[a + j - index - 1]
            &&& shrunk ==> nn[index + 1] == (SkylineNode {
                x: node_end(new_node) as u32,
                y: old_nodes[j].y,
                width: (node_end(old_nodes[j]) - node_end(new_node)) as u32,
            })
            &&& nn.len() == index + 1 + old_nodes.len() - j
        }),
{
    let nn = trimmed(old_nodes, index, new_node, j, shrunk);
    let end_x = node_end(new_node);
    let m = SkylineNode {
        x: end_x as u32,
        y: old_nodes[j].y,
        width: (node_end(old_nodes[j]) - end_x) as u32,
    };
    if shrunk && j < old_nodes.len() - 1 {
        lemma_ordered(old_nodes, j, old_nodes.len() - 1);
    }
    assert(nn.len() == index + 1 + old_nodes.len() - j);
    assert(nn[index] == new_node);
    assert forall|a: int| 0 <= a < index implies nn[a] == old_nodes[a] by {}
    if shrunk {
        assert(nn[index + 1] == m);
        assert forall|a: int| index + 1 < a < nn.len() implies nn[a] == old_nodes[a + j - index - 1] by {}
    } else {
        assert forall|a: int| index < a < nn.len() implies nn[a] == old_nodes[a + j - index - 1] by {}
    }
    if j == old_nodes.len() && !shrunk {
        let last = old_nodes.len() - 1;
        assert(node_end(old_nodes[last]) <= end_x);
    }
    assert forall|a: int| 0 <= a < nn.len() - 1 implies (#[trigger] nn[a + 1]).x == node_end(nn[a]) by {
        if a + 1 < index {
            assert(old_nodes[a + 1].x == node_end(old_nodes[a]));
        } else if a + 1 == index {
            assert(old_nodes[a + 1].x == node_end(old_nodes[a]));
        } else if a == index {
        } else if shrunk && a == index + 1 {
            assert(old_nodes[j + 1].x == node_end(old_nodes[j]));
        } else {
            let b = a + j - index - 1;
            assert(old_nodes[b + 1].x == node_end(old_nodes[b]));
        }
    }
    if index == 0 {
        assert(nn[0] == new_node);
    } else {
        assert(nn[0] == old_nodes[0]);
    }
}

proof fn lemma_trim_below(
    old_nodes: Seq<SkylineNode>,
    size: int,
    old_ps: Seq<Placement>,
    index: int,
    new_node: SkylineNode,
    j: int,
    shrunk: bool,
    p: Placement,
)
    requires
        skyline_ok(old_nodes, size, old_ps),
        size <= u32::MAX,
        0 <= index < old_nodes.len(),
        new_node.x == old_nodes[index].x,
        node_end(new_node) <= size,
        trim_done(old_nodes, size, index, new_node, j, shrunk),
        p.x == new_node.x,
        p.width == new_node.width,
        new_node.y == p.y + p.height,
        p.width > 0 ==> is_span_top(old_nodes, index, node_end(new_node), p.y),
    ensures
        skyline_ok(trimmed(old_nodes, index, new_node, j, shrunk), size, old_ps.push(p)),
{
    let nn = trimmed(old_nodes, index, new_node, j, shrunk);
    let ps = old_ps.push(p);
    let end_x = node_end(new_node);
    lemma_trim_contiguous(old_nodes, size, index, new_node, j, shrunk);
    assert forall|a: int, k: int|
        0 <= a < nn.len() && 0 <= k < ps.len() && meets(#[trigger] nn[a], #[trigger] ps[k])
            implies ps[k].y + ps[k].height <= nn[a].y by {
        let q = ps[k];
        if k == old_ps.len() {
            assert(q == p);
            if a < index {
                lemma_ordered(old_nodes, a, index);
                assert(false);
            } else if a > index {
                if a > index + 1 {
                    lemma_ordered(nn, index + 1, a);
                }
                assert(nn[index + 1].x == node_end(nn[index]));
                assert(false);
            }
        } else {
            assert(q == old_ps[k]);
            if a < index {
                assert(meets(old_nodes[a], q));
            } else if a == index {
                let px = if q.x < new_node.x { new_node.x as int } else { q.x as int };
                let c = lemma_cover(old_nodes, index, px);
                assert(meets(old_nodes[c], q));
                assert(old_nodes[c].y <= p.y);
            } else if shrunk && a == index + 1 {
                assert(meets(old_nodes[j], q));
            } else {
                assert(meets(old_nodes[a + j - index - 1], q));
            }
        }
    }
}

/// The rectangle has room in an empty bin of side `size`: upright, or turned
/// where it is not square. A rectangle of width zero is taken at the bottom
/// whatever its height.
pub open spec fn fits_empty_box(rect: Rectangle, size: u32) -> bool {
    ||| (rect.width <= size && (rect.width == 0 || rect.height <= size))
    ||| (rect.width != rect.height && rect.height <= size && (rect.height == 0 || rect.width <= size))
}

/// A candidate `(index, x, y, width, height, rotated)` is strictly lower than
/// another, or as low and strictly further left.
pub open spec fn key_below(c: (usize, u32, u32, u32, u32, bool), b: (usize, u32, u32, u32, u32, bool)) -> bool {
    c.2 < b.2 || (c.2 == b.2 && c.1 < b.1)
}

/// Position `(i1, r1)` comes before `(i2, r2)` in the scan: by segment, and
/// upright before turned on the same segment.
pub open spec fn scan_before(i1: int, r1: bool, i2: int, r2: bool) -> bool {
    i1 < i2 || (i1 == i2 && !r1 && r2)
}

/// The rectangle placed on top of the skyline does not overlap any placement
/// below it.
proof fn lemma_on_top_disjoint(nodes: Seq<SkylineNode>, size: int, ps: Seq<Placement>, index: int, p: Placement)
    requires
        skyline_ok(nodes, size, ps),
        0 <= index < nodes.len(),
        p.x == nodes[index].x,
        p.width > 0,
        p.x + p.width <= size,
        is_span_top(nodes, index, p.x + p.width, p.y),
        forall|k: int| 0 <= k < ps.len() ==> (#[trigger] ps[k]).width > 0,
    ensures
        forall|k: int| 0 <= k < ps.len() ==> !overlaps(#[trigger] ps[k], p) && !overlaps(p, ps[k]),
{
    assert forall|k: int| 0 <= k < ps.len() implies !overlaps(#[trigger] ps[k], p) && !overlaps(p, ps[k]) by {
        let q = ps[k];
        if q.x < p.x + p.width && p.x < q.x + q.width {
            let px = if q.x < p.x { p.x as int } else { q.x as int };
            let c = lemma_cover(nodes, index, px);
            assert(meets(nodes[c], q));
            assert(nodes[c].y <= p.y);
        }
    }
}

/// Where a `width x height` rectangle would go on segment `index`: at the
/// segment's start, on top of the highest segment it spans; `None` where it
/// would stick out of the bin. A rectangle of width zero goes at the bottom.
pub open spec fn fit_in(nodes: Seq<SkylineNode>, size: u32, index: int, width: u32, height: u32) -> Option<(u32, u32)> {
    let x = nodes[index].x;
    if x + width > size {
        None
    } else if width == 0 {
        Some((x, 0u32))
    } else if exists|k: int|
        index <= k < nodes.len() && nodes[k].x < x + width && #[trigger] nodes[k].y + height > size {
        None
    } else {
        Some((x, choose|y: u32| #[trigger] is_span_top(nodes, index, x + width, y)))
    }
}

/// The candidate of segment `index`, upright (`rot == false`) or turned:
/// `(index, x, y, width, height, rotated)`.
pub open spec fn candidate_in(nodes: Seq<SkylineNode>, size: u32, rect: Rectangle, index: int, rot: bool) -> Option<
    (usize, u32, u32, u32, u32, bool),
> {
    if !rot {
        match fit_in(nodes, size, index, rect.width, rect.height) {
            Some((x, y)) => Some((index as usize, x, y, rect.width, rect.height, false)),
            None => None,
        }
    } else if rect.width != rect.height {
        match fit_in(nodes, size, index, rect.height, rect.width) {
            Some((x, y)) => Some((index as usize, x, y, rect.height, rect.width, true)),
            None => None,
        }
    } else {
        None
    }
}

/// Some segment offers the rectangle a place, upright or turned.
pub open spec fn room_in(nodes: Seq<SkylineNode>, size: u32, rect: Rectangle) -> bool {
    exists|i: int, rot: bool| 0 <= i < nodes.len() && (#[trigger] candidate_in(nodes, size, rect, i, rot)) is Some
}

/// `(i, rot)` is the scanned position with the lowest, then leftmost,
/// candidate among those scanned before `(li, lr)`, and the first such.
pub open spec fn first_lowest_in(nodes: Seq<SkylineNode>, size: u32, rect: Rectangle, i: int, rot: bool, li: int, lr: bool) -> bool {
    &&& 0 <= i < nodes.len()
    &&& scan_before(i, rot, li, lr)
    &&& candidate_in(nodes, size, rect, i, rot) is Some
    &&& forall|i2: int, r2: bool|
        #![trigger candidate_in(nodes, size, rect, i2, r2)]
        0 <= i2 < nodes.len() && scan_before(i2, r2, li, lr) && candidate_in(nodes, size, rect, i2, r2) is Some
            ==> !key_below(candidate_in(nodes, size, rect, i2, r2)->0, candidate_in(nodes, size, rect, i, rot)->0)
            && (scan_before(i2, r2, i, rot) ==> key_below(candidate_in(nodes, size, rect, i, rot)->0, candidate_in(nodes, size, rect, i2, r2)->0))
}


/// The segments with each run of neighbours of equal height joined into one.
pub open spec fn merged(s: Seq<SkylineNode>) -> Seq<SkylineNode>
    decreases s.len(),
{
    if s.len() <= 1 {
        s
    } else {
        let m = merged(s.drop_last());
        if m.last().y == s.last().y {
            m.update(
                m.len() - 1,
                SkylineNode { x: m.last().x, y: m.last().y, width: (m.last().width + s.last().width) as u32 },
            )
        } else {
            m.push(s.last())
        }
    }
}

proof fn lemma_merged_extend(input: Seq<SkylineNode>, t: int)
    requires
        1 <= t < input.len(),
    ensures
        merged(input.take(t + 1)) == (if merged(input.take(t)).last().y == input[t].y {
            merged(input.take(t)).update(
                merged(input.take(t)).len() - 1,
                SkylineNode {
                    x: merged(input.take(t)).last().x,
                    y: merged(input.take(t)).last().y,
                    width: (merged(input.take(t)).last().width + input[t].width) as u32,
                },
            )
        } else {
            merged(input.take(t)).push(input[t])
        }),
{
    assert(input.take(t + 1).drop_last() =~= input.take(t));
    assert(input.take(t + 1).last() == input[t]);
}

/// The first segment from `k` on that the trimming stops at: one starting at
/// or after `end_x`, or reaching beyond it.
pub open spec fn trim_stop(nodes: Seq<SkylineNode>, k: int, end_x: int) -> int
    decreases nodes.len() - k,
{
    if k < 0 || k >= nodes.len() {
        nodes.len() as int
    } else if nodes[k].x >= end_x || node_end(nodes[k]) > end_x {
        k
    } else {
        trim_stop(nodes, k + 1, end_x)
    }
}

/// The skyline after `new_node` is laid over it at segment `index`: the
/// segments it covers are removed, the one it partly covers is cut down,
/// and neighbours of equal height are joined.
pub open spec fn level_nodes(nodes: Seq<SkylineNode>, index: int, new_node: SkylineNode) -> Seq<SkylineNode> {
    let end_x = node_end(new_node);
    let j = trim_stop(nodes, index, end_x);
    let shrunk = j < nodes.len() && nodes[j].x < end_x;
    merged(trimmed(nodes, index, new_node, j, shrunk))
}

/// The skyline is well formed and the placements lie below it.
pub closed spec fn state_wf(st: (u32, Seq<SkylineNode>, Seq<Placement>)) -> bool {
    skyline_ok(st.1, st.0 as int, st.2)
}

/// Some segment of the bin offers the rectangle a place, upright or turned.
pub closed spec fn state_has_room(st: (u32, Seq<SkylineNode>, Seq<Placement>), rect: Rectangle) -> bool {
    room_in(st.1, st.0, rect)
}

/// An empty bin of side `size`: one segment of height 0 across it.
pub closed spec fn empty_state(size: u32) -> (u32, Seq<SkylineNode>, Seq<Placement>) {
    (size, seq![SkylineNode { x: 0, y: 0, width: size }], Seq::empty())
}

/// The bin after placing the rectangle: where it has room, at its chosen
/// candidate (lowest, then leftmost, first in scan order), with the skyline
/// raised over it; otherwise unchanged.
pub closed spec fn state_after_place(st: (u32, Seq<SkylineNode>, Seq<Placement>), rect: Rectangle) -> (
    u32,
    Seq<SkylineNode>,
    Seq<Placement>,
) {
    if room_in(st.1, st.0, rect) {
        let (i, rot) = choose|i: int, rot: bool|
            #[trigger] first_lowest_in(st.1, st.0, rect, i, rot, st.1.len() as int, false);
        let c = candidate_in(st.1, st.0, rect, i, rot)->0;
        (
            st.0,
            level_nodes(st.1, c.0 as int, SkylineNode { x: c.1, y: (c.2 + c.4) as u32, width: c.3 }),
            st.2.push(SkylineBin::placement_of(rect, c)),
        )
    } else {
        st
    }
}

/// What the closed state functions stand for.
pub proof fn lemma_reveal_state(st: (u32, Seq<SkylineNode>, Seq<Placement>), rect: Rectangle, size: u32)
    ensures
        state_wf(st) == skyline_ok(st.1, st.0 as int, st.2),
        state_has_room(st, rect) == room_in(st.1, st.0, rect),
        empty_state(size) == (size, seq![SkylineNode { x: 0, y: 0, width: size }], Seq::<Placement>::empty()),
        !room_in(st.1, st.0, rect) ==> state_after_place(st, rect) == st,
        room_in(st.1, st.0, rect) ==> state_after_place(st, rect) == ({
            let (i, rot) = choose|i: int, rot: bool|
                #[trigger] first_lowest_in(st.1, st.0, rect, i, rot, st.1.len() as int, false);
            let c = candidate_in(st.1, st.0, rect, i, rot)->0;
            (
                st.0,
                level_nodes(st.1, c.0 as int, SkylineNode { x: c.1, y: (c.2 + c.4) as u32, width: c.3 }),
                st.2.push(SkylineBin::placement_of(rect, c)),
            )
        }),
{
}

/// At most one position is chosen.
proof fn lemma_chosen_unique(nodes: Seq<SkylineNode>, size: u32, rect: Rectangle, i1: int, r1: bool, i2: int, r2: bool)
    requires
        first_lowest_in(nodes, size, rect, i1, r1, nodes.len() as int, false),
        first_lowest_in(nodes, size, rect, i2, r2, nodes.len() as int, false),
    ensures
        i1 == i2 && r1 == r2,
{
    if !(i1 == i2 && r1 == r2) {
        if scan_before(i1, r1, i2, r2) {
            assert(key_below(candidate_in(nodes, size, rect, i2, r2)->0, candidate_in(nodes, size, rect, i1, r1)->0));
        } else {
            assert(scan_before(i2, r2, i1, r1));
            assert(key_below(candidate_in(nodes, size, rect, i1, r1)->0, candidate_in(nodes, size, rect, i2, r2)->0));
        }
    }
}

impl SkylineBin {
    /// The side of the bin.
    pub closed spec fn spec_size(self) -> u32 {
        self.size
    }

    /// The placements made so far, in order.
    pub closed spec fn spec_placements(self) -> Seq<Placement> {
        self.placements@
    }

    /// The skyline describes the bin: its segments cover the bin's width and
    /// every placement lies below them.
    pub closed spec fn wf(self) -> bool {
        skyline_ok(self.nodes@, self.size as int, self.placements@)
    }

    /// The bin as a value: its side, its skyline segments and its placements.
    pub closed spec fn state(self) -> (u32, Seq<SkylineNode>, Seq<Placement>) {
        (self.size, self.nodes@, self.placements@)
    }

    /// The parts of `state` are the side and the placements.
    pub proof fn lemma_state_parts(self)
        ensures
            self.state().0 == self.spec_size(),
            self.state().2 == self.spec_placements(),
            self.wf() == state_wf(self.state()),
            forall|rect: Rectangle| #[trigger] self.has_room(rect) == state_has_room(self.state(), rect),
    {
    }

    /// The position the bin chooses for a rectangle is its lowest candidate:
    /// no candidate, on any segment and upright or turned, has a lower
    /// bottom edge; none as low lies further left; and among candidates at
    /// the same place the chosen one comes first in scan order (segment by
    /// segment, upright before turned).
    pub proof fn lemma_chosen_is_lowest(self, rect: Rectangle, i: int, rot: bool)
        requires
            self.is_chosen(rect, i, rot),
        ensures
            self.candidate(rect, i, rot) is Some,
            forall|i2: int, r2: bool|
                #![trigger self.candidate(rect, i2, r2)]
                0 <= i2 < self.state().1.len() && self.candidate(rect, i2, r2) is Some ==> {
                    let c = self.candidate(rect, i, rot)->0;
                    let d = self.candidate(rect, i2, r2)->0;
                    ||| c.2 < d.2
                    ||| c.2 == d.2 && c.1 < d.1
                    ||| c.2 == d.2 && c.1 == d.1 && !(i2 < i || (i2 == i && !r2 && rot))
                },
    {
        assert forall|i2: int, r2: bool|
            #![trigger self.candidate(rect, i2, r2)]
            0 <= i2 < self.state().1.len() && self.candidate(rect, i2, r2) is Some implies {
                let c = self.candidate(rect, i, rot)->0;
                let d = self.candidate(rect, i2, r2)->0;
                ||| c.2 < d.2
                ||| c.2 == d.2 && c.1 < d.1
                ||| c.2 == d.2 && c.1 == d.1 && !(i2 < i || (i2 == i && !r2 && rot))
            } by {
            assert(scan_before(i2, r2, self.nodes@.len() as int, false));
            assert(candidate_in(self.nodes@, self.size, rect, i2, r2) is Some);
        }
    }

    /// What the bin's closed specifications stand for, in terms of its state.
    pub proof fn lemma_reveal_bin(self, rect: Rectangle, index: int, rot: bool)
        ensures
            self.candidate(rect, index, rot) == candidate_in(self.state().1, self.state().0, rect, index, rot),
            self.has_room(rect) == room_in(self.state().1, self.state().0, rect),
            self.is_chosen(rect, index, rot) == first_lowest_in(
                self.state().1,
                self.state().0,
                rect,
                index,
                rot,
                self.state().1.len() as int,
                false,
            ),
    {
    }

    /// See `fit_in`.
    closed spec fn fit_spec(self, index: int, width: u32, height: u32) -> Option<(u32, u32)> {
        fit_in(self.nodes@, self.size, index, width, height)
    }

    /// See `candidate_in`.
    pub closed spec fn candidate(self, rect: Rectangle, index: int, rot: bool) -> Option<
        (usize, u32, u32, u32, u32, bool),
    > {
        candidate_in(self.nodes@, self.size, rect, index, rot)
    }

    /// Some segment offers the rectangle a place, upright or turned.
    pub closed spec fn has_room(self, rect: Rectangle) -> bool {
        state_has_room(self.state(), rect)
    }

    /// See `first_lowest_in`.
    closed spec fn is_first_lowest_before(self, rect: Rectangle, i: int, rot: bool, li: int, lr: bool) -> bool {
        first_lowest_in(self.nodes@, self.size, rect, i, rot, li, lr)
    }

    /// `(i, rot)` is where the rectangle goes: the lowest, then leftmost
    /// candidate, the first one in scan order where several tie.
    pub closed spec fn is_chosen(self, rect: Rectangle, i: int, rot: bool) -> bool {
        self.is_first_lowest_before(rect, i, rot, self.nodes@.len() as int, false)
    }

    /// The placement that a candidate describes.
    pub open spec fn placement_of(rect: Rectangle, c: (usize, u32, u32, u32, u32, bool)) -> Placement {
        Placement { rect_id: rect.id, x: c.1, y: c.2, width: c.3, height: c.4, rotated: c.5 }
    }

    /// An empty bin of side `size`: one segment of height 0 across it.
    pub fn new(size: u32) -> (r: Self)
        ensures
            r.wf(),
            r.spec_size() == size,
            r.spec_placements() == Seq::<Placement>::empty(),
            forall|rect: Rectangle| #[trigger] r.has_room(rect) == fits_empty_box(rect, size),
            r.state() == empty_state(size),
    {
        let r = Self { size, nodes: vec![SkylineNode { x: 0, y: 0, width: size }], placements: Vec::new() };
        proof {
            assert(r.nodes@.len() == 1);
            assert forall|rect: Rectangle| #[trigger] r.has_room(rect) == fits_empty_box(rect, size) by {
                if fits_empty_box(rect, size) {
                    if rect.width <= size && (rect.width == 0 || rect.height <= size) {
                        assert(candidate_in(r.nodes@, r.size, rect, 0, false) is Some);
                    } else {
                        assert(candidate_in(r.nodes@, r.size, rect, 0, true) is Some);
                    }
                }
                if r.has_room(rect) {
                    let (i, rot) = choose|i: int, rot: bool|
                        0 <= i < r.nodes@.len() && (#[trigger] candidate_in(r.nodes@, r.size, rect, i, rot)) is Some;
                    assert(i == 0);
                    assert(r.nodes@[0].y == 0 && r.nodes@[0].x == 0);
                    if !rot {
                        assert(r.fit_spec(0, rect.width, rect.height) is Some);
                        if rect.width > 0 {
                            assert(!(r.nodes@[0].y + rect.height > size));
                        }
                    } else {
                        assert(r.fit_spec(0, rect.height, rect.width) is Some);
                        if rect.height > 0 {
                            assert(!(r.nodes@[0].y + rect.width > size));
                        }
                    }
                }
            }
        }
        r
    }

    fn fit_at(&self, index: usize, width: u32, height: u32) -> (r: Option<(u32, u32)>)
        requires
            self.wf(),
            index < self.nodes@.len(),
        ensures
            r == self.fit_spec(index as int, width, height),
            r matches Some((x, y)) ==> width > 0 ==> is_span_top(self.nodes@, index as int, x + width, y),
            r matches Some((x, y)) ==> x + width <= self.size && (width == 0 ==> y == 0) && (width > 0
                ==> y + height <= self.size),
    {
        let ghost nodes = self.nodes@;
        let x = self.nodes[index].x;
        if x as u64 + width as u64 > self.size as u64 {
            return None;
        }
        let n = self.nodes.len();
        let mut width_left = width;
        let mut i = index;
        let mut y: u32 = 0;
        let ghost end_x: int = x + width;
        while width_left > 0
            invariant_except_break
                i == index ==> y == 0,
                i > index ==> exists|k: int| index <= k < i && #[trigger] nodes[k].y == y,
                forall|k: int| index <= k < i ==> #[trigger] nodes[k].y <= y,
                i > index ==> y + height <= self.size,
            invariant
                self.wf(),
                nodes == self.nodes@,
                n == nodes.len(),
                index <= i <= n,
                x == nodes[index as int].x,
                end_x == x + width,
                end_x <= self.size,
                width_left <= width,
                i > index ==> width_left > 0,
                i < n ==> nodes[i as int].x == end_x - width_left,
                i == n ==> self.size == end_x - width_left,
            ensures
                width_left == 0 ==> i == index && y == 0,
                width_left > 0 ==> {
                    &&& index <= i < n
                    &&& node_end(nodes[i as int]) >= end_x
                    &&& nodes[i as int].x < end_x
                    &&& exists|k: int| index <= k <= i && #[trigger] nodes[k].y == y
                    &&& forall|k: int| index <= k <= i ==> #[trigger] nodes[k].y <= y
                    &&& y + height <= self.size
                },
            decreases n - i,
        {
            if i >= n {
                assert(false);
                return None;
            }
            if i > index {
                assert(nodes[i - 1 + 1].x == node_end(nodes[i - 1]));
            }
            let node = self.nodes[i];
            if node.y > y {
                y = node.y;
            }
            if y as u64 + height as u64 > self.size as u64 {
                proof {
                    let ghost kk = if nodes[i as int].y == y { i as int } else {
                        choose|k: int| index <= k < i && #[trigger] nodes[k].y == y
                    };
                    assert(index <= kk < n && nodes[kk].x < x + width && nodes[kk].y + height > self.size) by {
                        if kk < i {
                            lemma_ordered(nodes, kk, i as int);
                        }
                    }
                    assert(self.fit_spec(index as int, width, height) is None);
                }
                return None;
            }
            if node.width >= width_left {
                break;
            }
            width_left = width_left - node.width;
            i = i + 1;
            proof {
                if i < n {
                    assert(nodes[(i - 1) as int + 1].x == node_end(nodes[i - 1]));
                }
            }
        }
        proof {
            if width > 0 {
                assert forall|k: int| index <= k < n && nodes[k].x < end_x implies #[trigger] nodes[k].y <= y by {
                    if k > i {
                        lemma_ordered(nodes, i as int, k);
                    }
                }
                assert forall|k: int| index <= k < n && nodes[k].x < end_x implies !(#[trigger] nodes[k].y
                    + height > self.size) by {
                    if k > i {
                        lemma_ordered(nodes, i as int, k);
                    }
                }
                let kw = choose|k: int| index <= k <= i && #[trigger] nodes[k].y == y;
                if kw < i {
                    lemma_ordered(nodes, kw, i as int);
                }
                assert(index <= kw < n && nodes[kw].x < end_x && nodes[kw].y == y);
                assert(is_span_top(nodes, index as int, end_x, y));
                let yy = choose|yy: u32| #[trigger] is_span_top(nodes, index as int, end_x, yy);
                lemma_span_top_unique(nodes, index as int, end_x, y, yy);
            }
        }
        Some((x, y))
    }

    /// Joins neighbouring segments of equal height.
    #[verifier::rlimit(30)]
    fn merge_equal_height_nodes(&mut self)
        requires
            old(self).wf(),
        ensures
            final(self).wf(),
            final(self).size == old(self).size,
            final(self).placements@ == old(self).placements@,
            final(self).nodes@ == merged(old(self).nodes@),
            forall|k: int|
                0 <= k < final(self).nodes@.len() - 1 ==> (#[trigger] final(self).nodes@[k]).y
                    != final(self).nodes@[k + 1].y,
    {
        let ghost input = self.nodes@;
        let ghost mut t: int = 1;
        let mut i: usize = 0;
        proof {
            assert(input.take(1).len() == 1);
            assert(input =~= input.take(1) + input.skip(1));
        }
        while i + 1 < self.nodes.len()
            invariant
                self.wf(),
                self.size == old(self).size,
                self.placements@ == old(self).placements@,
                i < self.nodes.len(),
                forall|k: int| 0 <= k < i ==> (#[trigger] self.nodes@[k]).y != self.nodes@[k + 1].y,
                1 <= t <= input.len(),
                self.nodes@ == merged(input.take(t)) + input.skip(t),
                merged(input.take(t)).len() == i + 1,
            decreases self.nodes@.len() - i,
        {
            let ghost m = merged(input.take(t));
            proof {
                lemma_merged_extend(input, t);
                assert(self.nodes@[i as int] == m.last());
                assert(self.nodes@[i + 1] == input[t]);
            }
            if self.nodes[i].y == self.nodes[i + 1].y {
                let ghost before = self.nodes@;
                let ghost ps = self.placements@;
                let next_width = self.nodes[i + 1].width;
                proof {
                    assert(before[i as int + 1].x == node_end(before[i as int]));
                    if (i + 2) < before.len() {
                        lemma_ordered(before, i + 1, before.len() - 1);
                    }
                }
                let mut merged_node = self.nodes[i];
                merged_node.width = merged_node.width + next_width;
                self.nodes.set(i, merged_node);
                self.nodes.remove(i + 1);
                proof {
                    lemma_merge_step(before, self.size as int, ps, i as int, merged_node, self.nodes@);
                    t = t + 1;
                    assert(self.nodes@ =~= merged(input.take(t)) + input.skip(t));
                }
            } else {
                i += 1;
                proof {
                    t = t + 1;
                    assert(self.nodes@ =~= merged(input.take(t)) + input.skip(t));
                }
            }
        }
        proof {
            assert(t == input.len());
            assert(input.take(t) =~= input);
            assert(self.nodes@ =~= merged(input));
        }
    }

    /// Puts a `width x height` rectangle at `(x, y)` on segment `index` and
    /// raises the skyline over `[x, x + width)` to its top.
    fn add_level(
        &mut self,
        index: usize,
        rect_id: usize,
        x: u32,
        y: u32,
        width: u32,
        height: u32,
        rotated: bool,
    )
        requires
            old(self).wf(),
            index < old(self).nodes@.len(),
            x == old(self).nodes@[index as int].x,
            x + width <= old(self).size,
            width > 0 ==> is_span_top(old(self).nodes@, index as int, x + width, y) && y + height
                <= old(self).size,
            width == 0 ==> y == 0,
        ensures
            final(self).wf(),
            final(self).size == old(self).size,
            final(self).placements@ == old(self).placements@.push(
                Placement { rect_id, x, y, width, height, rotated },
            ),
            final(self).nodes@ == level_nodes(
                old(self).nodes@,
                index as int,
                SkylineNode { x, y: (y + height) as u32, width },
            ),
    {
        let ghost old_nodes = self.nodes@;
        let ghost old_ps = self.placements@;
        let p = Placement { rect_id, x, y, width, height, rotated };
        self.placements.push(p);
        let new_node = SkylineNode { x, y: y + height, width };
        self.nodes.insert(index, new_node);
        let end_x = x + width;
        let nlen = self.nodes.len();
        assert(nlen == old_nodes.len() + 1);
        let mut i = index + 1;
        let ghost mut j: int = index as int;
        let ghost mut shrunk = false;
        proof {
            assert(self.nodes@ =~= old_nodes.subrange(0, index as int) + seq![new_node] + old_nodes.subrange(j, old_nodes.len() as int));
        }
        while i < self.nodes.len()
            invariant_except_break
                self.nodes@ == old_nodes.subrange(0, index as int) + seq![new_node] + old_nodes.subrange(j, old_nodes.len() as int),
                j < old_nodes.len() ==> old_nodes[j].x <= end_x,
                !shrunk,
            invariant
                i == index + 1,
                index < old_nodes.len(),
                index <= j <= old_nodes.len(),
                end_x == node_end(new_node),
                contiguous(old_nodes),
                old_nodes[index as int].x == x,
                forall|k: int| index <= k < j ==> node_end(#[trigger] old_nodes[k]) <= end_x,
                trim_stop(old_nodes, j, end_x as int) == trim_stop(old_nodes, index as int, end_x as int),
                self.size == old(self).size,
                self.placements@ == old_ps.push(p),
            ensures
                self.nodes@ == trimmed(old_nodes, index as int, new_node, j, shrunk),
                shrunk ==> j < old_nodes.len() && old_nodes[j].x < end_x < node_end(old_nodes[j]),
                !shrunk ==> j == old_nodes.len() || old_nodes[j].x >= end_x,
                !shrunk ==> j < old_nodes.len() ==> old_nodes[j].x <= end_x,
            decreases self.nodes@.len(),
        {
            let prev_end = self.nodes[i - 1].x + self.nodes[i - 1].width;
            let cur = self.nodes[i];
            if cur.x < prev_end {
                let shrink = prev_end - cur.x;
                if cur.width <= shrink {
                    self.nodes.remove(i);
                    proof {
                        if j + 1 < old_nodes.len() {
                            assert(old_nodes[j + 1].x == node_end(old_nodes[j]));
                        }
                        assert(trim_stop(old_nodes, j, end_x as int) == trim_stop(old_nodes, j + 1, end_x as int));
                        j = j + 1;
                        assert(self.nodes@ =~= old_nodes.subrange(0, index as int) + seq![new_node] + old_nodes.subrange(j, old_nodes.len() as int));
                    }
                } else {
                    let mut m = cur;
                    m.x = m.x + shrink;
                    m.width = m.width - shrink;
                    self.nodes.set(i, m);
                    proof {
                        shrunk = true;
                        assert(self.nodes@ =~= trimmed(old_nodes, index as int, new_node, j, shrunk));
                    }
                    break;
                }
            } else {
                break;
            }
        }
        proof {
            if !shrunk && j == index {
                assert(old_nodes[j].x == end_x);
            }
            assert(trim_stop(old_nodes, j, end_x as int) == j);
            assert(shrunk == (j < old_nodes.len() && old_nodes[j].x < end_x));
            lemma_trim_below(old_nodes, self.size as int, old_ps, index as int, new_node, j, shrunk, p);
        }
        self.merge_equal_height_nodes();
    }

    /// The lowest, then leftmost position for the rectangle, upright or
    /// turned, over all segments; the first in scan order among equals.
    #[verifier::rlimit(50)]
    fn find_position(&self, rect: &Rectangle) -> (r: Option<(usize, u32, u32, u32, u32, bool)>)
        requires
            self.wf(),
        ensures
            r is None <==> !self.has_room(*rect),
            r matches Some(c) ==> exists|i: int, rot: bool|
                #[trigger] self.is_chosen(*rect, i, rot) && candidate_in(self.nodes@, self.size, *rect, i, rot) == Some(c),
            r matches Some(c) ==> c.0 < self.nodes@.len() && c.1 == self.nodes@[c.0 as int].x && (c.3 > 0
                ==> is_span_top(self.nodes@, c.0 as int, c.1 + c.3, c.2)),
            r matches Some(c) ==> c.1 + c.3 <= self.size && (c.3 == 0 ==> c.2 == 0) && (c.3 > 0 ==> c.2
                + c.4 <= self.size),
    {
        let mut best: Option<(usize, u32, u32, u32, u32, bool)> = None;
        let n = self.nodes.len();
        let mut i: usize = 0;
        while i < n
            invariant
                self.wf(),
                n == self.nodes@.len(),
                i <= n,
                best is None ==> forall|i2: int, r2: bool|
                    0 <= i2 < i ==> (#[trigger] candidate_in(self.nodes@, self.size, *rect, i2, r2)) is None,
                best matches Some(b) ==> exists|i0: int, r0: bool|
                    #[trigger] first_lowest_in(self.nodes@, self.size, *rect, i0, r0, i as int, false)
                        && candidate_in(self.nodes@, self.size, *rect, i0, r0) == Some(b),
                best matches Some(b) ==> b.0 < n && b.1 == self.nodes@[b.0 as int].x && (b.3 > 0
                    ==> is_span_top(self.nodes@, b.0 as int, b.1 + b.3, b.2)),
                best matches Some(b) ==> b.1 + b.3 <= self.size && (b.3 == 0 ==> b.2 == 0) && (b.3 > 0
                    ==> b.2 + b.4 <= self.size),
            decreases n - i,
        {
            let ghost prev = best;
            if let Some((x, y)) = self.fit_at(i, rect.width, rect.height) {
                let candidate = (i, x, y, rect.width, rect.height, false);
                assert(candidate_in(self.nodes@, self.size, *rect, i as int, false) == Some(candidate));
                if is_better(candidate, best) {
                    best = Some(candidate);
                }
            }
            proof {
                match best {
                    None => {
                        assert forall|i2: int, r2: bool| scan_before(i2, r2, i as int, true) && 0 <= i2
                            implies (#[trigger] candidate_in(self.nodes@, self.size, *rect, i2, r2)) is None by {
                            if i2 < i {
                                assert(candidate_in(self.nodes@, self.size, *rect, i2, r2) is None);
                            }
                        }
                    },
                    Some(b) => {
                        if prev is None {
                            assert(first_lowest_in(self.nodes@, self.size, *rect, i as int, false, i as int, true));
                        } else if prev == Some(b) {
                            let (i0, r0) = choose|i0: int, r0: bool|
                                #[trigger] first_lowest_in(self.nodes@, self.size, *rect, i0, r0, i as int, false)
                                    && candidate_in(self.nodes@, self.size, *rect, i0, r0) == Some(b);
                            assert(first_lowest_in(self.nodes@, self.size, *rect, i0, r0, i as int, true));
                        } else {
                            let pb = prev->0;
                            let (i0, r0) = choose|i0: int, r0: bool|
                                #[trigger] first_lowest_in(self.nodes@, self.size, *rect, i0, r0, i as int, false)
                                    && candidate_in(self.nodes@, self.size, *rect, i0, r0) == Some(pb);
                            assert(first_lowest_in(self.nodes@, self.size, *rect, i as int, false, i as int, true));
                        }
                    },
                }
            }
            let ghost mid = best;
            if rect.width != rect.height {
                if let Some((x, y)) = self.fit_at(i, rect.height, rect.width) {
                    let candidate = (i, x, y, rect.height, rect.width, true);
                    assert(candidate_in(self.nodes@, self.size, *rect, i as int, true) == Some(candidate));
                    if is_better(candidate, best) {
                        best = Some(candidate);
                    }
                }
            }
            proof {
                assert(candidate_in(self.nodes@, self.size, *rect, i as int, true) is Some ==> rect.width != rect.height);
                match best {
                    None => {
                        assert forall|i2: int, r2: bool| 0 <= i2 < i + 1
                            implies (#[trigger] candidate_in(self.nodes@, self.size, *rect, i2, r2)) is None by {
                            if !scan_before(i2, r2, i as int, true) {
                                assert(i2 == i && r2);
                            }
                        }
                    },
                    Some(b) => {
                        if mid is None {
                            assert(first_lowest_in(self.nodes@, self.size, *rect, i as int, true, i + 1, false));
                        } else if mid == Some(b) {
                            let (i0, r0) = choose|i0: int, r0: bool|
                                #[trigger] first_lowest_in(self.nodes@, self.size, *rect, i0, r0, i as int, true)
                                    && candidate_in(self.nodes@, self.size, *rect, i0, r0) == Some(b);
                            assert(first_lowest_in(self.nodes@, self.size, *rect, i0, r0, i + 1, false));
                        } else {
                            let pb = mid->0;
                            let (i0, r0) = choose|i0: int, r0: bool|
                                #[trigger] first_lowest_in(self.nodes@, self.size, *rect, i0, r0, i as int, true)
                                    && candidate_in(self.nodes@, self.size, *rect, i0, r0) == Some(pb);
                            assert(first_lowest_in(self.nodes@, self.size, *rect, i as int, true, i + 1, false));
                        }
                    },
                }
            }
            i += 1;
        }
        proof {
            if best is None {
                assert(!self.has_room(*rect));
            } else {
                let b = best->0;
                let (i0, r0) = choose|i0: int, r0: bool|
                    #[trigger] first_lowest_in(self.nodes@, self.size, *rect, i0, r0, n as int, false)
                        && candidate_in(self.nodes@, self.size, *rect, i0, r0) == Some(b);
                assert(self.is_chosen(*rect, i0, r0));
                assert(self.has_room(*rect));
            }
        }
        best
    }

    /// Places the rectangle at its chosen position on top of the skyline, if
    /// it has one, and raises the skyline there.
    pub fn place(&mut self, rect: &Rectangle) -> (r: bool)
        requires
            old(self).wf(),
        ensures
            final(self).wf(),
            final(self).spec_size() == old(self).spec_size(),
            r == old(self).has_room(*rect),
            final(self).state() == state_after_place(old(self).state(), *rect),
            r ==> exists|i: int, rot: bool|
                #[trigger] old(self).is_chosen(*rect, i, rot) && final(self).spec_placements()
                    == old(self).spec_placements().push(
                    Self::placement_of(*rect, old(self).candidate(*rect, i, rot)->0),
                ),
            !r ==> final(self).spec_placements() == old(self).spec_placements(),
            !r ==> *final(self) == *old(self),
            r ==> fits_empty_box(*rect, old(self).spec_size()),
            r ==> final(self).spec_placements().len() == old(self).spec_placements().len() + 1
                && final(self).spec_placements().drop_last() == old(self).spec_placements()
                && places_rect(final(self).spec_placements().last(), *rect),
            valid_placements(old(self).spec_placements(), old(self).spec_size() as int) && rect.width > 0
                && rect.height > 0 ==> valid_placements(final(self).spec_placements(), final(self).spec_size() as int),
            r ==> exists|i: int, rot: bool|
                {
                    &&& #[trigger] old(self).candidate(*rect, i, rot) is Some
                    &&& final(self).spec_placements() == old(self).spec_placements().push(
                        Self::placement_of(*rect, old(self).candidate(*rect, i, rot)->0),
                    )
                    &&& forall|i2: int, r2: bool|
                        #![trigger old(self).candidate(*rect, i2, r2)]
                        0 <= i2 < old(self).state().1.len() && old(self).candidate(*rect, i2, r2) is Some ==> {
                            let c = old(self).candidate(*rect, i, rot)->0;
                            let d = old(self).candidate(*rect, i2, r2)->0;
                            ||| c.2 < d.2
                            ||| c.2 == d.2 && c.1 < d.1
                            ||| c.2 == d.2 && c.1 == d.1 && !(i2 < i || (i2 == i && !r2 && rot))
                        }
                },
    {
        if let Some((index, x, y, width, height, rotated)) = self.find_position(rect) {
            let ghost c = (index, x, y, width, height, rotated);
            proof {
                let (i0, r0) = choose|i: int, rot: bool|
                    #[trigger] self.is_chosen(*rect, i, rot) && candidate_in(self.nodes@, self.size, *rect, i, rot) == Some(c);
            }
            let ghost old_self = *self;
            let ghost p = Placement { rect_id: rect.id, x, y, width, height, rotated };
            proof {
                let (i0, r0) = choose|i: int, rot: bool|
                    #[trigger] self.is_chosen(*rect, i, rot) && candidate_in(self.nodes@, self.size, *rect, i, rot) == Some(c);
                let (i1, r1) = choose|i: int, rot: bool|
                    #[trigger] first_lowest_in(self.nodes@, self.size, *rect, i, rot, self.nodes@.len() as int, false);
                lemma_chosen_unique(self.nodes@, self.size, *rect, i0, r0, i1, r1);
            }
            proof {
                if valid_placements(self.placements@, self.size as int) && rect.width > 0 && rect.height > 0 {
                    assert(width > 0 && height > 0);
                    let k = choose|k: int|
                        index <= k < self.nodes@.len() && self.nodes@[k].x < x + width && #[trigger] self.nodes@[k].y == y;
                    lemma_on_top_disjoint(self.nodes@, self.size as int, self.placements@, index as int, p);
                }
            }
            self.add_level(index, rect.id, x, y, width, height, rotated);
            proof {
                let (i0, r0) = choose|i: int, rot: bool|
                    #[trigger] old_self.is_chosen(*rect, i, rot) && candidate_in(old_self.nodes@, old_self.size, *rect, i, rot) == Some(c);
                old_self.lemma_chosen_is_lowest(*rect, i0, r0);
                assert(old_self.candidate(*rect, i0, r0) is Some);
            }
            proof {
                let ps = self.placements@;
                if valid_placements(old_self.placements@, old_self.size as int) && rect.width > 0 && rect.height > 0 {
                    assert forall|a: int, b: int| 0 <= a < ps.len() && 0 <= b < ps.len() && a != b
                        implies !overlaps(#[trigger] ps[a], #[trigger] ps[b]) by {
                        if a < ps.len() - 1 && b < ps.len() - 1 {
                            assert(ps[a] == old_self.placements@[a]);
                            assert(ps[b] == old_self.placements@[b]);
                        }
                    }
                }
            }
            true
        } else {
            false
        }
    }

    /// Turns the bin into a plain `Bin` with the given identifier.
    pub fn into_bin(self, id: usize) -> (r: Bin)
        ensures
            r.id == id,
            r.size == self.spec_size(),
            r.placements@ == self.spec_placements(),
    {
        Bin { id, size: self.size, placements: self.placements }
    }
}

/// Whether `candidate` is to be preferred over the best so far: there is none,
/// or it lies strictly lower, or as low and strictly further left.
fn is_better(
    candidate: (usize, u32, u32, u32, u32, bool),
    current_best: Option<(usize, u32, u32, u32, u32, bool)>,
) -> (r: bool)
    ensures
        r == match current_best {
            None => true,
            Some(b) => key_below(candidate, b),
        },
{
    match current_best {
        None => true,
        Some(best) => {
            let (_, cand_x, cand_y, _, _, _) = candidate;
            let (_, best_x, best_y, _, _, _) = best;
            cand_y < best_y || (cand_y == best_y && cand_x < best_x)
        },
    }
}

} // verus!
