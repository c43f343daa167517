use vstd::prelude::*;

use crate::rectangle::Rectangle;

verus! {

/// Where a rectangle stands inside a bin: its lower-left corner, the
/// dimensions it occupies and whether it was turned by 90 degrees.
#[derive(Debug, Clone, Copy)]
pub struct Placement {
    pub rect_id: usize,
    pub x: u32,
    pub y: u32,
    pub width: u32,
    pub height: u32,
    pub rotated: bool,
}

/// A square box of side `size` with the rectangles placed in it.
#[derive(Debug)]
pub struct Bin {
    pub id: usize,
    pub size: u32,
    pub placements: Vec<Placement>,
}

impl Clone for Bin {
    fn clone(&self) -> (r: Self)
        ensures
            r.id == self.id,
            r.size == self.size,
            r.placements@ == self.placements@,
    {
        Bin { id: self.id, size: self.size, placements: self.placements.clone() }
    }
}

/// Two placements share a region of positive area, or touch in the way the
/// half-open comparison below counts as a conflict.
pub open spec fn overlaps(a: Placement, b: Placement) -> bool {
    !(a.x + a.width <= b.x || b.x + b.width <= a.x || a.y + a.height <= b.y || b.y + b.height
        <= a.y)
}

/// The placement that a candidate position describes (never rotated).
pub open spec fn probe(rect_id: usize, x: u32, y: u32, width: u32, height: u32) -> Placement {
    Placement { rect_id, x, y, width, height, rotated: false }
}

/// The placement lies within the square `[0, size) x [0, size)`.
pub open spec fn inside(p: Placement, size: int) -> bool {
    p.x + p.width <= size && p.y + p.height <= size
}

/// No placement of `ps` overlaps `c`.
pub open spec fn free_for(ps: Seq<Placement>, c: Placement) -> bool {
    forall|i: int| 0 <= i < ps.len() ==> !overlaps(#[trigger] ps[i], c)
}

/// No placement of `ps` with another identifier than `c` overlaps `c`.
pub open spec fn free_for_ignoring(ps: Seq<Placement>, c: Placement) -> bool {
    forall|i: int|
        0 <= i < ps.len() && (#[trigger] ps[i]).rect_id != c.rect_id ==> !overlaps(ps[i], c)
}

/// `i` is the first index of `ps` whose placement carries identifier `id`.
pub open spec fn is_first_with_id(ps: Seq<Placement>, id: usize, i: int) -> bool {
    &&& 0 <= i < ps.len()
    &&& ps[i].rect_id == id
    &&& forall|j: int| 0 <= j < i ==> (#[trigger] ps[j]).rect_id != id
}

/// The first index of `ps` whose placement carries identifier `id`.
pub open spec fn first_index_of_id(ps: Seq<Placement>, id: usize) -> int {
    choose|i: int| is_first_with_id(ps, id, i)
}

/// There is only one first index.
pub proof fn lemma_first_index_unique(ps: Seq<Placement>, id: usize, i: int)
    requires
        is_first_with_id(ps, id, i),
    ensures
        first_index_of_id(ps, id) == i,
{
    let j = first_index_of_id(ps, id);
    assert(is_first_with_id(ps, id, j));
    if j < i {
        assert(ps[j].rect_id != id);
    } else if i < j {
        assert(ps[i].rect_id != id);
    }
}

/// A `width x height` rectangle carrying `rect_id` fits at `(x, y)` in a bin
/// of side `size` holding `ps`, disregarding the placements carrying
/// `rect_id`.
pub open spec fn fits_ignoring(ps: Seq<Placement>, size: u32, width: u32, height: u32, x: u32, y: u32, rect_id: usize) -> bool {
    &&& inside(probe(rect_id, x, y, width, height), size as int)
    &&& free_for_ignoring(ps, probe(rect_id, x, y, width, height))
}

/// Some placement of `ps` carries identifier `id`.
pub open spec fn has_id(ps: Seq<Placement>, id: usize) -> bool {
    exists|i: int| 0 <= i < ps.len() && (#[trigger] ps[i]).rect_id == id
}

/// No two placements of `ps` overlap.
pub open spec fn pairwise_disjoint(ps: Seq<Placement>) -> bool {
    forall|i: int, j: int|
        0 <= i < ps.len() && 0 <= j < ps.len() && i != j ==> !overlaps(#[trigger] ps[i], #[trigger] ps[j])
}

/// Every placement of `ps` lies within the square of side `size`.
pub open spec fn all_inside(ps: Seq<Placement>, size: int) -> bool {
    forall|i: int| 0 <= i < ps.len() ==> inside(#[trigger] ps[i], size)
}

/// Every placement of `ps` has positive width and height.
pub open spec fn all_positive(ps: Seq<Placement>) -> bool {
    forall|i: int| 0 <= i < ps.len() ==> (#[trigger] ps[i]).width > 0 && ps[i].height > 0
}

/// A proper packing of one bin: rectangles of positive size, each inside the
/// bin, none overlapping another.
pub open spec fn valid_placements(ps: Seq<Placement>, size: int) -> bool {
    &&& pairwise_disjoint(ps)
    &&& all_inside(ps, size)
    &&& all_positive(ps)
}

/// `p` places `rect`: same identifier, and its dimensions, turned where
/// `p.rotated` says so.
pub open spec fn places_rect(p: Placement, rect: Rectangle) -> bool {
    &&& p.rect_id == rect.id
    &&& !p.rotated ==> p.width == rect.width && p.height == rect.height
    &&& p.rotated ==> p.width == rect.height && p.height == rect.width
}

/// Whether the two placements overlap (see `overlaps`); computed without
/// overflow.
fn overlap(a: &Placement, b: &Placement) -> (r: bool)
    ensures
        r == overlaps(*a, *b),
{
    !((a.x as u64) + (a.width as u64) <= b.x as u64 || (b.x as u64) + (b.width as u64)
        <= a.x as u64 || (a.y as u64) + (a.height as u64) <= b.y as u64 || (b.y as u64) + (
    b.height as u64) <= a.y as u64)
}

impl Bin {
    /// A `width x height` rectangle fits at `(x, y)`: inside the bin and
    /// overlapping none of its placements.
    pub open spec fn fits_at(self, width: u32, height: u32, x: u32, y: u32) -> bool {
        &&& inside(probe(0, x, y, width, height), self.size as int)
        &&& free_for(self.placements@, probe(0, x, y, width, height))
    }

    /// As `fits_at`, but placements carrying `rect_id` are not counted.
    pub open spec fn fits_at_ignoring(
        self,
        width: u32,
        height: u32,
        x: u32,
        y: u32,
        rect_id: usize,
    ) -> bool {
        fits_ignoring(self.placements@, self.size, width, height, x, y, rect_id)
    }

    /// The rectangle can stand at `(x, y)` as given, or turned where it is not square.
    pub open spec fn placeable_at(self, rect: Rectangle, x: u32, y: u32) -> bool {
        ||| self.fits_at(rect.width, rect.height, x, y)
        ||| (rect.width != rect.height && self.fits_at(rect.height, rect.width, x, y))
    }

    /// `(x, y)` is the first cell, column by column and bottom to top within a
    /// column, at which the rectangle can stand.
    pub open spec fn is_first_fit(self, rect: Rectangle, x: u32, y: u32) -> bool {
        &&& x < self.size
        &&& y < self.size
        &&& self.placeable_at(rect, x, y)
        &&& forall|x2: u32, y2: u32|
            #![trigger self.placeable_at(rect, x2, y2)]
            x2 < self.size && y2 < self.size && (x2 < x || (x2 == x && y2 < y))
                ==> !self.placeable_at(rect, x2, y2)
    }

    /// First fit scans column by column: the cell it chooses can hold the
    /// rectangle, and every cell of the bin that can hold it lies in a later
    /// column, or in the same column no lower.
    pub proof fn lemma_first_fit_is_column_major(self, rect: Rectangle, x: u32, y: u32)
        requires
            self.is_first_fit(rect, x, y),
        ensures
            x < self.size && y < self.size,
            self.placeable_at(rect, x, y),
            forall|x2: u32, y2: u32|
                #![trigger self.placeable_at(rect, x2, y2)]
                x2 < self.size && y2 < self.size && self.placeable_at(rect, x2, y2) ==> x < x2 || (x == x2 && y <= y2),
    {
    }

    /// The placement that first fit makes at `(x, y)`: upright where that fits,
    /// otherwise turned.
    pub open spec fn first_fit_placement(self, rect: Rectangle, x: u32, y: u32) -> Placement {
        if self.fits_at(rect.width, rect.height, x, y) {
            Placement { rect_id: rect.id, x, y, width: rect.width, height: rect.height, rotated: false }
        } else {
            Placement { rect_id: rect.id, x, y, width: rect.height, height: rect.width, rotated: true }
        }
    }

    /// Whether a `width x height` rectangle fits at `(x, y)`.
    pub fn can_place_dimensions(&self, width: u32, height: u32, x: u32, y: u32, rect_id: usize) -> (r: bool)
        ensures
            r == self.fits_at(width, height, x, y),
    {
        if (x as u64) + (width as u64) > self.size as u64 || (y as u64) + (height as u64)
            > self.size as u64 {
            return false;
        }
        let new_placement = Placement { rect_id, x, y, width, height, rotated: false };
        let n = self.placements.len();
        let mut i: usize = 0;
        while i < n
            invariant
                n == self.placements.len(),
                i <= n,
                new_placement == probe(rect_id, x, y, width, height),
                forall|j: int| 0 <= j < i ==> !overlaps(#[trigger] self.placements@[j], new_placement),
            decreases n - i,
        {
            if overlap(&self.placements[i], &new_placement) {
                return false;
            }
            i += 1;
        }
        true
    }

    /// Whether a `width x height` rectangle fits at `(x, y)` when the
    /// placements carrying `rect_id` are disregarded.
    pub fn can_place_dimensions_ignoring(
        &self,
        width: u32,
        height: u32,
        x: u32,
        y: u32,
        rect_id: usize,
    ) -> (r: bool)
        ensures
            r == self.fits_at_ignoring(width, height, x, y, rect_id),
    {
        if (x as u64) + (width as u64) > self.size as u64 || (y as u64) + (height as u64)
            > self.size as u64 {
            return false;
        }
        let new_placement = Placement { rect_id, x, y, width, height, rotated: false };
        let n = self.placements.len();
        let mut i: usize = 0;
        while i < n
            invariant
                n == self.placements.len(),
                i <= n,
                new_placement == probe(rect_id, x, y, width, height),
                forall|j: int|
                    0 <= j < i && (#[trigger] self.placements@[j]).rect_id != rect_id
                        ==> !overlaps(self.placements@[j], new_placement),
            decreases n - i,
        {
            if self.placements[i].rect_id != rect_id {
                if overlap(&self.placements[i], &new_placement) {
                    return false;
                }
            }
            i += 1;
        }
        true
    }

    /// Appends a placement, without any check.
    pub fn place_dimensions(
        &mut self,
        rect_id: usize,
        width: u32,
        height: u32,
        x: u32,
        y: u32,
        rotated: bool,
    )
        ensures
            final(self).id == old(self).id,
            final(self).size == old(self).size,
            final(self).placements@ == old(self).placements@.push(
                Placement { rect_id, x, y, width, height, rotated },
            ),
    {
        self.placements.push(Placement { rect_id, x, y, width, height, rotated });
    }

    /// Scans the cells column by column (x outer, y inner) and places the
    /// rectangle at the first one where it fits, upright before turned.
    pub fn try_place_first_fit(&mut self, rect: &Rectangle) -> (r: bool)
        ensures
            final(self).id == old(self).id,
            final(self).size == old(self).size,
            r == exists|x: u32, y: u32|
                x < old(self).size && y < old(self).size && #[trigger] old(self).placeable_at(
                    *rect,
                    x,
                    y,
                ),
            r ==> exists|x: u32, y: u32|
                #[trigger] old(self).is_first_fit(*rect, x, y) && final(self).placements@ == old(
                    self,
                ).placements@.push(old(self).first_fit_placement(*rect, x, y)),
            r ==> {
                let p = final(self).placements@.last();
                &&& old(self).placeable_at(*rect, p.x, p.y)
                &&& forall|x2: u32, y2: u32|
                    #![trigger old(self).placeable_at(*rect, x2, y2)]
                    x2 < old(self).size && y2 < old(self).size && old(self).placeable_at(*rect, x2, y2) ==> p.x < x2 || (
                    p.x == x2 && p.y <= y2)
            },
            !r ==> final(self).placements@ == old(self).placements@,
            r ==> final(self).placements@.len() == old(self).placements@.len() + 1 && places_rect(
                final(self).placements@.last(),
                *rect,
            ),
            valid_placements(old(self).placements@, old(self).size as int) && rect.width > 0 && rect.height > 0
                ==> valid_placements(final(self).placements@, final(self).size as int),
    {
        let size = self.size;
        let mut x: u32 = 0;
        while x < size
            invariant
                *self == *old(self),
                size == self.size,
                x <= size,
                forall|x2: u32, y2: u32|
                    x2 < x && y2 < size ==> !(#[trigger] self.placeable_at(*rect, x2, y2)),
            decreases size - x,
        {
            let mut y: u32 = 0;
            while y < size
                invariant
                    *self == *old(self),
                    size == self.size,
                    x < size,
                    y <= size,
                    forall|x2: u32, y2: u32|
                        x2 < x && y2 < size ==> !(#[trigger] self.placeable_at(*rect, x2, y2)),
                    forall|y2: u32| y2 < y ==> !(#[trigger] self.placeable_at(*rect, x, y2)),
                decreases size - y,
            {
                if self.can_place_dimensions(rect.width, rect.height, x, y, rect.id) {
                    proof {
                        assert(self.is_first_fit(*rect, x, y));
                        lemma_fits_push(self.placements@, Placement { rect_id: rect.id, x, y, width: rect.width, height: rect.height, rotated: false }, self.size as int);
                    }
                    self.place_dimensions(rect.id, rect.width, rect.height, x, y, false);
                    return true;
                }
                if rect.width != rect.height && self.can_place_dimensions(
                    rect.height,
                    rect.width,
                    x,
                    y,
                    rect.id,
                ) {
                    proof {
                        assert(self.is_first_fit(*rect, x, y));
                        lemma_fits_push(self.placements@, Placement { rect_id: rect.id, x, y, width: rect.height, height: rect.width, rotated: true }, self.size as int);
                    }
                    self.place_dimensions(rect.id, rect.height, rect.width, x, y, true);
                    return true;
                }
                y += 1;
            }
            x += 1;
        }
        false
    }

    /// Removes the first placement carrying `rect_id` and hands it back.
    pub fn remove_placement_by_rect_id(&mut self, rect_id: usize) -> (r: Option<Placement>)
        ensures
            final(self).id == old(self).id,
            final(self).size == old(self).size,
            r is None <==> !has_id(old(self).placements@, rect_id),
            r is None ==> final(self).placements@ == old(self).placements@,
            r matches Some(p) ==> exists|i: int|
                #[trigger] is_first_with_id(old(self).placements@, rect_id, i) && p == old(
                    self,
                ).placements@[i] && final(self).placements@ == old(self).placements@.remove(i),
    {
        let n = self.placements.len();
        let mut i: usize = 0;
        while i < n
            invariant
                n == self.placements.len(),
                *self == *old(self),
                i <= n,
                forall|j: int| 0 <= j < i ==> (#[trigger] self.placements@[j]).rect_id != rect_id,
            decreases n - i,
        {
            if self.placements[i].rect_id == rect_id {
                let p = self.placements.remove(i);
                proof {
                    assert(is_first_with_id(old(self).placements@, rect_id, i as int));
                }
                return Some(p);
            }
            i += 1;
        }
        None
    }

    /// The first placement carrying `rect_id`, if any.
    pub fn get_placement_by_rect_id(&self, rect_id: usize) -> (r: Option<&Placement>)
        ensures
            r is None <==> !has_id(self.placements@, rect_id),
            r matches Some(p) ==> exists|i: int|
                #[trigger] is_first_with_id(self.placements@, rect_id, i) && *p
                    == self.placements@[i],
    {
        let n = self.placements.len();
        let mut i: usize = 0;
        while i < n
            invariant
                n == self.placements.len(),
                i <= n,
                forall|j: int| 0 <= j < i ==> (#[trigger] self.placements@[j]).rect_id != rect_id,
            decreases n - i,
        {
            if self.placements[i].rect_id == rect_id {
                proof {
                    assert(is_first_with_id(self.placements@, rect_id, i as int));
                }
                return Some(&self.placements[i]);
            }
            i += 1;
        }
        None
    }

    /// The bin holds no placement.
    pub fn is_empty(&self) -> (r: bool)
        ensures
            r == (self.placements@.len() == 0),
    {
        self.placements.len() == 0
    }
}

/// Adding a placement of positive size that lies inside and overlaps none of
/// the others keeps a proper packing proper.
pub proof fn lemma_push_valid(ps: Seq<Placement>, p: Placement, size: int)
    requires
        valid_placements(ps, size),
        inside(p, size),
        p.width > 0,
        p.height > 0,
        forall|k: int| 0 <= k < ps.len() ==> !overlaps(#[trigger] ps[k], p),
    ensures
        valid_placements(ps.push(p), size),
{
    let q = ps.push(p);
    assert forall|a: int, b: int| 0 <= a < q.len() && 0 <= b < q.len() && a != b implies !overlaps(
        #[trigger] q[a],
        #[trigger] q[b],
    ) by {
        if a == ps.len() {
            assert(!overlaps(ps[b], p));
        } else if b == ps.len() {
            assert(!overlaps(ps[a], p));
        } else {
            assert(q[a] == ps[a]);
            assert(q[b] == ps[b]);
        }
    }
    assert forall|a: int| 0 <= a < q.len() implies inside(#[trigger] q[a], size) && q[a].width > 0
        && q[a].height > 0 by {
        if a < ps.len() {
            assert(q[a] == ps[a]);
        }
    }
}

/// A placement that lies inside and is free of the others, added to a proper
/// packing, keeps it proper where it has positive size.
proof fn lemma_fits_push(ps: Seq<Placement>, p: Placement, size: int)
    requires
        inside(probe(0, p.x, p.y, p.width, p.height), size),
        free_for(ps, probe(0, p.x, p.y, p.width, p.height)),
    ensures
        valid_placements(ps, size) && p.width > 0 && p.height > 0 ==> valid_placements(ps.push(p), size),
{
    if valid_placements(ps, size) && p.width > 0 && p.height > 0 {
        assert forall|k: int| 0 <= k < ps.len() implies !overlaps(#[trigger] ps[k], p) by {
            assert(!overlaps(ps[k], probe(0, p.x, p.y, p.width, p.height)));
        }
        lemma_push_valid(ps, p, size);
    }
}

} // verus!
