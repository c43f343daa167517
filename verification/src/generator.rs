use vstd::prelude::*;

use crate::instance::Instance;
use crate::random::{gen_inclusive, thread_rng};
use crate::rectangle::Rectangle;

verus! {

/// A random instance: `count` rectangles numbered `0, 1, ...`, each with a
/// width drawn from `min_w..=max_w` and then a height from `min_h..=max_h`,
/// to be packed into boxes of side `box_size`.
pub fn generate_instance(count: usize, min_w: u32, max_w: u32, min_h: u32, max_h: u32, box_size: u32) -> (r: Instance)
    requires
        count > 0 ==> min_w <= max_w && min_h <= max_h,
    ensures
        r.box_size == box_size,
        r.rectangles@.len() == count,
        forall|i: int|
            0 <= i < count ==> (#[trigger] r.rectangles@[i]).id == i && min_w <= r.rectangles@[i].width <= max_w && min_h
                <= r.rectangles@[i].height <= max_h,
{
    let mut rng = thread_rng();
    let mut rectangles: Vec<Rectangle> = Vec::new();
    let mut id: usize = 0;
    while id < count
        invariant
            id <= count,
            count > 0 ==> min_w <= max_w && min_h <= max_h,
            rectangles@.len() == id,
            forall|i: int|
                0 <= i < id ==> (#[trigger] rectangles@[i]).id == i && min_w <= rectangles@[i].width <= max_w && min_h
                    <= rectangles@[i].height <= max_h,
        decreases count - id,
    {
        let width = gen_inclusive(&mut rng, min_w, max_w);
        let height = gen_inclusive(&mut rng, min_h, max_h);
        rectangles.push(Rectangle { id, width, height });
        id += 1;
    }
    Instance { box_size, rectangles }
}

} // verus!
