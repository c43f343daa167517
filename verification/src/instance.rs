use vstd::prelude::*;

use crate::rectangle::Rectangle;

verus! {

/// A packing task: the rectangles and the side of the square boxes.
#[derive(Debug)]
pub struct Instance {
    pub rectangles: Vec<Rectangle>,
    pub box_size: u32,
}

impl Clone for Instance {
    fn clone(&self) -> (r: Self)
        ensures
            r.rectangles@ == self.rectangles@,
            r.box_size == self.box_size,
    {
        let r = Instance { rectangles: self.rectangles.clone(), box_size: self.box_size };
        proof {
            assert(r.rectangles@ =~= self.rectangles@);
        }
        r
    }
}

} // verus!
