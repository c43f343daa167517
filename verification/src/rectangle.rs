use vstd::prelude::*;

verus! {

/// An input rectangle with an identifier and integer dimensions.
#[derive(Debug, Clone, Copy)]
pub struct Rectangle {
    pub id: usize,
    pub width: u32,
    pub height: u32,
}

impl Rectangle {
    /// The area of the rectangle, as a mathematical integer.
    pub open spec fn spec_area(self) -> int {
        self.width * self.height
    }

    /// Width times height.
    pub fn area(&self) -> (r: u32)
        requires
            self.spec_area() <= u32::MAX,
        ensures
            r == self.spec_area(),
    {
        self.width * self.height
    }
}

} // verus!
