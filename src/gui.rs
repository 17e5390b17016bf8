//! A button of a drawable screen.
use vstd::prelude::*;

verus! {

pub struct Button {
    pub width: u32,
    pub height: u32,
    pub label: String,
}

impl Button {
    pub fn new(height: u32, width: u32, label: String) -> (r: Button)
        ensures
            r.height == height,
            r.width == width,
            r.label@ == label@,
    {
        Button { height, width, label }
    }
}

} // verus!
