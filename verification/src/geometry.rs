//! Points and rectangles on the canvas.

use vstd::prelude::*;
use vstd::std_specs::ops::AddSpecImpl;
use vstd::std_specs::ops::SubSpecImpl;

verus! {

/// A point of the canvas, from its top left corner.
#[derive(Clone, Copy, Debug, PartialEq, Eq, Structural)]
pub struct Point {
    pub x: u32,
    pub y: u32,
}

impl Point {
    /// How far `self` lies below `o`: negative where it lies above.
    pub fn y_diff(&self, o: &Point) -> (result: i64)
        ensures
            result == self.y - o.y,
    {
        (self.y as i64) - (o.y as i64)
    }
}

impl core::ops::Add for Point {
    type Output = Point;

    /// The point moved right and down by `other`.
    fn add(self, other: Point) -> (result: Point) {
        Point { x: self.x + other.x, y: self.y + other.y }
    }
}

impl AddSpecImpl for Point {
    open spec fn obeys_add_spec() -> bool {
        true
    }

    open spec fn add_req(self, other: Point) -> bool {
        self.x + other.x <= u32::MAX && self.y + other.y <= u32::MAX
    }

    open spec fn add_spec(self, other: Point) -> Point {
        Point { x: (self.x + other.x) as u32, y: (self.y + other.y) as u32 }
    }
}

impl core::ops::Sub for Point {
    type Output = Point;

    /// The point moved left and up by `other`.
    fn sub(self, other: Point) -> (result: Point) {
        Point { x: self.x - other.x, y: self.y - other.y }
    }
}

impl SubSpecImpl for Point {
    open spec fn obeys_sub_spec() -> bool {
        true
    }

    open spec fn sub_req(self, other: Point) -> bool {
        self.x >= other.x && self.y >= other.y
    }

    open spec fn sub_spec(self, other: Point) -> Point {
        Point { x: (self.x - other.x) as u32, y: (self.y - other.y) as u32 }
    }
}

/// A node's box: its size and where its top left corner lies.
#[derive(Clone, Copy, Debug, PartialEq, Eq, Structural)]
pub struct Rect {
    pub height: u32,
    pub width: u32,
    pub top_left: Point,
}

impl Rect {
    /// The right and the lower edge lie within the range of a coordinate.
    pub open spec fn on_canvas(self) -> bool {
        self.top_left.x + self.width <= u32::MAX && self.top_left.y + self.height <= u32::MAX
    }

    /// The middle of the left edge.
    pub open spec fn left_middle(self) -> Point {
        Point { x: self.top_left.x, y: (self.top_left.y + self.height / 2) as u32 }
    }

    /// The middle of the right edge.
    pub open spec fn right_middle(self) -> Point {
        Point {
            x: (self.top_left.x + self.width) as u32,
            y: (self.top_left.y + self.height / 2) as u32,
        }
    }
}

} // verus!
