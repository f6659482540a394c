use vstd::prelude::*;

verus! {

/// An integer grid coordinate, screen-style: `x` grows to the right, `y`
/// grows downwards.
#[derive(Clone, Copy, Debug, PartialEq, Eq, Structural)]
pub struct Point {
    pub x: i32,
    pub y: i32,
}

impl View for Point {
    type V = (int, int);

    open spec fn view(&self) -> (int, int) {
        (self.x as int, self.y as int)
    }
}

/// Whether a pair of integers can be stored as a `Point`.
pub open spec fn fits_i32(p: (int, int)) -> bool {
    i32::MIN <= p.0 <= i32::MAX && i32::MIN <= p.1 <= i32::MAX
}

impl Point {
    pub fn new(x: i32, y: i32) -> (r: Point)
        ensures
            r@ == (x as int, y as int),
    {
        Point { x, y }
    }

    /// Takes over the coordinates of `other`.
    pub fn copy_from(&mut self, other: &Point)
        ensures
            *final(self) == *other,
    {
        self.x = other.x;
        self.y = other.y;
    }

    pub fn set(&mut self, x: i32, y: i32)
        ensures
            final(self)@ == (x as int, y as int),
    {
        self.x = x;
        self.y = y;
    }

    /// Componentwise sum.
    pub fn add(&self, other: &Point) -> (r: Point)
        requires
            fits_i32((self.x + other.x, self.y + other.y)),
        ensures
            r@ == (self.x + other.x, self.y + other.y),
    {
        Point { x: self.x + other.x, y: self.y + other.y }
    }

    /// Componentwise difference.
    pub fn sub(&self, other: &Point) -> (r: Point)
        requires
            fits_i32((self.x - other.x, self.y - other.y)),
        ensures
            r@ == (self.x - other.x, self.y - other.y),
    {
        Point { x: self.x - other.x, y: self.y - other.y }
    }
}

} // verus!
