use vstd::prelude::*;
use crate::point::Point;

verus! {

/// One of the four compass directions.
#[derive(Clone, Copy, Debug, PartialEq, Eq, Structural)]
pub enum Dir {
    Left,
    Right,
    Up,
    Down,
}

/// The place of a direction on the rotation ring
/// Left → Down → Right → Up → Left, which is also its number in `from_num`.
pub open spec fn ring_index(d: Dir) -> int {
    match d {
        Dir::Left => 0,
        Dir::Down => 1,
        Dir::Right => 2,
        Dir::Up => 3,
    }
}

/// The direction at place `i` of the ring.
pub open spec fn dir_at(i: int) -> Dir {
    if i == 0 {
        Dir::Left
    } else if i == 1 {
        Dir::Down
    } else if i == 2 {
        Dir::Right
    } else {
        Dir::Up
    }
}

/// The unit step of a direction; `y` grows downwards.
pub open spec fn step_of(d: Dir) -> (int, int) {
    match d {
        Dir::Left => (-1, 0),
        Dir::Right => (1, 0),
        Dir::Up => (0, -1),
        Dir::Down => (0, 1),
    }
}

/// The angle of a direction in degrees, counter-clockwise, with Left at 0.
pub open spec fn degrees_of(d: Dir) -> int {
    match d {
        Dir::Left => 0,
        Dir::Up => 90,
        Dir::Right => 180,
        Dir::Down => 270,
    }
}

impl Dir {
    /// The direction numbered `i` on the ring (0 Left, 1 Down, 2 Right,
    /// 3 Up); any other number is rejected.
    pub fn from_num(i: i32) -> (r: Option<Dir>)
        ensures
            0 <= i < 4 <==> r is Some,
            r matches Some(d) ==> ring_index(d) == i,
    {
        match i {
            0 => Some(Dir::Left),
            1 => Some(Dir::Down),
            2 => Some(Dir::Right),
            3 => Some(Dir::Up),
            _ => None,
        }
    }

    /// The direction for a die roll `n` in `0..=3`: 0 Left, 1 Right, 2 Up;
    /// anything else is Down.
    pub fn from_roll(n: i32) -> (r: Dir)
        ensures
            r == (if n == 0 {
                Dir::Left
            } else if n == 1 {
                Dir::Right
            } else if n == 2 {
                Dir::Up
            } else {
                Dir::Down
            }),
    {
        match n {
            0 => Dir::Left,
            1 => Dir::Right,
            2 => Dir::Up,
            _ => Dir::Down,
        }
    }

    /// The following direction on the ring.
    pub fn next(&self) -> (r: Dir)
        ensures
            ring_index(r) == (ring_index(*self) + 1) % 4,
            r == dir_at((ring_index(*self) + 1) % 4),
    {
        match self {
            Dir::Left => Dir::Down,
            Dir::Down => Dir::Right,
            Dir::Right => Dir::Up,
            Dir::Up => Dir::Left,
        }
    }

    /// The preceding direction on the ring.
    pub fn prev(&self) -> (r: Dir)
        ensures
            ring_index(r) == (ring_index(*self) + 3) % 4,
            r == dir_at((ring_index(*self) + 3) % 4),
    {
        match self {
            Dir::Left => Dir::Up,
            Dir::Down => Dir::Left,
            Dir::Right => Dir::Down,
            Dir::Up => Dir::Right,
        }
    }

    /// The unit step as a pair.
    pub fn xy(&self) -> (r: (i32, i32))
        ensures
            (r.0 as int, r.1 as int) == step_of(*self),
    {
        match self {
            Dir::Left => (-1, 0),
            Dir::Right => (1, 0),
            Dir::Up => (0, -1),
            Dir::Down => (0, 1),
        }
    }

    /// The unit step as a point.
    pub fn vector(&self) -> (r: Point)
        ensures
            r@ == step_of(*self),
    {
        let (x, y) = self.xy();
        Point { x, y }
    }

    /// The angle in degrees, counter-clockwise from Left.
    pub fn deg(&self) -> (r: i32)
        ensures
            r == degrees_of(*self),
    {
        match self {
            Dir::Left => 0,
            Dir::Up => 90,
            Dir::Right => 180,
            Dir::Down => 270,
        }
    }
}

/// Turning to the next direction and back again returns to the start.
pub proof fn law_next_prev(d: Dir, n: Dir, p: Dir)
    requires
        ring_index(n) == (ring_index(d) + 1) % 4,
        ring_index(p) == (ring_index(n) + 3) % 4,
    ensures
        p == d,
{
}

} // verus!
