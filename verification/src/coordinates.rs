use vstd::prelude::*;
use crate::direction::Direction;

verus! {

/// Two-dimensional coordinates used for addressing fields in a maze.
#[derive(Debug, Copy, Clone, Default, Ord, PartialOrd, Eq, PartialEq, Structural, Hash)]
pub struct Coordinates {
    /// X component
    pub x: i32,
    /// Y component
    pub y: i32,
}

/// A cell as a pair of unbounded integers: the mathematical counterpart of
/// [`Coordinates`], used throughout the specifications.
pub open spec fn cell_step(c: (int, int), direction: Direction) -> (int, int) {
    match direction {
        Direction::North => (c.0, c.1 - 1),
        Direction::East => (c.0 + 1, c.1),
        Direction::South => (c.0, c.1 + 1),
        Direction::West => (c.0 - 1, c.1),
    }
}

impl View for Coordinates {
    type V = (int, int);

    open spec fn view(&self) -> (int, int) {
        (self.x as int, self.y as int)
    }
}

impl Coordinates {
    /// Construct coordinates from their two components.
    pub fn new(x: i32, y: i32) -> (r: Self)
        ensures
            r.x == x,
            r.y == y,
    {
        Coordinates { x, y }
    }

    /// Returns the next neighboring coordinates in a specific direction.
    ///
    /// Stepping must not leave the range of the coordinate components.
    pub fn next(&self, direction: &Direction) -> (r: Self)
        requires
            *direction is North ==> self.y > i32::MIN,
            *direction is South ==> self.y < i32::MAX,
            *direction is East ==> self.x < i32::MAX,
            *direction is West ==> self.x > i32::MIN,
        ensures
            r@ == cell_step(self@, *direction),
    {
        match direction {
            Direction::North => Coordinates { x: self.x, y: self.y - 1 },
            Direction::East => Coordinates { x: self.x + 1, y: self.y },
            Direction::South => Coordinates { x: self.x, y: self.y + 1 },
            Direction::West => Coordinates { x: self.x - 1, y: self.y },
        }
    }
}

/// The mathematical values of a sequence of coordinates.
pub open spec fn views_of(s: Seq<Coordinates>) -> Seq<(int, int)> {
    s.map_values(|c: Coordinates| c@)
}

/// Stepping in a direction and then in the opposite direction returns
/// to the starting cell.
pub proof fn lemma_step_opposite(c: (int, int), direction: Direction)
    ensures
        cell_step(cell_step(c, direction), direction.spec_opposite()) == c,
{
}

} // verus!
