//! The four cardinal directions of the grid and their opposites.

use vstd::prelude::*;

verus! {

/// One side of a grid cell or tile.
#[derive(Clone, Copy, Debug, PartialEq, Eq, Structural)]
pub enum Direction {
    Up,
    Right,
    Down,
    Left,
}

/// The direction pointing the opposite way from `d`.
pub open spec fn opp(d: Direction) -> Direction {
    match d {
        Direction::Up => Direction::Down,
        Direction::Down => Direction::Up,
        Direction::Right => Direction::Left,
        Direction::Left => Direction::Right,
    }
}

impl Direction {
    /// The direction pointing the opposite way from `self`.
    pub fn opposite(&self) -> (r: Direction)
        ensures
            r == opp(*self),
    {
        match self {
            Direction::Up => Direction::Down,
            Direction::Down => Direction::Up,
            Direction::Right => Direction::Left,
            Direction::Left => Direction::Right,
        }
    }

    /// Every direction, in a fixed order; stands in for iterating the enum.
    pub fn all() -> (r: [Direction; 4])
        ensures
            r@ =~= seq![
                Direction::Up,
                Direction::Right,
                Direction::Down,
                Direction::Left,
            ],
    {
        [Direction::Up, Direction::Right, Direction::Down, Direction::Left]
    }
}

/// Taking the opposite twice returns to the starting direction.
pub proof fn lemma_opposite_involution(d: Direction)
    ensures
        opp(opp(d)) == d,
{
}

} // verus!
