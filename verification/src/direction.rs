//! The ten directions a cursor can travel in.
use crate::coord::Coord;
use vstd::prelude::*;

verus! {

/// Four cardinal and four diagonal directions in the horizontal plane, and the
/// two vertical ones.
#[allow(non_camel_case_types)]
#[derive(PartialEq, Eq, Structural, Clone, Copy, Debug)]
pub enum Direction {
    /// north
    uttar,
    /// east
    purva,
    /// west
    paschim,
    /// south
    dakshin,
    /// north-west
    vayavya,
    /// north-east
    ishanya,
    /// south-west
    nairutya,
    /// south-east
    agneya,
    /// up
    urdhwa,
    /// down
    adharastha,
}

impl Direction {
    /// The unit step of this direction: east is `+x`, north is `+y`, up is `+z`.
    pub open spec fn spec_delta(self) -> Coord {
        match self {
            Direction::uttar => (0, 1, 0),
            Direction::purva => (1, 0, 0),
            Direction::paschim => (-1i32, 0, 0),
            Direction::dakshin => (0, -1i32, 0),
            Direction::vayavya => (-1i32, 1, 0),
            Direction::ishanya => (1, 1, 0),
            Direction::nairutya => (-1i32, -1i32, 0),
            Direction::agneya => (1, -1i32, 0),
            Direction::urdhwa => (0, 0, 1),
            Direction::adharastha => (0, 0, -1i32),
        }
    }

    /// Returns the unit step of this direction.
    pub fn delta(&self) -> (d: Coord)
        ensures
            d == self.spec_delta(),
    {
        match self {
            Direction::uttar => (0, 1, 0),
            Direction::purva => (1, 0, 0),
            Direction::paschim => (-1, 0, 0),
            Direction::dakshin => (0, -1, 0),
            Direction::vayavya => (-1, 1, 0),
            Direction::ishanya => (1, 1, 0),
            Direction::nairutya => (-1, -1, 0),
            Direction::agneya => (1, -1, 0),
            Direction::urdhwa => (0, 0, 1),
            Direction::adharastha => (0, 0, -1),
        }
    }
}

} // verus!
