use vstd::prelude::*;
use crate::geometry::Point;

verus! {

/// A prey animal: where it is and how long since it last bred.
#[derive(Copy, Clone, Debug, PartialEq, Eq, Structural)]
pub struct Fish {
    pub pos: Point,
    pub repro_time: u8,
}

/// A predator: where it is, how long since it last bred, and since it last ate.
#[derive(Copy, Clone, Debug, PartialEq, Eq, Structural)]
pub struct Shark {
    pub pos: Point,
    pub repro_time: u8,
    pub starve: u8,
}

impl Fish {
    /// A newborn fish at `pos`.
    pub fn new(pos: Point) -> (r: Fish)
        ensures
            r == (Fish { pos, repro_time: 0 }),
    {
        Fish { pos, repro_time: 0 }
    }
}

impl Shark {
    /// A newborn shark at `pos`.
    pub fn new(pos: Point) -> (r: Shark)
        ensures
            r == (Shark { pos, repro_time: 0, starve: 0 }),
    {
        Shark { pos, repro_time: 0, starve: 0 }
    }
}

} // verus!
