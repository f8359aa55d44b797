//! Entity handles and field positions.
//!
//! The simulation identifies every object on a board (cards, slots, agents,
//! the board itself) by an opaque handle into an arena of entity records.

use vstd::prelude::*;

verus! {

/// An opaque handle to one entity: an index into the entity arena.
#[derive(Clone, Copy, PartialEq, Eq, Structural, Hash, Debug)]
pub struct Entity(pub usize);

/// A discrete 3-axis coordinate naming one placeable location on a board.
#[derive(Clone, Copy, PartialEq, Eq, Structural, Hash, Debug)]
pub struct IVec3 {
    pub x: i32,
    pub y: i32,
    pub z: i32,
}

impl IVec3 {
    pub fn new(x: i32, y: i32, z: i32) -> (v: IVec3)
        ensures
            v == (IVec3 { x, y, z }),
    {
        IVec3 { x, y, z }
    }
}

} // verus!
