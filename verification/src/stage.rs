//! Board stages.

use vstd::prelude::*;

verus! {

/// The stage a board is in during one agent's turn.
#[derive(Clone, Copy, PartialEq, Eq, Structural, Debug)]
pub enum BoardStage {
    Start,
    Main,
    End,
}

impl Default for BoardStage {
    fn default() -> (r: BoardStage)
        ensures
            r == BoardStage::Start,
    {
        BoardStage::Start
    }
}

} // verus!
