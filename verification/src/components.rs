//! Relationship components.
//!
//! Each component states one fact about an entity's place in a board's
//! structure. Attaching or detaching one through the entity store re-derives
//! the affected lookup sub-indices from the full set of components present
//! on the entity, so the order in which components arrive does not matter.

use vstd::prelude::*;

use crate::entity::{Entity, IVec3};

verus! {

/// Membership: the entity is part of the given board.
#[derive(Clone, Copy, PartialEq, Eq, Structural, Debug)]
pub struct OnBoard(pub Entity);

/// Ownership: the entity belongs to the given agent.
#[derive(Clone, Copy, PartialEq, Eq, Structural, Debug)]
pub struct AgentOwned(pub Entity);

/// Hand membership marker: with ownership, places the entity in a hand.
#[derive(Clone, Copy, PartialEq, Eq, Structural, Debug)]
pub struct OnHand;

/// Field presence marker: the entity is on the play area.
#[derive(Clone, Copy, PartialEq, Eq, Structural, Debug)]
pub struct OnField;

/// Slot identity: the entity is itself a placeable slot at the position.
#[derive(Clone, Copy, PartialEq, Eq, Structural, Debug)]
pub struct BoardSlot(pub IVec3);

/// Slot occupancy: the entity currently sits in the given slot entity.
#[derive(Clone, Copy, PartialEq, Eq, Structural, Debug)]
pub struct OnSlot(pub Entity);

/// The full set of relationship components attached to one entity, plus
/// the agent marker for entities that are agents.
#[derive(Clone, Copy, PartialEq, Eq, Structural, Debug)]
pub struct EntityRecord {
    pub on_board: Option<OnBoard>,
    pub agent_owned: Option<AgentOwned>,
    pub on_hand: bool,
    pub on_field: bool,
    pub slot: Option<BoardSlot>,
    pub on_slot: Option<OnSlot>,
    pub agent: bool,
}

impl EntityRecord {
    /// A record with no components attached.
    pub open spec fn spec_empty() -> EntityRecord {
        EntityRecord {
            on_board: None,
            agent_owned: None,
            on_hand: false,
            on_field: false,
            slot: None,
            on_slot: None,
            agent: false,
        }
    }

    /// A record with no components attached.
    pub fn empty() -> (r: EntityRecord)
        ensures
            r == EntityRecord::spec_empty(),
    {
        EntityRecord {
            on_board: None,
            agent_owned: None,
            on_hand: false,
            on_field: false,
            slot: None,
            on_slot: None,
            agent: false,
        }
    }
}

} // verus!
