//! Request and notification values exchanged with the networking layer.
//!
//! The networking collaborator deserializes inbound messages into these
//! plain values and hands them to the handlers; the handlers' replies go
//! back out through it. Serialization itself is outside this library.

use vstd::prelude::*;

use crate::entity::Entity;
use crate::stage::BoardStage;

verus! {

/// A client asks to join a board.
#[derive(Clone, Copy, PartialEq, Eq, Structural, Debug)]
pub struct ClientJoinBoardRequestPacket {
    pub board: Entity,
}

impl ClientJoinBoardRequestPacket {
    pub fn new(board: Entity) -> (r: ClientJoinBoardRequestPacket)
        ensures
            r.board == board,
    {
        ClientJoinBoardRequestPacket { board }
    }
}

/// Sent to the one client that joined a board: its new agent entity.
#[derive(Clone, Copy, PartialEq, Eq, Structural, Debug)]
pub struct ClientJoinedBoardPacket {
    pub board: Entity,
    pub agent: Entity,
}

impl ClientJoinedBoardPacket {
    pub fn new(board: Entity, agent: Entity) -> (r: ClientJoinedBoardPacket)
        ensures
            r.board == board,
            r.agent == agent,
    {
        ClientJoinedBoardPacket { board, agent }
    }
}

/// Notification that an agent finished joining a board.
#[derive(Clone, Copy, PartialEq, Eq, Structural, Debug)]
pub struct BoardAgentJoin {
    pub board: Entity,
    pub agent: Entity,
}

impl BoardAgentJoin {
    pub fn new(board: Entity, agent: Entity) -> (r: BoardAgentJoin)
        ensures
            r.board == board,
            r.agent == agent,
    {
        BoardAgentJoin { board, agent }
    }
}

/// A client asks to summon a card from its hand onto a slot.
#[derive(Clone, Copy, PartialEq, Eq, Structural, Debug)]
pub struct AgentSummonEvent {
    pub board_entity: Entity,
    pub card_entity: Entity,
    pub slot_entity: Entity,
}

impl AgentSummonEvent {
    pub fn new(board_entity: Entity, summoned_entity: Entity, slot_entity: Entity) -> (r:
        AgentSummonEvent)
        ensures
            r.board_entity == board_entity,
            r.card_entity == summoned_entity,
            r.slot_entity == slot_entity,
    {
        AgentSummonEvent { board_entity, card_entity: summoned_entity, slot_entity }
    }
}

/// A client asks to advance a board to a stage.
#[derive(Clone, Copy, PartialEq, Eq, Structural, Debug)]
pub struct StageChangePacket {
    pub stage: BoardStage,
    pub board: Entity,
}

impl StageChangePacket {
    pub fn new(stage: BoardStage, board: Entity) -> (r: StageChangePacket)
        ensures
            r.stage == stage,
            r.board == board,
    {
        StageChangePacket { stage, board }
    }
}

} // verus!
