//! A board: turn state plus the lookup index it owns.

use vstd::prelude::*;

use crate::entity::Entity;
use crate::lookup::BoardLookup;
use crate::state::BoardState;

verus! {

/// One game session's state container: the agents and turn machinery in
/// `state`, and the board-owned lookup index in `lookup`. The index is
/// mutated only by the entity store's attach/detach layer.
pub struct Board {
    /// The agent entity this client controls on this board; None when the
    /// running process is not playing on it. Never replicated.
    pub client_is_on_board: Option<Entity>,
    /// Turn order, current-turn agent and stage.
    pub state: BoardState,
    /// The board-owned lookup index.
    pub lookup: BoardLookup,
}

impl Board {
    /// The board's turn state and its index are both well formed.
    pub open spec fn wf(self) -> bool {
        self.state.wf() && self.lookup.wf()
    }

    /// A fresh board with the given agents, game not started, empty index.
    pub fn new(agents: Vec<Entity>) -> (r: Board)
        ensures
            r.wf(),
            r.client_is_on_board is None,
            r.state.agents == agents,
            r.state.current_turn_agent is None,
            r.state.current_turn_agent_index == 0,
            r.state.stage == crate::stage::BoardStage::Start,
            r.state.tick_triggers@.len() == 0,
            crate::state::tree_chain(r.state).len() == 0,
            r.lookup@ == crate::lookup::LookupView::empty(),
    {
        Board {
            client_is_on_board: None,
            state: BoardState::new(agents),
            lookup: BoardLookup::new(),
        }
    }

    /// Append an agent to the board's turn order.
    pub fn add_agent(&mut self, agent: Entity)
        requires
            old(self).wf(),
        ensures
            final(self).wf(),
            final(self).state.agents@ == old(self).state.agents@.push(agent),
            final(self).state.current_turn_agent == old(self).state.current_turn_agent,
            final(self).state.current_turn_agent_index == old(self).state.current_turn_agent_index,
            final(self).state.stage == old(self).state.stage,
            final(self).lookup == old(self).lookup,
            final(self).client_is_on_board == old(self).client_is_on_board,
    {
        self.state.agents.push(agent);
    }

    /// Record a (card, effect index) trigger for resolution this tick.
    pub fn trigger_effect(&mut self, card: Entity, effect_index: usize)
        requires
            old(self).wf(),
        ensures
            final(self).wf(),
            final(self).state.tick_triggers@ == old(self).state.tick_triggers@.push(
                (card, effect_index),
            ),
            final(self).lookup == old(self).lookup,
            final(self).state.agents == old(self).state.agents,
            final(self).state.current_turn_agent == old(self).state.current_turn_agent,
            final(self).state.current_turn_agent_index == old(self).state.current_turn_agent_index,
            final(self).state.stage == old(self).state.stage,
            final(self).state.current_tree == old(self).state.current_tree,
            final(self).client_is_on_board == old(self).client_is_on_board,
    {
        self.state.trigger_effect(card, effect_index);
    }
}

/// Notification value: a board's lookup tables have been rebuilt from the
/// relationship components, as after a world replication.
#[derive(Clone, Copy, PartialEq, Eq, Structural, Debug)]
pub struct BoardLookupCreated;

} // verus!
