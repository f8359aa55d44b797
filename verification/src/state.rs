//! The board turn/stage state machine.
//!
//! A board carries its agents in turn order, the agent whose turn it is,
//! the stage of that turn, and the bookkeeping for triggered effects.
//! Advancing to `Start` hands the turn to the next agent circularly; on a
//! board whose game has not started yet it hands the turn to the first
//! agent. Advancing on a board with no agents is invalid and reported.

use vstd::prelude::*;

use crate::entity::Entity;
use crate::stage::BoardStage;
use crate::tree::Tree;

verus! {

/// The circular successor of a turn index among `k` agents.
pub open spec fn next_turn_index(index: int, k: int) -> int {
    if index < k - 1 {
        index + 1
    } else {
        0
    }
}

/// The turn index after `n` circular steps from `i0` among `k` agents.
pub open spec fn iterate_next_turn(i0: int, k: int, n: nat) -> int
    decreases n,
{
    if n == 0 {
        i0
    } else {
        next_turn_index(iterate_next_turn(i0, k, (n - 1) as nat), k)
    }
}

/// Advancing the turn `n` times on a started board with `k` agents moves
/// the turn index forward by exactly `n`, modulo `k`.
pub proof fn lemma_turn_monotonicity(i0: int, k: int, n: nat)
    requires
        0 <= i0 < k,
    ensures
        iterate_next_turn(i0, k, n) == (i0 + n) % k,
    decreases n,
{
    if n == 0 {
        vstd::arithmetic::div_mod::lemma_small_mod(i0 as nat, k as nat);
    } else {
        lemma_turn_monotonicity(i0, k, (n - 1) as nat);
        let prev = iterate_next_turn(i0, k, (n - 1) as nat);
        let m = i0 + n - 1;
        assert(prev == m % k);
        vstd::arithmetic::div_mod::lemma_fundamental_div_mod(m, k);
        let q = m / k;
        assert(m == q * k + prev);
        if prev < k - 1 {
            vstd::arithmetic::div_mod::lemma_fundamental_div_mod_converse(m + 1, k, q, prev + 1);
        } else {
            assert(m + 1 == (q + 1) * k + 0) by (nonlinear_arith)
                requires
                    m == q * k + prev,
                    prev == k - 1,
            ;
            vstd::arithmetic::div_mod::lemma_fundamental_div_mod_converse(m + 1, k, q + 1, 0);
        }
    }
}

/// Turn order, current-turn agent, stage and effect bookkeeping of one
/// board.
pub struct BoardState {
    /// The agents playing on the board, in turn order.
    pub agents: Vec<Entity>,
    /// The agent whose turn it is; None until the game has started.
    pub current_turn_agent: Option<Entity>,
    /// Position of the current-turn agent in `agents`; used to find the
    /// next turn agent on stage change.
    pub current_turn_agent_index: usize,
    /// The stage the current turn is in.
    pub stage: BoardStage,
    /// (card entity, effect index) pairs recorded for resolution this tick.
    pub tick_triggers: Vec<(Entity, usize)>,
    /// The resolution tree of the effect chain being resolved, if any.
    pub current_tree: Option<Tree>,
}

/// The chain recorded in a state's resolution tree, empty when none is.
pub open spec fn tree_chain(s: BoardState) -> Seq<Entity> {
    match s.current_tree {
        Some(t) => t@,
        None => Seq::empty(),
    }
}

impl BoardState {
    /// The turn bookkeeping is coherent: before the game starts the index
    /// is zero and nobody has the turn; once started the index is in range
    /// and the current-turn agent is the agent at that index.
    pub open spec fn wf(self) -> bool {
        &&& match self.current_turn_agent {
            Some(a) => {
                &&& self.agents@.len() > 0
                &&& (self.current_turn_agent_index as int) < self.agents@.len()
                &&& a == self.agents@[self.current_turn_agent_index as int]
            },
            None => self.current_turn_agent_index == 0,
        }
        &&& (self.current_tree matches Some(t) ==> t.wf())
    }

    /// A fresh state: given agents, game not started, at `Start`.
    pub fn new(agents: Vec<Entity>) -> (r: BoardState)
        ensures
            r.wf(),
            r.agents == agents,
            r.current_turn_agent is None,
            r.current_turn_agent_index == 0,
            r.stage == BoardStage::Start,
            r.tick_triggers@.len() == 0,
            tree_chain(r).len() == 0,
    {
        BoardState {
            agents,
            current_turn_agent: None,
            current_turn_agent_index: 0,
            stage: BoardStage::Start,
            tick_triggers: Vec::new(),
            current_tree: None,
        }
    }

    /// Hand the first turn to the first agent.
    pub fn game_start(&mut self)
        requires
            old(self).wf(),
            old(self).current_turn_agent is None,
            old(self).agents@.len() > 0,
        ensures
            final(self).wf(),
            *final(self) == (BoardState {
                current_turn_agent: Some(old(self).agents@[0]),
                ..*old(self)
            }),
    {
        let first = self.agents[0];
        self.current_turn_agent = Some(first);
    }

    /// Advance the board to a stage. On a board with no agents this is
    /// invalid: nothing changes and `false` reports the failure. Otherwise
    /// the stage is recorded; advancing to `Start` additionally passes the
    /// turn to the next agent circularly (to the first agent if the game
    /// had not started yet).
    pub fn advance_stage(&mut self, stage: BoardStage) -> (r: bool)
        requires
            old(self).wf(),
        ensures
            final(self).wf(),
            r == (old(self).agents@.len() > 0),
            !r ==> *final(self) == *old(self),
            r ==> {
                &&& final(self).agents == old(self).agents
                &&& final(self).stage == stage
                &&& final(self).tick_triggers == old(self).tick_triggers
                &&& final(self).current_tree == old(self).current_tree
            },
            r && stage != BoardStage::Start ==> {
                &&& final(self).current_turn_agent == old(self).current_turn_agent
                &&& final(self).current_turn_agent_index == old(self).current_turn_agent_index
            },
            r && stage == BoardStage::Start && old(self).current_turn_agent is None ==> {
                &&& final(self).current_turn_agent_index == 0
                &&& final(self).current_turn_agent == Some(old(self).agents@[0])
            },
            r && stage == BoardStage::Start && old(self).current_turn_agent is Some ==> {
                &&& (final(self).current_turn_agent_index as int) == next_turn_index(
                    old(self).current_turn_agent_index as int,
                    old(self).agents@.len() as int,
                )
                &&& final(self).current_turn_agent == Some(
                    old(self).agents@[final(self).current_turn_agent_index as int],
                )
            },
    {
        if self.agents.len() == 0 {
            return false;
        }
        if stage == BoardStage::Start {
            match self.current_turn_agent {
                None => {
                    let first = self.agents[0];
                    self.current_turn_agent = Some(first);
                },
                Some(_) => {
                    let next: usize = if self.current_turn_agent_index < self.agents.len() - 1 {
                        self.current_turn_agent_index + 1
                    } else {
                        0
                    };
                    self.current_turn_agent_index = next;
                    let agent = self.agents[next];
                    self.current_turn_agent = Some(agent);
                },
            }
        }
        self.stage = stage;
        true
    }

    /// Record a (card, effect index) trigger for resolution this tick.
    pub fn trigger_effect(&mut self, card_entity: Entity, effect_index: usize)
        requires
            old(self).wf(),
        ensures
            final(self).wf(),
            final(self).tick_triggers@ == old(self).tick_triggers@.push((card_entity, effect_index)),
            final(self).agents == old(self).agents,
            final(self).current_turn_agent == old(self).current_turn_agent,
            final(self).current_turn_agent_index == old(self).current_turn_agent_index,
            final(self).stage == old(self).stage,
            final(self).current_tree == old(self).current_tree,
    {
        self.tick_triggers.push((card_entity, effect_index));
    }

    /// Record an activated effect in the resolution tree, starting a new
    /// chain when none is in flight.
    pub fn activate_effect(&mut self, card_entity: Entity)
        requires
            old(self).wf(),
        ensures
            final(self).wf(),
            tree_chain(*final(self)) == tree_chain(*old(self)).push(card_entity),
            final(self).agents == old(self).agents,
            final(self).current_turn_agent == old(self).current_turn_agent,
            final(self).current_turn_agent_index == old(self).current_turn_agent_index,
            final(self).stage == old(self).stage,
            final(self).tick_triggers == old(self).tick_triggers,
    {
        match &mut self.current_tree {
            Some(tree) => {
                tree.push_card(card_entity);
            },
            None => {
                self.current_tree = Some(Tree::new(card_entity));
                proof {
                    assert(tree_chain(*self) =~= tree_chain(*old(self)).push(card_entity));
                }
            },
        }
    }

    /// The agent whose turn it is, if the game has started.
    pub fn get_current_turn_agent(&self) -> (r: &Option<Entity>)
        ensures
            *r == self.current_turn_agent,
    {
        &self.current_turn_agent
    }
}

} // verus!
