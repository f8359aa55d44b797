//! Card effects and effect triggering.
//!
//! A card carries a list of effect instances; an effect trigger names, by
//! index, which of them fire for one kind of game event. When an event
//! ticks a board, the valid indices of a member card's trigger are recorded
//! on the board for resolution ordering.

use vstd::prelude::*;

use crate::board::Board;
use crate::entity::Entity;

verus! {

/// The identity of an effect in the effect registry.
#[derive(Clone, Copy, PartialEq, Eq, Structural, Debug)]
pub struct EffectId(pub usize);

/// One effect on one card, with its cooldown bookkeeping.
#[derive(Clone, Copy, PartialEq, Eq, Structural, Debug)]
pub struct EffectInstance {
    pub cooldown: usize,
    pub effect_id: EffectId,
}

impl EffectInstance {
    pub fn new(effect_id: EffectId) -> (r: EffectInstance)
        ensures
            r.effect_id == effect_id,
            r.cooldown == 0,
    {
        EffectInstance { cooldown: 0, effect_id }
    }
}

/// The effect instances of one card.
pub struct Effects(Vec<EffectInstance>);

impl View for Effects {
    type V = Seq<EffectInstance>;

    closed spec fn view(&self) -> Seq<EffectInstance> {
        self.0@
    }
}

impl Effects {
    pub fn new(effects: Vec<EffectInstance>) -> (r: Effects)
        ensures
            r@ == effects@,
    {
        Effects(effects)
    }

    /// The effect at an index, if the index is valid.
    pub fn get_effect(&self, index: usize) -> (r: Option<&EffectInstance>)
        ensures
            (index as int) < self@.len() ==> r == Some(&self@[index as int]),
            (index as int) >= self@.len() ==> r is None,
    {
        if index < self.0.len() {
            Some(&self.0[index])
        } else {
            None
        }
    }

    /// How many effects the card carries.
    pub fn len(&self) -> (r: usize)
        ensures
            r == self@.len(),
    {
        self.0.len()
    }
}

/// Which effect indices of a card fire for one kind of game event.
pub struct EffectTrigger {
    /// The tag standing for the event kind that fires this trigger.
    pub kind: u32,
    /// Indices into the card's effect list.
    pub effect_idxs: Vec<usize>,
}

/// The trigger indices that name a valid effect, in order.
pub open spec fn valid_trigger_idxs(idxs: Seq<usize>, n_effects: nat) -> Seq<usize>
    decreases idxs.len(),
{
    if idxs.len() == 0 {
        Seq::empty()
    } else {
        let rest = valid_trigger_idxs(idxs.drop_last(), n_effects);
        if (idxs.last() as nat) < n_effects {
            rest.push(idxs.last())
        } else {
            rest
        }
    }
}

/// The (card, effect index) pairs a card's trigger queues.
pub open spec fn trigger_pairs(card: Entity, idxs: Seq<usize>) -> Seq<(Entity, usize)>
    decreases idxs.len(),
{
    if idxs.len() == 0 {
        Seq::empty()
    } else {
        trigger_pairs(card, idxs.drop_last()).push((card, idxs.last()))
    }
}

/// Queue the valid triggered effects of one member card on its board: each
/// trigger index that names an effect the card has is recorded, in trigger
/// order, for resolution this tick. Indices past the card's effect list
/// are broken bookkeeping and are skipped. A card that is not a member of
/// the board queues nothing.
pub fn queue_card_triggers(
    board: &mut Board,
    card: Entity,
    trigger: &EffectTrigger,
    effects: &Effects,
) -> (r: bool)
    requires
        old(board).wf(),
    ensures
        final(board).wf(),
        final(board).lookup == old(board).lookup,
        r == old(board).lookup@.members.contains(card),
        !r ==> *final(board) == *old(board),
        r ==> final(board).state.tick_triggers@ == old(board).state.tick_triggers@ + trigger_pairs(
            card,
            valid_trigger_idxs(trigger.effect_idxs@, effects@.len() as nat),
        ),
{
    if !board.lookup.contains_entity(card) {
        return false;
    }
    let n = trigger.effect_idxs.len();
    let n_eff = effects.len();
    let mut i: usize = 0;
    proof {
        assert(trigger.effect_idxs@.subrange(0, 0) =~= Seq::<usize>::empty());
        assert(old(board).state.tick_triggers@ + trigger_pairs(
            card,
            valid_trigger_idxs(trigger.effect_idxs@.subrange(0, 0), effects@.len() as nat),
        ) =~= old(board).state.tick_triggers@);
    }
    while i < n
        invariant
            n == trigger.effect_idxs@.len(),
            i <= n,
            board.wf(),
            n_eff == effects@.len(),
            board.lookup == old(board).lookup,
            board.state.agents == old(board).state.agents,
            board.state.current_turn_agent == old(board).state.current_turn_agent,
            board.state.current_turn_agent_index == old(board).state.current_turn_agent_index,
            board.state.stage == old(board).state.stage,
            board.state.current_tree == old(board).state.current_tree,
            board.client_is_on_board == old(board).client_is_on_board,
            board.state.tick_triggers@ == old(board).state.tick_triggers@ + trigger_pairs(
                card,
                valid_trigger_idxs(
                    trigger.effect_idxs@.subrange(0, i as int),
                    effects@.len() as nat,
                ),
            ),
        decreases n - i,
    {
        let idx = trigger.effect_idxs[i];
        proof {
            let s = trigger.effect_idxs@;
            let pre = s.subrange(0, i as int);
            let cur = s.subrange(0, i + 1);
            assert(cur =~= pre.push(s[i as int]));
            assert(cur.drop_last() =~= pre);
            assert(cur.last() == s[i as int]);
        }
        if idx < n_eff {
            board.trigger_effect(card, idx);
            proof {
                let s = trigger.effect_idxs@;
                let pre_valid = valid_trigger_idxs(
                    s.subrange(0, i as int),
                    effects@.len() as nat,
                );
                assert(valid_trigger_idxs(s.subrange(0, i + 1), effects@.len() as nat)
                    == pre_valid.push(idx));
                assert(pre_valid.push(idx).drop_last() =~= pre_valid);
                assert(pre_valid.push(idx).last() == idx);
                assert(trigger_pairs(card, pre_valid.push(idx)) == trigger_pairs(
                    card,
                    pre_valid,
                ).push((card, idx)));
                assert(board.state.tick_triggers@ =~= old(board).state.tick_triggers@
                    + trigger_pairs(
                    card,
                    valid_trigger_idxs(s.subrange(0, i + 1), effects@.len() as nat),
                ));
            }
        }
        i += 1;
    }
    proof {
        assert(trigger.effect_idxs@.subrange(0, n as int) =~= trigger.effect_idxs@);
    }
    true
}

} // verus!
