//! Multipart in-game actions.
//!
//! An action bundles an actor, the entities it concerns, and handles to
//! the callbacks to run when it executes, finishes or is cancelled. The
//! callbacks themselves live with the host shell; this module decides
//! which callback to run: a newly queued action runs its execute callback
//! only when nothing else is in flight, and finishing pops the most
//! recently queued action and runs its finish callback.

use vstd::prelude::*;

use crate::entity::Entity;

verus! {

/// A handle standing for a registered action callback.
#[derive(Clone, Copy, PartialEq, Eq, Structural, Debug)]
pub struct ActionId(pub u64);

/// One queued action.
pub struct Action {
    pub actionner: Entity,
    pub entities: Vec<Entity>,
    pub on_execute: ActionId,
    pub on_canceled: Option<ActionId>,
    pub on_finish: ActionId,
}

impl Action {
    pub fn new(
        actionner: Entity,
        entities: Vec<Entity>,
        on_execute: ActionId,
        on_finish: ActionId,
        on_canceled: Option<ActionId>,
    ) -> (r: Action)
        ensures
            r.actionner == actionner,
            r.entities == entities,
            r.on_execute == on_execute,
            r.on_finish == on_finish,
            r.on_canceled == on_canceled,
    {
        Action { actionner, entities, on_execute, on_canceled, on_finish }
    }
}

/// What an action callback receives.
pub struct ActionInput {
    pub actionner: Entity,
    pub entities: Vec<Entity>,
}

impl ActionInput {
    pub fn new(actionner: Entity, entities: Vec<Entity>) -> (r: ActionInput)
        ensures
            r.actionner == actionner,
            r.entities == entities,
    {
        ActionInput { actionner, entities }
    }
}

/// The queue of in-flight actions of one actor.
pub struct ActionState {
    pub current: Vec<Action>,
}

impl Default for ActionState {
    fn default() -> (r: ActionState)
        ensures
            r.current@.len() == 0,
    {
        ActionState { current: Vec::new() }
    }
}

/// Queue an action. The execute callback runs only when the queue was
/// empty: a directive naming the callback and its input comes back then.
pub fn action_execute(state: &mut ActionState, action: Action) -> (r: Option<(
    ActionId,
    ActionInput,
)>)
    ensures
        final(state).current@.len() == old(state).current@.len() + 1,
        final(state).current@.last().actionner == action.actionner,
        final(state).current@.last().entities == action.entities,
        final(state).current@.last().on_execute == action.on_execute,
        final(state).current@.last().on_finish == action.on_finish,
        final(state).current@.last().on_canceled == action.on_canceled,
        forall|i: int|
            0 <= i < old(state).current@.len() ==> final(state).current@[i] == old(
                state,
            ).current@[i],
        r is Some <==> old(state).current@.len() == 0,
        r is Some ==> r.unwrap().0 == action.on_execute && r.unwrap().1.actionner
            == action.actionner && r.unwrap().1.entities@ == action.entities@,
{
    let was_empty = state.current.len() == 0;
    let directive = if was_empty {
        let input = ActionInput::new(action.actionner, copy_entities(&action.entities));
        Some((action.on_execute, input))
    } else {
        None
    };
    state.current.push(action);
    directive
}

/// Finish the most recently queued action, if any: it leaves the queue and
/// a directive naming its finish callback and input comes back.
pub fn action_finish(state: &mut ActionState) -> (r: Option<(ActionId, ActionInput)>)
    ensures
        r is Some <==> old(state).current@.len() > 0,
        r is None ==> *final(state) == *old(state),
        r is Some ==> {
            &&& final(state).current@ == old(state).current@.drop_last()
            &&& r.unwrap().0 == old(state).current@.last().on_finish
            &&& r.unwrap().1.actionner == old(state).current@.last().actionner
            &&& r.unwrap().1.entities == old(state).current@.last().entities
        },
{
    if state.current.len() == 0 {
        return None;
    }
    let action = match state.current.pop() {
        Some(a) => a,
        None => vstd::pervasive::unreached(),
    };
    Some((action.on_finish, ActionInput::new(action.actionner, action.entities)))
}

/// Install a fresh, empty action queue.
pub fn action_state_setup(slot: &mut Option<ActionState>)
    ensures
        (*final(slot)) matches Some(st) && st.current@.len() == 0,
{
    *slot = Some(ActionState { current: Vec::new() });
}

/// Remove the action queue.
pub fn action_state_cleanup(slot: &mut Option<ActionState>)
    ensures
        *final(slot) is None,
{
    *slot = None;
}

/// A fresh vector with the same entities.
fn copy_entities(v: &Vec<Entity>) -> (r: Vec<Entity>)
    ensures
        r@ == v@,
{
    let mut r: Vec<Entity> = Vec::new();
    let n = v.len();
    let mut i: usize = 0;
    while i < n
        invariant
            n == v.len(),
            i <= n,
            r@ == v@.subrange(0, i as int),
        decreases n - i,
    {
        let e = v[i];
        r.push(e);
        proof {
            assert(r@ =~= v@.subrange(0, i + 1));
        }
        i += 1;
    }
    proof {
        assert(v@.subrange(0, n as int) =~= v@);
    }
    r
}

} // verus!
