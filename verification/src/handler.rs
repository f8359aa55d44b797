//! Request handlers: join, summon, stage change.
//!
//! These are the authorization gates of the simulation. Each one validates
//! a client-issued request against the board and turn state before any
//! mutation, and is side-effect-free on failure: no partial index mutation,
//! no partial component attachment. Every precondition is checked before
//! the first allocation or attachment.

use vstd::prelude::*;

use crate::agent::{AgentManager, AuthManager};
use crate::components::{AgentOwned, BoardSlot, OnBoard, OnSlot};
use crate::entity::{Entity, IVec3};
use crate::lookup::LookupView;
use crate::packet::{AgentSummonEvent, ClientJoinBoardRequestPacket, ClientJoinedBoardPacket, StageChangePacket};
use crate::stage::BoardStage;
use crate::store::EntityStore;

verus! {

/// Why a join request was rejected.
#[derive(Clone, Copy, PartialEq, Eq, Structural, Debug)]
pub enum JoinError {
    /// The requesting client is not authenticated.
    NotAuthenticated,
    /// The named board does not exist.
    BoardMissing,
    /// The position reserved for the new agent's first slot is taken.
    SlotUnavailable,
}

/// Why a summon request was rejected.
#[derive(Clone, Copy, PartialEq, Eq, Structural, Debug)]
pub enum SummonError {
    /// The requesting client has no agent.
    NoAgent,
    /// The named board does not exist.
    BoardMissing,
    /// The card is not in the requesting agent's hand on this board.
    NotOnHand,
    /// The card already sits in a slot.
    AlreadyPlaced,
    /// The requesting agent is not the board's current-turn agent.
    NotTurnAgent,
    /// The target is not an on-field slot of this board.
    InvalidSlot,
}

/// Why a stage-change request was rejected.
#[derive(Clone, Copy, PartialEq, Eq, Structural, Debug)]
pub enum StageError {
    /// The requesting client has no agent.
    NoAgent,
    /// The named board does not exist.
    BoardMissing,
    /// The requesting agent is not the board's current-turn agent.
    NotTurnAgent,
}

/// The requesting client controls an agent.
pub open spec fn client_agent_ok(
    agent_manager: AgentManager,
    auth_manager: AuthManager,
    client_id: u64,
) -> bool {
    auth_manager@.contains_key(client_id) && agent_manager@.contains_key(
        auth_manager@[client_id],
    )
}

/// The agent the client controls.
pub open spec fn client_agent(
    agent_manager: AgentManager,
    auth_manager: AuthManager,
    client_id: u64,
) -> Entity {
    agent_manager@[auth_manager@[client_id]]
}

/// The card is in the agent's hand on the board: alive, hand-marked,
/// owned by the agent, and a member of the board.
pub open spec fn summon_card_ok(s: EntityStore, agent: Entity, b: Entity, card: Entity) -> bool {
    s.rec(card) matches Some(rc) && {
        &&& rc.on_hand
        &&& rc.agent_owned == Some(AgentOwned(agent))
        &&& rc.on_board == Some(OnBoard(b))
    }
}

/// The target is an on-field member slot of the board.
pub open spec fn summon_slot_ok(s: EntityStore, b: Entity, slot: Entity) -> bool {
    (s.rec(slot) matches Some(rs) && {
        &&& rs.on_board == Some(OnBoard(b))
        &&& rs.slot is Some
    }) && s.lookup_of(b).on_field.contains(slot)
}

/// The position where a joining agent's first slot is placed: one column
/// per seat, in join order.
pub open spec fn join_slot_pos(seat: int) -> IVec3 {
    IVec3 { x: seat as i32, y: 0, z: 0 }
}

/// Handle a join request. Valid only if the client is authenticated and
/// the board exists (validated before any allocation). On success a fresh
/// agent entity is allocated and registered, appended to the board's turn
/// order, and given one placeable on-field slot; the reply names the board
/// and the new agent.
pub fn handle_join(
    store: &mut EntityStore,
    agent_manager: &mut AgentManager,
    auth_manager: &AuthManager,
    client_id: u64,
    packet: ClientJoinBoardRequestPacket,
) -> (r: Result<ClientJoinedBoardPacket, JoinError>)
    requires
        old(store).wf(),
        old(agent_manager).wf(),
        auth_manager.wf(),
        old(store).has_board(packet.board) ==> old(store).state_of(packet.board).agents@.len()
            < 1000000,
    ensures
        final(store).wf(),
        final(agent_manager).wf(),
        r == Err::<ClientJoinedBoardPacket, JoinError>(JoinError::NotAuthenticated) <==> !auth_manager@.contains_key(
            client_id,
        ),
        r == Err::<ClientJoinedBoardPacket, JoinError>(JoinError::BoardMissing) <==> auth_manager@.contains_key(
            client_id,
        ) && !old(store).has_board(packet.board),
        r == Err::<ClientJoinedBoardPacket, JoinError>(JoinError::SlotUnavailable) <==> auth_manager@.contains_key(
            client_id,
        ) && old(store).has_board(packet.board) && old(store).lookup_of(
            packet.board,
        ).slots.contains_key(join_slot_pos(old(store).state_of(packet.board).agents@.len() as int)),
        r is Err ==> *final(store) == *old(store) && *final(agent_manager) == *old(agent_manager),
        r is Ok ==> {
            let agent = Entity(old(store).recs().len() as usize);
            let slot = Entity((old(store).recs().len() + 1) as usize);
            let b = packet.board;
            let pos = join_slot_pos(old(store).state_of(b).agents@.len() as int);
            &&& r.unwrap() == (ClientJoinedBoardPacket { board: b, agent })
            &&& final(agent_manager)@ == old(agent_manager)@.insert(
                auth_manager@[client_id],
                agent,
            )
            &&& final(store).state_of(b).agents@ == old(store).state_of(b).agents@.push(agent)
            &&& final(store).state_of(b).current_turn_agent == old(store).state_of(
                b,
            ).current_turn_agent
            &&& final(store).state_of(b).stage == old(store).state_of(b).stage
            &&& final(store).rec(agent) is Some && final(store).rec(agent).unwrap().agent
            &&& final(store).rec(slot) == Some(
                (crate::components::EntityRecord {
                    on_board: Some(OnBoard(b)),
                    agent_owned: Some(AgentOwned(agent)),
                    on_hand: false,
                    on_field: true,
                    slot: Some(BoardSlot(pos)),
                    on_slot: None,
                    agent: false,
                }),
            )
            &&& final(store).lookup_of(b) == (LookupView {
                members: old(store).lookup_of(b).members.insert(slot),
                owned: old(store).lookup_of(b).owned.insert((agent, slot)),
                on_field: old(store).lookup_of(b).on_field.insert(slot),
                slots: old(store).lookup_of(b).slots.insert(pos, slot),
                ..old(store).lookup_of(b)
            })
            &&& old(store).boards_unchanged_except(*final(store), b)
        },
{
    let auth = match auth_manager.get_auth_id(client_id) {
        Some(a) => a,
        None => {
            return Err(JoinError::NotAuthenticated);
        },
    };
    let seat: usize;
    match store.get_board(packet.board) {
        Some(bd) => {
            seat = bd.state.agents.len();
        },
        None => {
            return Err(JoinError::BoardMissing);
        },
    }
    let pos = IVec3::new(seat as i32, 0, 0);
    proof {
        assert(pos == join_slot_pos(old(store).state_of(packet.board).agents@.len() as int));
    }
    let taken = match store.get_board(packet.board) {
        Some(bd) => bd.lookup.get_on_slot(pos),
        None => vstd::pervasive::unreached(),
    };
    if taken.is_some() {
        return Err(JoinError::SlotUnavailable);
    }
    // all preconditions hold: allocate and apply
    let ghost s0 = *store;
    let agent = store.spawn_agent();
    let ghost s_agent = *store;
    proof {
        assert(s_agent.has_board(packet.board));
        assert(s_agent.board_of(packet.board) == s0.board_of(packet.board));
    }
    agent_manager.insert(auth, agent);
    let added = store.board_add_agent(packet.board, agent);
    proof {
        assert(added);
    }
    let ghost s_add = *store;
    proof {
        assert(s_add.has_board(packet.board));
        assert(s_add.lookup_of(packet.board) == s0.lookup_of(packet.board));
        assert(s_add.recs() == s_agent.recs());
    }
    let slot = store.spawn();
    let ghost s_spawn = *store;
    proof {
        assert(slot.0 == s_add.recs().len());
        assert(s_spawn.rec(slot) == Some(crate::components::EntityRecord::spec_empty()));
        assert(s_spawn.boards_seq() == s_add.boards_seq());
        assert(s_spawn.has_board(packet.board));
        assert(s_spawn.lookup_of(packet.board) == s0.lookup_of(packet.board));
    }
    match store.attach_board_slot(slot, pos) {
        Ok(_) => {},
        Err(_) => {
            proof {
                assert(false);
            }
        },
    }
    let ghost s_slot = *store;
    proof {
        assert(s_slot.boards_seq() == s_spawn.boards_seq());
        assert(s_slot.has_board(packet.board));
        assert(s_slot.rec(slot) == Some(
            (crate::components::EntityRecord {
                slot: Some(BoardSlot(pos)),
                ..crate::components::EntityRecord::spec_empty()
            }),
        ));
    }
    match store.attach_on_field(slot) {
        Ok(_) => {},
        Err(_) => {
            proof {
                assert(false);
            }
        },
    }
    let ghost s_field = *store;
    proof {
        assert(s_field.boards_seq() == s_slot.boards_seq());
        assert(s_field.has_board(packet.board));
        assert(s_field.rec(slot) == Some(
            (crate::components::EntityRecord {
                on_field: true,
                slot: Some(BoardSlot(pos)),
                ..crate::components::EntityRecord::spec_empty()
            }),
        ));
    }
    match store.attach_agent_owned(slot, agent) {
        Ok(_) => {},
        Err(_) => {
            proof {
                assert(false);
            }
        },
    }
    let ghost s_owned = *store;
    proof {
        assert(s_owned.boards_seq() == s_field.boards_seq());
        assert(s_owned.rec(slot) == Some(
            (crate::components::EntityRecord {
                on_board: None,
                agent_owned: Some(AgentOwned(agent)),
                on_hand: false,
                on_field: true,
                slot: Some(BoardSlot(pos)),
                on_slot: None,
                agent: false,
            }),
        ));
        assert(s_owned.has_board(packet.board));
        assert(s_owned.lookup_of(packet.board) == s0.lookup_of(packet.board));
        assert(!s_owned.lookup_of(packet.board).slots.contains_key(pos));
        assert(s_owned.state_of(packet.board) == s_add.state_of(packet.board));
    }
    match store.attach_on_board(slot, packet.board) {
        Ok(_) => {},
        Err(_) => {
            proof {
                assert(false);
            }
        },
    }
    proof {
        let b = packet.board;
        let lv0 = old(store).lookup_of(b);
        assert(store.lookup_of(b) =~= (LookupView {
            members: lv0.members.insert(slot),
            owned: lv0.owned.insert((agent, slot)),
            on_field: lv0.on_field.insert(slot),
            slots: lv0.slots.insert(pos, slot),
            ..lv0
        }));
        assert(store.state_of(b).agents@ =~= old(store).state_of(b).agents@.push(agent));
        assert forall|x: Entity| #[trigger]
            store.has_board(x) == old(store).has_board(x) by {
            assert(s_agent.has_board(x) == s0.has_board(x));
            assert(s_add.has_board(x) == s_agent.has_board(x));
            assert(s_spawn.has_board(x) == s_add.has_board(x));
            assert(s_slot.has_board(x) == s_spawn.has_board(x));
            assert(s_field.has_board(x) == s_slot.has_board(x));
            assert(s_owned.has_board(x) == s_field.has_board(x));
            assert(store.has_board(x) == s_owned.has_board(x));
        }
        assert forall|x: Entity|
            x != b && old(store).has_board(x) implies #[trigger] store.board_of(x) == old(
            store,
        ).board_of(x) by {
            assert(s_agent.board_of(x) == s0.board_of(x));
            assert(s_agent.has_board(x));
            assert(s_add.board_of(x) == s_agent.board_of(x));
            assert(s_add.has_board(x));
            assert(s_spawn.board_of(x) == s_add.board_of(x));
            assert(s_slot.board_of(x) == s_spawn.board_of(x));
            assert(s_field.board_of(x) == s_slot.board_of(x));
            assert(s_owned.board_of(x) == s_field.board_of(x));
            assert(s_owned.has_board(x));
            assert(store.board_of(x) == s_owned.board_of(x));
        }
    }
    Ok(ClientJoinedBoardPacket::new(packet.board, agent))
}

/// Handle a summon request. Valid only if the client has an agent, the
/// card is in that agent's hand on the named board and not already placed,
/// the agent has the turn, and the target is an on-field member slot of
/// the board. On success, and atomically from the caller's point of view,
/// the card leaves the hand and comes to sit in the slot; a stale occupant
/// of the slot, which validation does not rule out, is evicted and handed
/// back as the anomaly to surface.
pub fn handle_summon(
    store: &mut EntityStore,
    agent_manager: &AgentManager,
    auth_manager: &AuthManager,
    client_id: u64,
    event: AgentSummonEvent,
) -> (r: Result<Option<Entity>, SummonError>)
    requires
        old(store).wf(),
        agent_manager.wf(),
        auth_manager.wf(),
    ensures
        final(store).wf(),
        r is Err ==> *final(store) == *old(store),
        r == Err::<Option<Entity>, SummonError>(SummonError::NoAgent) <==> !client_agent_ok(
            *agent_manager,
            *auth_manager,
            client_id,
        ),
        ({
            let ok0 = client_agent_ok(*agent_manager, *auth_manager, client_id);
            let agent = client_agent(*agent_manager, *auth_manager, client_id);
            let b = event.board_entity;
            let card_ok = summon_card_ok(*old(store), agent, b, event.card_entity);
            let unplaced = old(store).rec(event.card_entity).unwrap().on_slot is None;
            let turn_ok = old(store).has_board(b) && old(store).state_of(b).current_turn_agent
                == Some(agent);
            &&& (r == Err::<Option<Entity>, SummonError>(SummonError::NotOnHand) <==> ok0
                && !card_ok)
            &&& (r == Err::<Option<Entity>, SummonError>(SummonError::AlreadyPlaced) <==> ok0
                && card_ok && !unplaced)
            &&& (r == Err::<Option<Entity>, SummonError>(SummonError::BoardMissing) <==> ok0
                && card_ok && unplaced && !old(store).has_board(b))
            &&& (r == Err::<Option<Entity>, SummonError>(SummonError::NotTurnAgent) <==> ok0
                && card_ok && unplaced && old(store).has_board(b) && old(store).state_of(
                b,
            ).current_turn_agent != Some(agent))
            &&& (r == Err::<Option<Entity>, SummonError>(SummonError::InvalidSlot) <==> ok0
                && card_ok && unplaced && turn_ok && !summon_slot_ok(
                *old(store),
                b,
                event.slot_entity,
            ))
            &&& (r is Ok <==> ok0 && card_ok && unplaced && turn_ok && summon_slot_ok(
                *old(store),
                b,
                event.slot_entity,
            ))
        }),
        r is Ok ==> {
            let agent = client_agent(*agent_manager, *auth_manager, client_id);
            let b = event.board_entity;
            let card = event.card_entity;
            let slot = event.slot_entity;
            let p = old(store).rec(slot).unwrap().slot.unwrap().0;
            &&& old(store).has_board(b)
            &&& old(store).state_of(b).current_turn_agent == Some(agent)
            &&& old(store).lookup_of(b).hand.contains((agent, card))
            &&& final(store).rec(card) is Some
            &&& final(store).rec(card).unwrap().on_hand == false
            &&& final(store).rec(card).unwrap().on_slot == Some(OnSlot(slot))
            &&& final(store).lookup_of(b).occupied.contains_key(p) && final(store).lookup_of(
                b,
            ).occupied[p] == card
            &&& !final(store).lookup_of(b).hand.contains((agent, card))
            &&& r.unwrap() == (if old(store).lookup_of(b).occupied.contains_key(p) {
                Some(old(store).lookup_of(b).occupied[p])
            } else {
                None::<Entity>
            })
            &&& old(store).boards_unchanged_except(*final(store), b)
            &&& old(store).board_data_unchanged(*final(store), b)
        },
{
    let agent = match agent_manager.agent_from_client_id(client_id, auth_manager) {
        Some(a) => a,
        None => {
            return Err(SummonError::NoAgent);
        },
    };
    // the card must be in this agent's hand on this board
    let card_rec = match store.get_record(event.card_entity) {
        Some(rc) => rc,
        None => {
            return Err(SummonError::NotOnHand);
        },
    };
    if !card_rec.on_hand {
        return Err(SummonError::NotOnHand);
    }
    match card_rec.agent_owned {
        Some(ao) => {
            if ao.0.0 != agent.0 {
                return Err(SummonError::NotOnHand);
            }
            proof {
                assert(ao == AgentOwned(agent));
            }
        },
        None => {
            return Err(SummonError::NotOnHand);
        },
    }
    match card_rec.on_board {
        Some(ob) => {
            if ob.0.0 != event.board_entity.0 {
                return Err(SummonError::NotOnHand);
            }
            proof {
                assert(ob == OnBoard(event.board_entity));
            }
        },
        None => {
            return Err(SummonError::NotOnHand);
        },
    }
    if card_rec.on_slot.is_some() {
        return Err(SummonError::AlreadyPlaced);
    }
    // the agent must have the turn on this board
    let is_turn: bool;
    match store.get_board(event.board_entity) {
        Some(bd) => {
            match bd.state.get_current_turn_agent() {
                Some(cur) => {
                    is_turn = cur.0 == agent.0;
                },
                None => {
                    is_turn = false;
                },
            }
        },
        None => {
            return Err(SummonError::BoardMissing);
        },
    }
    if !is_turn {
        return Err(SummonError::NotTurnAgent);
    }
    // the target must be an on-field member slot of this board
    let slot_rec = match store.get_record(event.slot_entity) {
        Some(rs) => rs,
        None => {
            return Err(SummonError::InvalidSlot);
        },
    };
    match slot_rec.on_board {
        Some(ob) => {
            if ob.0.0 != event.board_entity.0 {
                return Err(SummonError::InvalidSlot);
            }
        },
        None => {
            return Err(SummonError::InvalidSlot);
        },
    }
    if slot_rec.slot.is_none() {
        return Err(SummonError::InvalidSlot);
    }
    let on_field = match store.get_board(event.board_entity) {
        Some(bd) => bd.lookup.is_on_field(event.slot_entity),
        None => vstd::pervasive::unreached(),
    };
    if !on_field {
        return Err(SummonError::InvalidSlot);
    }
    proof {
        store.lemma_board_facts(event.board_entity);
        assert(store.lookup_of(event.board_entity).hand.contains((agent, event.card_entity)));
    }
    // validated: apply the compound transition
    let detached = store.detach_on_hand(event.card_entity);
    proof {
        assert(detached);
    }
    let ghost s_mid = *store;
    proof {
        assert(s_mid.valid_slot_target(event.board_entity, event.slot_entity));
    }
    let evicted = match store.attach_on_slot(event.card_entity, event.slot_entity) {
        Ok(ev) => ev,
        Err(_) => vstd::pervasive::unreached(),
    };
    proof {
        let b = event.board_entity;
        let card = event.card_entity;
        store.lemma_board_facts(b);
        assert(!store.lookup_of(b).hand.contains((agent, card))) by {
            if store.lookup_of(b).hand.contains((agent, card)) {
                assert(crate::store::has_hand_marker(store.recs(), card));
            }
        }
    }
    Ok(evicted)
}

/// Handle a stage-change request. Valid only if the client controls the
/// board's current-turn agent; then the stage machine is advanced.
pub fn handle_stage_change(
    store: &mut EntityStore,
    agent_manager: &AgentManager,
    auth_manager: &AuthManager,
    client_id: u64,
    packet: StageChangePacket,
) -> (r: Result<(), StageError>)
    requires
        old(store).wf(),
        agent_manager.wf(),
        auth_manager.wf(),
    ensures
        final(store).wf(),
        r is Err ==> *final(store) == *old(store),
        r == Err::<(), StageError>(StageError::NoAgent) <==> !client_agent_ok(
            *agent_manager,
            *auth_manager,
            client_id,
        ),
        ({
            let ok0 = client_agent_ok(*agent_manager, *auth_manager, client_id);
            let agent = client_agent(*agent_manager, *auth_manager, client_id);
            let b = packet.board;
            &&& (r == Err::<(), StageError>(StageError::BoardMissing) <==> ok0 && !old(
                store,
            ).has_board(b))
            &&& (r == Err::<(), StageError>(StageError::NotTurnAgent) <==> ok0 && old(
                store,
            ).has_board(b) && old(store).state_of(b).current_turn_agent != Some(agent))
            &&& (r is Ok <==> ok0 && old(store).has_board(b) && old(store).state_of(
                b,
            ).current_turn_agent == Some(agent))
        }),
        r is Ok ==> {
            let agent = client_agent(*agent_manager, *auth_manager, client_id);
            let b = packet.board;
            let st = old(store).state_of(b);
            let st2 = final(store).state_of(b);
            &&& old(store).has_board(b)
            &&& st.current_turn_agent == Some(agent)
            &&& old(store).boards_unchanged_except(*final(store), b)
            &&& final(store).lookup_of(b) == old(store).lookup_of(b)
            &&& st2.stage == packet.stage
            &&& st2.agents == st.agents
            &&& (packet.stage == BoardStage::Start ==> (st2.current_turn_agent_index as int)
                == crate::state::next_turn_index(
                st.current_turn_agent_index as int,
                st.agents@.len() as int,
            ) && st2.current_turn_agent == Some(st.agents@[st2.current_turn_agent_index as int]))
            &&& (packet.stage != BoardStage::Start ==> st2.current_turn_agent
                == st.current_turn_agent && st2.current_turn_agent_index
                == st.current_turn_agent_index)
        },
{
    let agent = match agent_manager.agent_from_client_id(client_id, auth_manager) {
        Some(a) => a,
        None => {
            return Err(StageError::NoAgent);
        },
    };
    let is_turn: bool;
    match store.get_board(packet.board) {
        Some(bd) => {
            match bd.state.get_current_turn_agent() {
                Some(cur) => {
                    is_turn = cur.0 == agent.0;
                },
                None => {
                    is_turn = false;
                },
            }
        },
        None => {
            return Err(StageError::BoardMissing);
        },
    }
    if !is_turn {
        return Err(StageError::NotTurnAgent);
    }
    let advanced = match store.board_advance_stage(packet.board, packet.stage) {
        Ok(adv) => adv,
        Err(_) => vstd::pervasive::unreached(),
    };
    proof {
        assert(advanced);
    }
    Ok(())
}

} // verus!
