use card_sim::agent::{AgentManager, AuthManager};
use card_sim::board::BoardLookupCreated;
use card_sim::components::{OnBoard, OnSlot};
use card_sim::entity::{Entity, IVec3};
use card_sim::handler::{handle_join, handle_stage_change, handle_summon, JoinError, StageError, SummonError};
use card_sim::packet::{AgentSummonEvent, ClientJoinBoardRequestPacket, StageChangePacket};
use card_sim::stage::BoardStage;
use card_sim::store::{AttachError, EntityStore};

fn current_turn(store: &EntityStore, b: Entity) -> Option<Entity> {
    *store.get_board(b).unwrap().state.get_current_turn_agent()
}

#[test]
fn scenario_a_turn_cycle() {
    let mut store = EntityStore::new();
    let a1 = store.spawn_agent();
    let a2 = store.spawn_agent();
    let b = store.spawn();
    assert!(store.create_board(b, vec![a1, a2]));
    assert_eq!(current_turn(&store, b), None);
    assert_eq!(store.board_advance_stage(b, BoardStage::Start), Ok(true));
    assert_eq!(current_turn(&store, b), Some(a1));
    assert_eq!(store.board_advance_stage(b, BoardStage::Start), Ok(true));
    assert_eq!(current_turn(&store, b), Some(a2));
    assert_eq!(store.board_advance_stage(b, BoardStage::Start), Ok(true));
    assert_eq!(current_turn(&store, b), Some(a1));
}

#[test]
fn turn_monotonicity_modulo() {
    let mut store = EntityStore::new();
    let a1 = store.spawn_agent();
    let a2 = store.spawn_agent();
    let a3 = store.spawn_agent();
    let b = store.spawn();
    assert!(store.create_board(b, vec![a1, a2, a3]));
    assert!(store.board_game_start(b));
    assert_eq!(current_turn(&store, b), Some(a1));
    for _ in 0..7 {
        assert_eq!(store.board_advance_stage(b, BoardStage::Start), Ok(true));
    }
    // seven advances from index 0 among three agents: 7 mod 3 == 1
    let bd = store.get_board(b).unwrap();
    assert_eq!(bd.state.current_turn_agent_index, 1);
    assert_eq!(current_turn(&store, b), Some(a2));
}

#[test]
fn advance_stage_no_agents_rejected() {
    let mut store = EntityStore::new();
    let b = store.spawn();
    assert!(store.create_board(b, vec![]));
    assert_eq!(store.board_advance_stage(b, BoardStage::Start), Ok(false));
    assert_eq!(current_turn(&store, b), None);
}

#[test]
fn stage_is_recorded() {
    let mut store = EntityStore::new();
    let a1 = store.spawn_agent();
    let b = store.spawn();
    assert!(store.create_board(b, vec![a1]));
    assert!(store.board_game_start(b));
    assert_eq!(store.board_advance_stage(b, BoardStage::Main), Ok(true));
    assert_eq!(store.get_board(b).unwrap().state.stage, BoardStage::Main);
    // a non-Start stage leaves the turn untouched
    assert_eq!(current_turn(&store, b), Some(a1));
}

/// One client joins a fresh board and summons a dealt card onto the slot
/// the join gave it.
fn summon_setup() -> (EntityStore, AgentManager, AuthManager, Entity, Entity, Entity, Entity) {
    let mut store = EntityStore::new();
    let mut agents = AgentManager::new();
    let mut auths = AuthManager::new();
    auths.insert_auth(1, 100);
    let b = store.spawn();
    assert!(store.create_board(b, vec![]));
    let pkt = handle_join(
        &mut store,
        &mut agents,
        &auths,
        1,
        ClientJoinBoardRequestPacket::new(b),
    )
    .unwrap();
    let a1 = pkt.agent;
    let slot = store
        .get_board(b)
        .unwrap()
        .lookup
        .get_on_slot(IVec3::new(0, 0, 0))
        .unwrap();
    // deal one card to the agent's hand
    let card = store.spawn();
    store.attach_agent_owned(card, a1).unwrap();
    store.attach_on_hand(card).unwrap();
    store.attach_on_board(card, b).unwrap();
    assert!(store.board_game_start(b));
    (store, agents, auths, b, a1, card, slot)
}

#[test]
fn scenario_b_summon_succeeds() {
    let (mut store, agents, auths, b, a1, card, slot) = summon_setup();
    assert_eq!(current_turn(&store, b), Some(a1));
    let evicted = handle_summon(
        &mut store,
        &agents,
        &auths,
        1,
        AgentSummonEvent::new(b, card, slot),
    )
    .unwrap();
    assert_eq!(evicted, None);
    let rec = store.get_record(card).unwrap();
    assert!(!rec.on_hand);
    assert_eq!(rec.on_slot, Some(OnSlot(slot)));
    let occupant = store
        .get_board(b)
        .unwrap()
        .lookup
        .get_occupant(IVec3::new(0, 0, 0));
    assert_eq!(occupant, Some(card));
    let hand = store.get_board(b).unwrap().lookup.get_by_hand(a1);
    assert!(hand.is_empty());
}

#[test]
fn scenario_c_summon_by_wrong_agent_rejected() {
    let (mut store, mut agents, mut auths, b, a1, card, slot) = summon_setup();
    // a second client joins; the first agent still has the turn
    auths.insert_auth(2, 200);
    let pkt2 = handle_join(
        &mut store,
        &mut agents,
        &auths,
        2,
        ClientJoinBoardRequestPacket::new(b),
    )
    .unwrap();
    let a2 = pkt2.agent;
    assert_ne!(a1, a2);
    // deal a card to the second agent's hand
    let card2 = store.spawn();
    store.attach_agent_owned(card2, a2).unwrap();
    store.attach_on_hand(card2).unwrap();
    store.attach_on_board(card2, b).unwrap();
    assert_eq!(current_turn(&store, b), Some(a1));
    let r = handle_summon(
        &mut store,
        &agents,
        &auths,
        2,
        AgentSummonEvent::new(b, card2, slot),
    );
    assert_eq!(r, Err(SummonError::NotTurnAgent));
    // nothing changed: the slot stays unset and the card stays in hand
    let occupant = store
        .get_board(b)
        .unwrap()
        .lookup
        .get_occupant(IVec3::new(0, 0, 0));
    assert_eq!(occupant, None);
    assert!(store.get_record(card2).unwrap().on_hand);
    assert!(store.get_record(card).unwrap().on_hand);
    let _ = card;
}

#[test]
fn scenario_d_force_attach_evicts_stale_occupant() {
    let mut store = EntityStore::new();
    let b = store.spawn();
    assert!(store.create_board(b, vec![]));
    let pos = IVec3::new(2, 0, 0);
    let slot = store.spawn();
    store.attach_board_slot(slot, pos).unwrap();
    store.attach_on_board(slot, b).unwrap();
    let c1 = store.spawn();
    store.attach_on_board(c1, b).unwrap();
    let c2 = store.spawn();
    store.attach_on_board(c2, b).unwrap();
    assert_eq!(store.attach_on_slot(c1, slot), Ok(None));
    // force-attaching a second occupant evicts the stale one
    let evicted = store.attach_on_slot(c2, slot).unwrap();
    assert_eq!(evicted, Some(c1));
    let occupant = store.get_board(b).unwrap().lookup.get_occupant(pos);
    assert_eq!(occupant, Some(c2));
    assert_eq!(store.get_record(c1).unwrap().on_slot, None);
    assert_eq!(store.get_record(c2).unwrap().on_slot, Some(OnSlot(slot)));
}

#[test]
fn scenario_e_teardown_strips_all_members() {
    let mut store = EntityStore::new();
    let a1 = store.spawn_agent();
    let b = store.spawn();
    assert!(store.create_board(b, vec![a1]));
    // three entities owned by the agent, one of them in its hand and on
    // the field, plus a slot with an occupant
    let mut owned = Vec::new();
    for i in 0..3 {
        let e = store.spawn();
        store.attach_agent_owned(e, a1).unwrap();
        if i == 0 {
            store.attach_on_hand(e).unwrap();
            store.attach_on_field(e).unwrap();
        }
        store.attach_on_board(e, b).unwrap();
        owned.push(e);
    }
    let slot = store.spawn();
    store.attach_board_slot(slot, IVec3::new(3, 0, 0)).unwrap();
    store.attach_on_board(slot, b).unwrap();
    store.attach_on_slot(owned[1], slot).unwrap();
    assert!(store.destroy_board(b));
    assert!(store.get_board(b).is_none());
    // every member lost every board-relationship component
    for e in owned.iter().copied().chain([slot]) {
        let rec = store.get_record(e).unwrap();
        assert_eq!(rec.on_board, None);
        assert_eq!(rec.agent_owned, None);
        assert!(!rec.on_hand);
        assert!(!rec.on_field);
        assert_eq!(rec.slot, None);
        assert_eq!(rec.on_slot, None);
    }
    // the agent marker is no board relationship and stays
    assert!(store.get_record(a1).unwrap().agent);
}

#[test]
fn membership_detach_strips_all_components() {
    // plain board-membership detach cascades to every component too
    let mut store = EntityStore::new();
    let a1 = store.spawn_agent();
    let b = store.spawn();
    assert!(store.create_board(b, vec![a1]));
    let e = store.spawn();
    store.attach_agent_owned(e, a1).unwrap();
    store.attach_on_hand(e).unwrap();
    store.attach_on_field(e).unwrap();
    store.attach_on_board(e, b).unwrap();
    assert!(store.detach_on_board(e));
    let rec = store.get_record(e).unwrap();
    assert_eq!(rec.on_board, None);
    assert_eq!(rec.agent_owned, None);
    assert!(!rec.on_hand);
    assert!(!rec.on_field);
    assert_eq!(rec.slot, None);
    assert_eq!(rec.on_slot, None);
    let bd = store.get_board(b).unwrap();
    assert!(bd.lookup.get_by_agent(a1).is_empty());
    assert!(bd.lookup.get_by_hand(a1).is_empty());
    assert!(!bd.lookup.is_on_field(e));
}

#[test]
fn join_requires_authentication() {
    let mut store = EntityStore::new();
    let mut agents = AgentManager::new();
    let auths = AuthManager::new();
    let b = store.spawn();
    assert!(store.create_board(b, vec![]));
    let r = handle_join(
        &mut store,
        &mut agents,
        &auths,
        1,
        ClientJoinBoardRequestPacket::new(b),
    );
    assert_eq!(r, Err(JoinError::NotAuthenticated));
}

#[test]
fn join_requires_existing_board() {
    let mut store = EntityStore::new();
    let mut agents = AgentManager::new();
    let mut auths = AuthManager::new();
    auths.insert_auth(1, 100);
    let not_a_board = store.spawn();
    let r = handle_join(
        &mut store,
        &mut agents,
        &auths,
        1,
        ClientJoinBoardRequestPacket::new(not_a_board),
    );
    assert_eq!(r, Err(JoinError::BoardMissing));
    // no agent was allocated on the failed join
    assert!(store.get_record(Entity(1)).is_none());
}

#[test]
fn join_rejects_taken_seat_position() {
    let mut store = EntityStore::new();
    let mut agents = AgentManager::new();
    let mut auths = AuthManager::new();
    auths.insert_auth(1, 100);
    let b = store.spawn();
    assert!(store.create_board(b, vec![]));
    // occupy the first seat's slot position beforehand
    let blocker = store.spawn();
    store.attach_board_slot(blocker, IVec3::new(0, 0, 0)).unwrap();
    store.attach_on_board(blocker, b).unwrap();
    let r = handle_join(
        &mut store,
        &mut agents,
        &auths,
        1,
        ClientJoinBoardRequestPacket::new(b),
    );
    assert_eq!(r, Err(JoinError::SlotUnavailable));
}

#[test]
fn summon_rejects_card_not_in_hand() {
    let (mut store, agents, auths, b, a1, _card, slot) = summon_setup();
    // a card the agent owns but that is not in the hand
    let loose = store.spawn();
    store.attach_agent_owned(loose, a1).unwrap();
    store.attach_on_board(loose, b).unwrap();
    let r = handle_summon(
        &mut store,
        &agents,
        &auths,
        1,
        AgentSummonEvent::new(b, loose, slot),
    );
    assert_eq!(r, Err(SummonError::NotOnHand));
}

#[test]
fn summon_rejects_unknown_client() {
    let (mut store, agents, auths, b, _a1, card, slot) = summon_setup();
    let r = handle_summon(
        &mut store,
        &agents,
        &auths,
        9,
        AgentSummonEvent::new(b, card, slot),
    );
    assert_eq!(r, Err(SummonError::NoAgent));
}

#[test]
fn summon_rejects_off_field_slot() {
    let (mut store, agents, auths, b, _a1, card, _slot) = summon_setup();
    // a slot of the board that is not on the field
    let bare_slot = store.spawn();
    store.attach_board_slot(bare_slot, IVec3::new(5, 0, 0)).unwrap();
    store.attach_on_board(bare_slot, b).unwrap();
    let r = handle_summon(
        &mut store,
        &agents,
        &auths,
        1,
        AgentSummonEvent::new(b, card, bare_slot),
    );
    assert_eq!(r, Err(SummonError::InvalidSlot));
    assert!(store.get_record(card).unwrap().on_hand);
}

#[test]
fn summon_rejects_already_placed_card() {
    let (mut store, agents, auths, b, a1, _card, slot) = summon_setup();
    let placed = store.spawn();
    store.attach_agent_owned(placed, a1).unwrap();
    store.attach_on_hand(placed).unwrap();
    store.attach_on_board(placed, b).unwrap();
    store.attach_on_slot(placed, slot).unwrap();
    let r = handle_summon(
        &mut store,
        &agents,
        &auths,
        1,
        AgentSummonEvent::new(b, placed, slot),
    );
    assert_eq!(r, Err(SummonError::AlreadyPlaced));
}

#[test]
fn stage_change_requires_turn() {
    let (mut store, mut agents, mut auths, b, _a1, _card, _slot) = summon_setup();
    auths.insert_auth(2, 200);
    handle_join(
        &mut store,
        &mut agents,
        &auths,
        2,
        ClientJoinBoardRequestPacket::new(b),
    )
    .unwrap();
    let r = handle_stage_change(
        &mut store,
        &agents,
        &auths,
        2,
        StageChangePacket::new(BoardStage::Main, b),
    );
    assert_eq!(r, Err(StageError::NotTurnAgent));
    let r2 = handle_stage_change(
        &mut store,
        &agents,
        &auths,
        7,
        StageChangePacket::new(BoardStage::Main, b),
    );
    assert_eq!(r2, Err(StageError::NoAgent));
}

#[test]
fn stage_change_advances_turn() {
    let (mut store, mut agents, mut auths, b, a1, _card, _slot) = summon_setup();
    auths.insert_auth(2, 200);
    let a2 = handle_join(
        &mut store,
        &mut agents,
        &auths,
        2,
        ClientJoinBoardRequestPacket::new(b),
    )
    .unwrap()
    .agent;
    assert_eq!(current_turn(&store, b), Some(a1));
    let r = handle_stage_change(
        &mut store,
        &agents,
        &auths,
        1,
        StageChangePacket::new(BoardStage::Start, b),
    );
    assert_eq!(r, Ok(()));
    assert_eq!(current_turn(&store, b), Some(a2));
}

#[test]
fn stage_change_missing_board() {
    let (mut store, agents, auths, _b, _a1, _card, _slot) = summon_setup();
    let stray = store.spawn();
    let r = handle_stage_change(
        &mut store,
        &agents,
        &auths,
        1,
        StageChangePacket::new(BoardStage::Main, stray),
    );
    assert_eq!(r, Err(StageError::BoardMissing));
}

#[test]
fn order_independence_of_hand_and_ownership() {
    // path one: ownership first, then the hand marker
    let mut s1 = EntityStore::new();
    let a = s1.spawn_agent();
    let b = s1.spawn();
    assert!(s1.create_board(b, vec![a]));
    let c = s1.spawn();
    s1.attach_on_board(c, b).unwrap();
    s1.attach_agent_owned(c, a).unwrap();
    s1.attach_on_hand(c).unwrap();
    // path two: the hand marker first, then ownership
    let mut s2 = EntityStore::new();
    let a2 = s2.spawn_agent();
    let b2 = s2.spawn();
    assert!(s2.create_board(b2, vec![a2]));
    let c2 = s2.spawn();
    s2.attach_on_board(c2, b2).unwrap();
    s2.attach_on_hand(c2).unwrap();
    s2.attach_agent_owned(c2, a2).unwrap();
    assert_eq!(a, a2);
    assert_eq!(c, c2);
    assert_eq!(s1.get_record(c), s2.get_record(c2));
    let h1 = s1.get_board(b).unwrap().lookup.get_by_hand(a);
    let h2 = s2.get_board(b2).unwrap().lookup.get_by_hand(a2);
    assert_eq!(h1, h2);
    assert_eq!(h1, vec![c]);
    let o1 = s1.get_board(b).unwrap().lookup.get_by_agent(a);
    let o2 = s2.get_board(b2).unwrap().lookup.get_by_agent(a2);
    assert_eq!(o1, o2);
}

#[test]
fn hand_keeps_insertion_order() {
    let mut store = EntityStore::new();
    let a = store.spawn_agent();
    let b = store.spawn();
    assert!(store.create_board(b, vec![a]));
    let mut dealt = Vec::new();
    for _ in 0..3 {
        let c = store.spawn();
        store.attach_on_board(c, b).unwrap();
        store.attach_agent_owned(c, a).unwrap();
        store.attach_on_hand(c).unwrap();
        dealt.push(c);
    }
    let hand = store.get_board(b).unwrap().lookup.get_by_hand(a);
    assert_eq!(hand, dealt);
    // removing the middle card keeps the rest in order
    assert!(store.detach_on_hand(dealt[1]));
    let hand2 = store.get_board(b).unwrap().lookup.get_by_hand(a);
    assert_eq!(hand2, vec![dealt[0], dealt[2]]);
}

#[test]
fn attach_errors_are_reported() {
    let mut store = EntityStore::new();
    let b = store.spawn();
    assert!(store.create_board(b, vec![]));
    let ghostly = Entity(99);
    assert_eq!(store.attach_on_hand(ghostly), Err(AttachError::NoSuchEntity));
    let e = store.spawn();
    let not_board = store.spawn();
    assert_eq!(
        store.attach_on_board(e, not_board),
        Err(AttachError::NoSuchBoard)
    );
    store.attach_on_board(e, b).unwrap();
    assert_eq!(
        store.attach_on_board(e, b).unwrap_err(),
        AttachError::AlreadyAttached
    );
    // a second slot at a taken position is rejected loudly
    let s1 = store.spawn();
    store.attach_board_slot(s1, IVec3::new(1, 1, 1)).unwrap();
    store.attach_on_board(s1, b).unwrap();
    let s2 = store.spawn();
    store.attach_board_slot(s2, IVec3::new(1, 1, 1)).unwrap();
    assert_eq!(
        store.attach_on_board(s2, b),
        Err(AttachError::PositionTaken)
    );
    // occupying a slot that is no member slot of the board is rejected
    let c = store.spawn();
    store.attach_on_board(c, b).unwrap();
    let stray = store.spawn();
    assert_eq!(
        store.attach_on_slot(c, stray),
        Err(AttachError::SlotMissing)
    );
}

#[test]
fn slot_removal_frees_its_occupant() {
    let mut store = EntityStore::new();
    let b = store.spawn();
    assert!(store.create_board(b, vec![]));
    let pos = IVec3::new(4, 0, 0);
    let slot = store.spawn();
    store.attach_board_slot(slot, pos).unwrap();
    store.attach_on_board(slot, b).unwrap();
    let c = store.spawn();
    store.attach_on_board(c, b).unwrap();
    store.attach_on_slot(c, slot).unwrap();
    // destroying the slot identity force-detaches the occupant
    assert!(store.detach_board_slot(slot));
    assert_eq!(store.get_record(c).unwrap().on_slot, None);
    assert_eq!(store.get_board(b).unwrap().lookup.get_occupant(pos), None);
    assert_eq!(store.get_board(b).unwrap().lookup.get_on_slot(pos), None);
}

#[test]
fn agent_departure_cleans_its_traces() {
    let mut store = EntityStore::new();
    let b = store.spawn();
    assert!(store.create_board(b, vec![]));
    let a = store.spawn_agent();
    store.attach_on_board(a, b).unwrap();
    let mut owned = Vec::new();
    for _ in 0..2 {
        let c = store.spawn();
        store.attach_on_board(c, b).unwrap();
        store.attach_agent_owned(c, a).unwrap();
        store.attach_on_hand(c).unwrap();
        owned.push(c);
    }
    assert!(store.despawn(a));
    let bd = store.get_board(b).unwrap();
    assert!(bd.lookup.get_by_agent(a).is_empty());
    assert!(bd.lookup.get_by_hand(a).is_empty());
    // the owned entities themselves stay on the board
    for c in owned {
        assert_eq!(store.get_record(c).unwrap().on_board, Some(OnBoard(b)));
        assert_eq!(store.get_record(c).unwrap().agent_owned, None);
    }
}

#[test]
fn rebuild_reproduces_the_maintained_index() {
    let (mut store, agents, auths, b, a1, card, slot) = summon_setup();
    handle_summon(
        &mut store,
        &agents,
        &auths,
        1,
        AgentSummonEvent::new(b, card, slot),
    )
    .unwrap();
    let pos = IVec3::new(0, 0, 0);
    let before = store.get_board(b).unwrap();
    let mut members_before = before.lookup.get_entities().clone();
    let owned_before = before.lookup.get_by_agent(a1);
    let occupant_before = before.lookup.get_occupant(pos);
    let slot_before = before.lookup.get_on_slot(pos);
    assert_eq!(store.rebuild_lookup(b), Some(BoardLookupCreated));
    let after = store.get_board(b).unwrap();
    let mut members_after = after.lookup.get_entities().clone();
    members_before.sort_by_key(|e| e.0);
    members_after.sort_by_key(|e| e.0);
    assert_eq!(members_before, members_after);
    assert_eq!(owned_before, after.lookup.get_by_agent(a1));
    assert_eq!(occupant_before, after.lookup.get_occupant(pos));
    assert_eq!(slot_before, after.lookup.get_on_slot(pos));
    // rebuilding something that is no board reports nothing
    let stray = store.spawn();
    assert_eq!(store.rebuild_lookup(stray), None);
}
