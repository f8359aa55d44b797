use card_sim::action::{action_execute, action_finish, action_state_setup, action_state_cleanup, Action, ActionId, ActionState};
use card_sim::agent::{AgentManager, AuthManager};
use card_sim::board::Board;
use card_sim::card::{CardAttribute, CardData, CardId, CardVisibility};
use card_sim::components::AgentOwned;
use card_sim::deck::Deck;
use card_sim::effect::{queue_card_triggers, EffectId, EffectInstance, Effects, EffectTrigger};
use card_sim::entity::{Entity, IVec3};
use card_sim::query::{BoardQuery, BoardQueryLoc};
use card_sim::stage::BoardStage;
use card_sim::store::EntityStore;
use card_sim::tree::Tree;

#[test]
fn deck_draws_from_the_back() {
    let mut deck = Deck::new(vec![CardId(1), CardId(2), CardId(3)]);
    assert_eq!(deck.draw(), Some(CardId(3)));
    assert_eq!(deck.draw(), Some(CardId(2)));
    assert_eq!(deck.draw(), Some(CardId(1)));
    assert_eq!(deck.draw(), None);
}

#[test]
fn deck_shuffle_keeps_the_cards() {
    let cards = vec![CardId(4), CardId(9), CardId(9), CardId(1), CardId(7)];
    let mut deck = Deck::new(cards.clone());
    deck.shuffle();
    let mut drawn = Vec::new();
    while let Some(c) = deck.draw() {
        drawn.push(c);
    }
    let mut expect: Vec<u32> = cards.iter().map(|c| c.0).collect();
    let mut got: Vec<u32> = drawn.iter().map(|c| c.0).collect();
    expect.sort();
    got.sort();
    assert_eq!(expect, got);
}

#[test]
fn tree_tracks_the_trigger_chain() {
    let mut tree = Tree::new(Entity(5));
    assert_eq!(tree.current_card(), Some(Entity(5)));
    tree.push_card(Entity(6));
    assert_eq!(tree.current_card(), Some(Entity(6)));
    tree.push_card(Entity(7));
    assert_eq!(tree.current_card(), Some(Entity(7)));
    tree.pop_card();
    assert_eq!(tree.current_card(), Some(Entity(6)));
    tree.pop_card();
    assert_eq!(tree.current_card(), Some(Entity(5)));
    tree.pop_card();
    assert_eq!(tree.current_card(), None);
    tree.push_card(Entity(9));
    assert_eq!(tree.current_card(), Some(Entity(9)));
}

#[test]
fn action_queue_runs_only_the_first() {
    let mut state = ActionState::default();
    let first = Action::new(Entity(1), vec![Entity(2)], ActionId(10), ActionId(11), None);
    let second = Action::new(Entity(3), vec![], ActionId(20), ActionId(21), Some(ActionId(22)));
    let d1 = action_execute(&mut state, first);
    assert!(d1.is_some());
    let (run, input) = d1.unwrap();
    assert_eq!(run, ActionId(10));
    assert_eq!(input.actionner, Entity(1));
    assert_eq!(input.entities, vec![Entity(2)]);
    // a second action queues without running
    assert!(action_execute(&mut state, second).is_none());
    // finishing pops the most recently queued action
    let f1 = action_finish(&mut state).unwrap();
    assert_eq!(f1.0, ActionId(21));
    assert_eq!(f1.1.actionner, Entity(3));
    let f2 = action_finish(&mut state).unwrap();
    assert_eq!(f2.0, ActionId(11));
    assert!(action_finish(&mut state).is_none());
}

#[test]
fn action_state_setup_and_cleanup() {
    let mut slot: Option<ActionState> = None;
    action_state_setup(&mut slot);
    assert!(slot.as_ref().is_some_and(|st| st.current.is_empty()));
    action_state_cleanup(&mut slot);
    assert!(slot.is_none());
}

#[test]
fn card_visibility_rules() {
    let vis = CardVisibility::new(vec![3, 5], false);
    assert!(vis.can_see(3));
    assert!(vis.can_see(5));
    assert!(!vis.can_see(4));
    let open = CardVisibility::new(vec![], true);
    assert!(open.can_see(4));
}

#[test]
fn card_data_instances_carry_its_effects() {
    let data = CardData {
        name: String::from("test card"),
        description: String::from("does things"),
        effects: vec![EffectId(3), EffectId(8)],
    };
    let inst = data.create_instance();
    assert_eq!(inst.len(), 2);
    assert_eq!(inst.get_effect(0).unwrap().effect_id, EffectId(3));
    assert_eq!(inst.get_effect(1).unwrap().effect_id, EffectId(8));
    assert_eq!(inst.get_effect(0).unwrap().cooldown, 0);
    assert!(inst.get_effect(2).is_none());
    assert_eq!(CardAttribute::new(CardId(7)).id, CardId(7));
}

#[test]
fn queue_card_triggers_skips_broken_indices() {
    let mut board = Board::new(vec![]);
    let card = Entity(3);
    board.lookup.insert_on_board(card);
    let trigger = EffectTrigger { kind: 1, effect_idxs: vec![0, 5, 1] };
    let effects = Effects::new(vec![
        EffectInstance::new(EffectId(40)),
        EffectInstance::new(EffectId(41)),
    ]);
    // the index 5 names no effect of the card and is skipped
    assert!(queue_card_triggers(&mut board, card, &trigger, &effects));
    assert_eq!(board.state.tick_triggers, vec![(card, 0), (card, 1)]);
    // a non-member queues nothing
    let outsider = Entity(4);
    assert!(!queue_card_triggers(&mut board, outsider, &trigger, &effects));
    assert_eq!(board.state.tick_triggers, vec![(card, 0), (card, 1)]);
}

#[test]
fn board_query_collects_locations() {
    let mut board = Board::new(vec![Entity(0)]);
    // index entities through the board-owned lookup directly
    board.lookup.insert_on_board(Entity(10));
    board.lookup.insert_on_board(Entity(11));
    board.lookup.insert_by_agent(Entity(0), Entity(10));
    board.lookup.insert_on_hand(Entity(0), Entity(10));
    board.lookup.insert_on_field(Entity(11));
    let inserted = board.lookup.insert_slot(IVec3::new(0, 0, 0), Entity(12));
    assert!(inserted);
    let hand = BoardQuery::query(&board, &vec![BoardQueryLoc::Hand(AgentOwned(Entity(0)))]);
    assert_eq!(hand, vec![Entity(10)]);
    let slot = BoardQuery::query(&board, &vec![BoardQueryLoc::OnSlot(IVec3::new(0, 0, 0))]);
    assert_eq!(slot, vec![Entity(12)]);
    let field = BoardQuery::query(&board, &vec![BoardQueryLoc::Field]);
    assert_eq!(field, vec![Entity(11)]);
    let all = BoardQuery::query(&board, &vec![BoardQueryLoc::All]);
    assert_eq!(all.len(), 2);
    assert!(all.contains(&Entity(10)) && all.contains(&Entity(11)));
    let nothing = BoardQuery::query(&board, &vec![BoardQueryLoc::Deck(AgentOwned(Entity(0)))]);
    assert!(nothing.is_empty());
}

#[test]
fn registries_map_clients_to_agents() {
    let mut auths = AuthManager::new();
    let mut agents = AgentManager::new();
    assert_eq!(auths.get_auth_id(1), None);
    auths.insert_auth(1, 100);
    auths.insert_auth(2, 200);
    auths.insert_auth(1, 150);
    assert_eq!(auths.get_auth_id(1), Some(150));
    assert_eq!(auths.get_auth_id(2), Some(200));
    agents.insert(150, Entity(9));
    assert_eq!(agents.agent_from_client_id(1, &auths), Some(Entity(9)));
    assert_eq!(agents.agent_from_client_id(2, &auths), None);
    assert_eq!(agents.agent_from_client_id(3, &auths), None);
}

#[test]
fn stage_defaults_to_start() {
    assert_eq!(BoardStage::default(), BoardStage::Start);
    assert_eq!(
        card_sim::app_state::AppState::default(),
        card_sim::app_state::AppState::MainMenu
    );
}

#[test]
fn positions_compare_by_coordinates() {
    assert_eq!(IVec3::new(1, 2, 3), IVec3 { x: 1, y: 2, z: 3 });
    assert_ne!(IVec3::new(1, 2, 3), IVec3::new(1, 2, 4));
}
