//! The board lookup index.
//!
//! A board keeps a denormalized, multi-key index over the entities associated
//! with it, so that common queries (entities of one agent, the card in one
//! slot, the cards of one hand) need no scan over all entities. The index is
//! owned by its board and kept consistent with the relationship components on
//! the entities by the attach/detach layer in `store`; the index itself is a
//! best-effort container whose mutations never fail (a mapping miss is a
//! no-op, never a panic).
//!
//! Hands are kept in insertion order: the order in which cards entered a hand
//! is the order in which the hand is reported.

use vstd::prelude::*;

use crate::assoc::{
    assoc_has_key, assoc_map, assoc_unique, lemma_assoc_at, lemma_assoc_push, lemma_assoc_remove,
    lemma_assoc_update, lemma_to_set_push, lemma_to_set_remove, seq_no_dup,
};
use crate::entity::{Entity, IVec3};

verus! {

/// The mathematical content of a lookup index.
#[verifier::ext_equal]
pub struct LookupView {
    /// All entities associated with the board.
    pub members: Set<Entity>,
    /// (agent, entity) pairs: the entity is owned by the agent.
    pub owned: Set<(Entity, Entity)>,
    /// (agent, card) pairs in insertion order: the card is in the agent's hand.
    pub hand: Seq<(Entity, Entity)>,
    /// Position of a placeable slot, to the slot entity itself.
    pub slots: Map<IVec3, Entity>,
    /// Position of a slot, to the entity currently occupying that slot.
    pub occupied: Map<IVec3, Entity>,
    /// Entities marked as being on the field.
    pub on_field: Set<Entity>,
}

/// The cards of one agent among hand pairs, in order.
pub open spec fn hand_of_seq(hand: Seq<(Entity, Entity)>, agent: Entity) -> Seq<Entity>
    decreases hand.len(),
{
    if hand.len() == 0 {
        Seq::empty()
    } else {
        let rest = hand_of_seq(hand.drop_last(), agent);
        if hand.last().0 == agent {
            rest.push(hand.last().1)
        } else {
            rest
        }
    }
}

/// The hand pairs that name an agent other than the given one, in order.
pub open spec fn hand_without_agent(hand: Seq<(Entity, Entity)>, agent: Entity) -> Seq<
    (Entity, Entity),
>
    decreases hand.len(),
{
    if hand.len() == 0 {
        Seq::empty()
    } else {
        let rest = hand_without_agent(hand.drop_last(), agent);
        if hand.last().0 != agent {
            rest.push(hand.last())
        } else {
            rest
        }
    }
}

/// The owned pairs that name an agent other than the given one.
pub open spec fn owned_without_agent(owned: Set<(Entity, Entity)>, agent: Entity) -> Set<
    (Entity, Entity),
> {
    Set::new(|pr: (Entity, Entity)| owned.contains(pr) && pr.0 != agent)
}

/// A pair sequence without the given agent holds exactly the pairs of the
/// other agents.
pub proof fn lemma_hand_without_agent_elems(hand: Seq<(Entity, Entity)>, agent: Entity)
    ensures
        forall|pr: (Entity, Entity)| #[trigger]
            hand_without_agent(hand, agent).contains(pr) <==> hand.contains(pr) && pr.0 != agent,
    decreases hand.len(),
{
    if hand.len() == 0 {
    } else {
        let t = hand.drop_last();
        lemma_hand_without_agent_elems(t, agent);
        let ft = hand_without_agent(t, agent);
        let fs = hand_without_agent(hand, agent);
        assert forall|pr: (Entity, Entity)| #[trigger]
            fs.contains(pr) <==> hand.contains(pr) && pr.0 != agent by {
            if fs.contains(pr) {
                let i = choose|i: int| 0 <= i < fs.len() && fs[i] == pr;
                if hand.last().0 != agent && i == fs.len() - 1 {
                    assert(pr == hand.last());
                    assert(hand[hand.len() - 1] == pr);
                } else {
                    assert(ft.contains(pr));
                    let j = choose|j: int| 0 <= j < t.len() && t[j] == pr;
                    assert(hand[j] == pr);
                }
            }
            if hand.contains(pr) && pr.0 != agent {
                let i = choose|i: int| 0 <= i < hand.len() && hand[i] == pr;
                if i < hand.len() - 1 {
                    assert(t[i] == pr);
                    assert(ft.contains(pr));
                    let j = choose|j: int| 0 <= j < ft.len() && ft[j] == pr;
                    assert(fs.contains(fs[j]));
                } else {
                    assert(pr == hand.last());
                    assert(fs[fs.len() - 1] == pr);
                }
            }
        }
    }
}

/// Dropping one agent's pairs keeps a pair sequence duplicate-free.
pub proof fn lemma_hand_without_agent_no_dup(hand: Seq<(Entity, Entity)>, agent: Entity)
    requires
        seq_no_dup(hand),
    ensures
        seq_no_dup(hand_without_agent(hand, agent)),
    decreases hand.len(),
{
    if hand.len() == 0 {
    } else {
        let t = hand.drop_last();
        assert(seq_no_dup(t));
        lemma_hand_without_agent_no_dup(t, agent);
        lemma_hand_without_agent_elems(t, agent);
        let ft = hand_without_agent(t, agent);
        let fs = hand_without_agent(hand, agent);
        if hand.last().0 != agent {
            assert(fs == ft.push(hand.last()));
            assert forall|a: int, b: int| 0 <= a < b < fs.len() implies fs[a] != fs[b] by {
                if b < fs.len() - 1 {
                    assert(ft[a] != ft[b]);
                } else {
                    assert(fs[b] == hand.last());
                    if fs[a] == hand.last() {
                        assert(ft.contains(hand.last()));
                        let j = choose|j: int| 0 <= j < t.len() && t[j] == hand.last();
                        assert(hand[j] == hand[hand.len() - 1]);
                    }
                }
            }
        }
    }
}

/// The cards extracted for one agent are exactly those paired with it.
pub proof fn lemma_hand_of_seq_elems(pairs: Seq<(Entity, Entity)>, agent: Entity)
    ensures
        forall|e: Entity| #[trigger]
            hand_of_seq(pairs, agent).contains(e) <==> pairs.contains((agent, e)),
    decreases pairs.len(),
{
    if pairs.len() == 0 {
    } else {
        let t = pairs.drop_last();
        lemma_hand_of_seq_elems(t, agent);
        let ft = hand_of_seq(t, agent);
        let fs = hand_of_seq(pairs, agent);
        assert forall|e: Entity| #[trigger] fs.contains(e) <==> pairs.contains((agent, e)) by {
            if fs.contains(e) {
                let i = choose|i: int| 0 <= i < fs.len() && fs[i] == e;
                if pairs.last().0 == agent && i == fs.len() - 1 {
                    assert(pairs[pairs.len() - 1] == (agent, e));
                } else {
                    assert(ft.contains(e));
                    let j = choose|j: int| 0 <= j < t.len() && t[j] == (agent, e);
                    assert(pairs[j] == (agent, e));
                }
            }
            if pairs.contains((agent, e)) {
                let i = choose|i: int| 0 <= i < pairs.len() && pairs[i] == (agent, e);
                if i < pairs.len() - 1 {
                    assert(t[i] == (agent, e));
                    assert(ft.contains(e));
                    let j = choose|j: int| 0 <= j < ft.len() && ft[j] == e;
                    if pairs.last().0 == agent {
                        assert(fs[j] == e);
                    } else {
                        assert(fs[j] == e);
                    }
                } else {
                    assert(pairs.last() == (agent, e));
                    assert(fs[fs.len() - 1] == e);
                }
            }
        }
    }
}

/// Extracting one agent's cards from a duplicate-free pair sequence gives a
/// duplicate-free card sequence.
pub proof fn lemma_hand_of_seq_no_dup(pairs: Seq<(Entity, Entity)>, agent: Entity)
    requires
        seq_no_dup(pairs),
    ensures
        seq_no_dup(hand_of_seq(pairs, agent)),
    decreases pairs.len(),
{
    if pairs.len() == 0 {
    } else {
        let t = pairs.drop_last();
        assert(seq_no_dup(t));
        lemma_hand_of_seq_no_dup(t, agent);
        lemma_hand_of_seq_elems(t, agent);
        let ft = hand_of_seq(t, agent);
        let fs = hand_of_seq(pairs, agent);
        if pairs.last().0 == agent {
            assert(fs == ft.push(pairs.last().1));
            assert forall|a: int, b: int| 0 <= a < b < fs.len() implies fs[a] != fs[b] by {
                if b < fs.len() - 1 {
                    assert(ft[a] != ft[b]);
                } else {
                    assert(fs[b] == pairs.last().1);
                    if fs[a] == pairs.last().1 {
                        assert(ft.contains(pairs.last().1));
                        let j = choose|j: int|
                            0 <= j < t.len() && t[j] == (agent, pairs.last().1);
                        assert(pairs[j] == pairs[pairs.len() - 1]);
                    }
                }
            }
        }
    }
}

impl LookupView {
    /// The cards of one agent's hand, in insertion order.
    pub open spec fn hand_of(self, agent: Entity) -> Seq<Entity> {
        hand_of_seq(self.hand, agent)
    }

    /// The entities owned by one agent.
    pub open spec fn owned_by(self, agent: Entity) -> Set<Entity> {
        Set::new(|e: Entity| self.owned.contains((agent, e)))
    }

    /// An empty index.
    pub open spec fn empty() -> LookupView {
        LookupView {
            members: Set::empty(),
            owned: Set::empty(),
            hand: Seq::empty(),
            slots: Map::empty(),
            occupied: Map::empty(),
            on_field: Set::empty(),
        }
    }
}

/// The lookup index of one board. See the module comment; the mathematical
/// view is a [`LookupView`].
pub struct BoardLookup {
    on_board_lookup: Vec<Entity>,
    agent_lookup: Vec<(Entity, Entity)>,
    on_hand_lookup: Vec<(Entity, Entity)>,
    slots_lookup: Vec<(IVec3, Entity)>,
    on_slot_lookup: Vec<(IVec3, Entity)>,
    on_field_lookup: Vec<Entity>,
}

impl View for BoardLookup {
    type V = LookupView;

    closed spec fn view(&self) -> LookupView {
        LookupView {
            members: self.on_board_lookup@.to_set(),
            owned: self.agent_lookup@.to_set(),
            hand: self.on_hand_lookup@,
            slots: assoc_map(self.slots_lookup@),
            occupied: assoc_map(self.on_slot_lookup@),
            on_field: self.on_field_lookup@.to_set(),
        }
    }
}

impl BoardLookup {
    /// The index's internal vectors hold no duplicates: each member, owned
    /// pair, hand pair and field entity once, and each position key once.
    pub closed spec fn wf(self) -> bool {
        &&& seq_no_dup(self.on_board_lookup@)
        &&& seq_no_dup(self.agent_lookup@)
        &&& seq_no_dup(self.on_hand_lookup@)
        &&& assoc_unique(self.slots_lookup@)
        &&& assoc_unique(self.on_slot_lookup@)
        &&& seq_no_dup(self.on_field_lookup@)
    }

    /// The hand pair sequence of a well-formed index has no duplicates.
    pub proof fn lemma_hand_no_dup(self)
        requires
            self.wf(),
        ensures
            seq_no_dup(self@.hand),
    {
    }

    /// A new, empty index.
    pub fn new() -> (r: BoardLookup)
        ensures
            r.wf(),
            r@ == LookupView::empty(),
    {
        let r = BoardLookup {
            on_board_lookup: Vec::new(),
            agent_lookup: Vec::new(),
            on_hand_lookup: Vec::new(),
            slots_lookup: Vec::new(),
            on_slot_lookup: Vec::new(),
            on_field_lookup: Vec::new(),
        };
        proof {
            assert(r@.members =~= Set::empty());
            assert(r@.owned =~= Set::empty());
            assert(r@.slots =~= Map::empty());
            assert(r@.occupied =~= Map::empty());
            assert(r@.on_field =~= Set::empty());
        }
        r
    }

    /// Drop every entry of every sub-index.
    pub fn clear(&mut self)
        ensures
            final(self).wf(),
            final(self)@ == LookupView::empty(),
    {
        self.on_board_lookup.clear();
        self.agent_lookup.clear();
        self.on_hand_lookup.clear();
        self.slots_lookup.clear();
        self.on_slot_lookup.clear();
        self.on_field_lookup.clear();
        proof {
            assert(self@.members =~= Set::empty());
            assert(self@.owned =~= Set::empty());
            assert(self@.slots =~= Map::empty());
            assert(self@.occupied =~= Map::empty());
            assert(self@.on_field =~= Set::empty());
        }
    }

    /// Record an entity as a member of the board.
    pub fn insert_on_board(&mut self, entity: Entity)
        requires
            old(self).wf(),
        ensures
            final(self).wf(),
            final(self)@ == (LookupView { members: old(self)@.members.insert(entity), ..old(self)@ }),
    {
        let found = find_entity(&self.on_board_lookup, entity);
        match found {
            Some(_) => {
                proof {
                    assert(self@.members.insert(entity) =~= self@.members);
                }
            },
            None => {
                proof {
                    lemma_to_set_push(self.on_board_lookup@, entity);
                }
                self.on_board_lookup.push(entity);
            },
        }
    }

    /// Drop an entity from the board's member set; reports whether it was there.
    pub fn remove_from_board(&mut self, entity: Entity) -> (r: bool)
        requires
            old(self).wf(),
        ensures
            final(self).wf(),
            r == old(self)@.members.contains(entity),
            final(self)@ == (LookupView { members: old(self)@.members.remove(entity), ..old(self)@ }),
    {
        let found = find_entity(&self.on_board_lookup, entity);
        match found {
            Some(i) => {
                proof {
                    lemma_to_set_remove(self.on_board_lookup@, i as int);
                }
                self.on_board_lookup.remove(i);
                true
            },
            None => {
                proof {
                    assert(self@.members.remove(entity) =~= self@.members);
                }
                false
            },
        }
    }

    /// Record an entity as owned by an agent.
    pub fn insert_by_agent(&mut self, agent: Entity, entity: Entity)
        requires
            old(self).wf(),
        ensures
            final(self).wf(),
            final(self)@ == (LookupView {
                owned: old(self)@.owned.insert((agent, entity)),
                ..old(self)@
            }),
    {
        let found = find_pair(&self.agent_lookup, agent, entity);
        match found {
            Some(_) => {
                proof {
                    assert(self@.owned.insert((agent, entity)) =~= self@.owned);
                }
            },
            None => {
                proof {
                    lemma_to_set_push(self.agent_lookup@, (agent, entity));
                }
                self.agent_lookup.push((agent, entity));
            },
        }
    }

    /// Drop an entity from an agent's owned set; reports whether it was there.
    pub fn remove_from_agent(&mut self, agent: Entity, entity: Entity) -> (r: bool)
        requires
            old(self).wf(),
        ensures
            final(self).wf(),
            r == old(self)@.owned.contains((agent, entity)),
            final(self)@ == (LookupView {
                owned: old(self)@.owned.remove((agent, entity)),
                ..old(self)@
            }),
    {
        let found = find_pair(&self.agent_lookup, agent, entity);
        match found {
            Some(i) => {
                proof {
                    lemma_to_set_remove(self.agent_lookup@, i as int);
                }
                self.agent_lookup.remove(i);
                true
            },
            None => {
                proof {
                    assert(self@.owned.remove((agent, entity)) =~= self@.owned);
                }
                false
            },
        }
    }

    /// Append a card to an agent's hand. A pair already present is left
    /// where it is, so re-inserting does not reorder the hand.
    pub fn insert_on_hand(&mut self, agent: Entity, entity: Entity)
        requires
            old(self).wf(),
        ensures
            final(self).wf(),
            final(self)@ == (LookupView {
                hand: if old(self)@.hand.contains((agent, entity)) {
                    old(self)@.hand
                } else {
                    old(self)@.hand.push((agent, entity))
                },
                ..old(self)@
            }),
    {
        let found = find_pair(&self.on_hand_lookup, agent, entity);
        match found {
            Some(i) => {
                proof {
                    assert(self.on_hand_lookup@[i as int] == (agent, entity));
                }
            },
            None => {
                self.on_hand_lookup.push((agent, entity));
                proof {
                    assert(seq_no_dup(self.on_hand_lookup@)) by {
                        let s = old(self).on_hand_lookup@;
                        let t = self.on_hand_lookup@;
                        assert forall|a: int, b: int| 0 <= a < b < t.len() implies t[a] != t[b] by {
                            if b < s.len() {
                                assert(s[a] != s[b]);
                            } else {
                                assert(t[b] == (agent, entity));
                                if t[a] == (agent, entity) {
                                    assert(s.contains((agent, entity)));
                                }
                            }
                        }
                    }
                }
            },
        }
    }

    /// Drop a card from an agent's hand, keeping the order of the rest;
    /// reports whether it was there.
    pub fn remove_from_hand(&mut self, agent: Entity, entity: Entity) -> (r: bool)
        requires
            old(self).wf(),
        ensures
            final(self).wf(),
            r == old(self)@.hand.contains((agent, entity)),
            final(self)@ == (LookupView {
                hand: if old(self)@.hand.contains((agent, entity)) {
                    old(self)@.hand.remove(old(self)@.hand.index_of((agent, entity)))
                } else {
                    old(self)@.hand
                },
                ..old(self)@
            }),
    {
        let found = find_pair(&self.on_hand_lookup, agent, entity);
        match found {
            Some(i) => {
                proof {
                    let s = self.on_hand_lookup@;
                    assert(s[i as int] == (agent, entity));
                    let j = s.index_of((agent, entity));
                    assert(s[j] == (agent, entity));
                    if i as int != j {
                        assert(s[i as int] != s[j]);
                    }
                    lemma_to_set_remove(s, i as int);
                }
                self.on_hand_lookup.remove(i);
                true
            },
            None => false,
        }
    }

    /// Record a slot entity at a position. If the position is already taken
    /// the index is left unchanged and `false` comes back: a second slot at
    /// one position is a logic error surfaced to the caller, never a silent
    /// overwrite.
    pub fn insert_slot(&mut self, pos: IVec3, entity: Entity) -> (r: bool)
        requires
            old(self).wf(),
        ensures
            final(self).wf(),
            r == !old(self)@.slots.contains_key(pos),
            final(self)@ == (LookupView {
                slots: if old(self)@.slots.contains_key(pos) {
                    old(self)@.slots
                } else {
                    old(self)@.slots.insert(pos, entity)
                },
                ..old(self)@
            }),
    {
        let found = find_key(&self.slots_lookup, pos);
        match found {
            Some(i) => {
                proof {
                    lemma_assoc_at(self.slots_lookup@, i as int);
                }
                false
            },
            None => {
                proof {
                    lemma_assoc_push(self.slots_lookup@, pos, entity);
                }
                self.slots_lookup.push((pos, entity));
                true
            },
        }
    }

    /// Drop the slot entity recorded at a position, handing it back.
    pub fn remove_slot(&mut self, pos: IVec3) -> (r: Option<Entity>)
        requires
            old(self).wf(),
        ensures
            final(self).wf(),
            r == if old(self)@.slots.contains_key(pos) {
                Some(old(self)@.slots[pos])
            } else {
                None::<Entity>
            },
            final(self)@ == (LookupView { slots: old(self)@.slots.remove(pos), ..old(self)@ }),
    {
        let found = find_key(&self.slots_lookup, pos);
        match found {
            Some(i) => {
                let r = self.slots_lookup[i].1;
                proof {
                    lemma_assoc_at(self.slots_lookup@, i as int);
                    lemma_assoc_remove(self.slots_lookup@, i as int);
                }
                self.slots_lookup.remove(i);
                Some(r)
            },
            None => {
                proof {
                    assert(self@.slots.remove(pos) =~= self@.slots);
                }
                None
            },
        }
    }

    /// Record an entity as occupying the slot at a position. An occupant
    /// already recorded there is displaced and handed back, so the caller
    /// can surface the anomaly and detach the stale occupant.
    pub fn insert_on_slot(&mut self, pos: IVec3, entity: Entity) -> (r: Option<Entity>)
        requires
            old(self).wf(),
        ensures
            final(self).wf(),
            r == if old(self)@.occupied.contains_key(pos) && old(self)@.occupied[pos] != entity {
                Some(old(self)@.occupied[pos])
            } else {
                None::<Entity>
            },
            final(self)@ == (LookupView {
                occupied: old(self)@.occupied.insert(pos, entity),
                ..old(self)@
            }),
    {
        let found = find_key(&self.on_slot_lookup, pos);
        match found {
            Some(i) => {
                let prev = self.on_slot_lookup[i].1;
                proof {
                    lemma_assoc_at(self.on_slot_lookup@, i as int);
                    lemma_assoc_update(self.on_slot_lookup@, i as int, entity);
                }
                self.on_slot_lookup[i] = (pos, entity);
                if prev.0 != entity.0 {
                    Some(prev)
                } else {
                    None
                }
            },
            None => {
                proof {
                    lemma_assoc_push(self.on_slot_lookup@, pos, entity);
                }
                self.on_slot_lookup.push((pos, entity));
                None
            },
        }
    }

    /// Drop the occupant recorded at a position, handing it back.
    pub fn remove_from_slot(&mut self, pos: IVec3) -> (r: Option<Entity>)
        requires
            old(self).wf(),
        ensures
            final(self).wf(),
            r == if old(self)@.occupied.contains_key(pos) {
                Some(old(self)@.occupied[pos])
            } else {
                None::<Entity>
            },
            final(self)@ == (LookupView { occupied: old(self)@.occupied.remove(pos), ..old(self)@ }),
    {
        let found = find_key(&self.on_slot_lookup, pos);
        match found {
            Some(i) => {
                let r = self.on_slot_lookup[i].1;
                proof {
                    lemma_assoc_at(self.on_slot_lookup@, i as int);
                    lemma_assoc_remove(self.on_slot_lookup@, i as int);
                }
                self.on_slot_lookup.remove(i);
                Some(r)
            },
            None => {
                proof {
                    assert(self@.occupied.remove(pos) =~= self@.occupied);
                }
                None
            },
        }
    }

    /// Record an entity as being on the field.
    pub fn insert_on_field(&mut self, entity: Entity)
        requires
            old(self).wf(),
        ensures
            final(self).wf(),
            final(self)@ == (LookupView {
                on_field: old(self)@.on_field.insert(entity),
                ..old(self)@
            }),
    {
        let found = find_entity(&self.on_field_lookup, entity);
        match found {
            Some(_) => {
                proof {
                    assert(self@.on_field.insert(entity) =~= self@.on_field);
                }
            },
            None => {
                proof {
                    lemma_to_set_push(self.on_field_lookup@, entity);
                }
                self.on_field_lookup.push(entity);
            },
        }
    }

    /// Drop an entity from the field set; reports whether it was there.
    pub fn remove_from_field(&mut self, entity: Entity) -> (r: bool)
        requires
            old(self).wf(),
        ensures
            final(self).wf(),
            r == old(self)@.on_field.contains(entity),
            final(self)@ == (LookupView {
                on_field: old(self)@.on_field.remove(entity),
                ..old(self)@
            }),
    {
        let found = find_entity(&self.on_field_lookup, entity);
        match found {
            Some(i) => {
                proof {
                    lemma_to_set_remove(self.on_field_lookup@, i as int);
                }
                self.on_field_lookup.remove(i);
                true
            },
            None => {
                proof {
                    assert(self@.on_field.remove(entity) =~= self@.on_field);
                }
                false
            },
        }
    }

    /// Drop every trace of an agent from the per-agent sub-indices. Member,
    /// slot and occupancy entries are untouched: those are cleaned per
    /// entity, not per agent.
    pub fn clean_agent_associate_values(&mut self, agent: Entity)
        requires
            old(self).wf(),
        ensures
            final(self).wf(),
            final(self)@ == (LookupView {
                owned: owned_without_agent(old(self)@.owned, agent),
                hand: hand_without_agent(old(self)@.hand, agent),
                ..old(self)@
            }),
    {
        let owned = retain_other_agents(&self.agent_lookup, agent);
        let hand = retain_other_agents(&self.on_hand_lookup, agent);
        proof {
            let s = self.agent_lookup@;
            lemma_hand_without_agent_elems(s, agent);
            assert forall|pr: (Entity, Entity)| #[trigger]
                hand_without_agent(s, agent).to_set().contains(pr) <==> owned_without_agent(
                s.to_set(),
                agent,
            ).contains(pr) by {}
            assert(hand_without_agent(s, agent).to_set() =~= owned_without_agent(
                s.to_set(),
                agent,
            ));
        }
        self.agent_lookup = owned;
        self.on_hand_lookup = hand;
    }

    /// Whether an entity is a member of the board.
    pub fn contains_entity(&self, entity: Entity) -> (r: bool)
        ensures
            r == self@.members.contains(entity),
    {
        let found = find_entity(&self.on_board_lookup, entity);
        found.is_some()
    }

    /// The member entities, without duplicates.
    pub fn get_entities(&self) -> (r: &Vec<Entity>)
        requires
            self.wf(),
        ensures
            seq_no_dup(r@),
            r@.to_set() == self@.members,
    {
        &self.on_board_lookup
    }

    /// Whether an entity is on the field.
    pub fn is_on_field(&self, entity: Entity) -> (r: bool)
        ensures
            r == self@.on_field.contains(entity),
    {
        let found = find_entity(&self.on_field_lookup, entity);
        found.is_some()
    }

    /// The field entities, without duplicates.
    pub fn get_entities_on_field(&self) -> (r: &Vec<Entity>)
        requires
            self.wf(),
        ensures
            seq_no_dup(r@),
            r@.to_set() == self@.on_field,
    {
        &self.on_field_lookup
    }

    /// The entities owned by an agent, without duplicates.
    pub fn get_by_agent(&self, agent: Entity) -> (r: Vec<Entity>)
        requires
            self.wf(),
        ensures
            seq_no_dup(r@),
            forall|e: Entity| #[trigger] r@.contains(e) <==> self@.owned.contains((agent, e)),
    {
        let mut r: Vec<Entity> = Vec::new();
        let n = self.agent_lookup.len();
        let mut i: usize = 0;
        proof {
            assert(self.agent_lookup@.subrange(0, 0) =~= Seq::<(Entity, Entity)>::empty());
        }
        while i < n
            invariant
                n == self.agent_lookup.len(),
                i <= n,
                r@ == hand_of_seq(self.agent_lookup@.subrange(0, i as int), agent),
            decreases n - i,
        {
            let pr = self.agent_lookup[i];
            proof {
                let s = self.agent_lookup@;
                let pre = s.subrange(0, i as int);
                let cur = s.subrange(0, i + 1);
                assert(cur =~= pre.push(s[i as int]));
                assert(cur.drop_last() =~= pre);
                assert(cur.last() == s[i as int]);
            }
            if pr.0.0 == agent.0 {
                proof {
                    assert(pr.0 == agent);
                }
                r.push(pr.1);
            } else {
                proof {
                    assert(pr.0 != agent);
                }
            }
            i += 1;
        }
        proof {
            let s = self.agent_lookup@;
            assert(s.subrange(0, n as int) =~= s);
            lemma_hand_of_seq_no_dup(s, agent);
            lemma_hand_of_seq_elems(s, agent);
        }
        r
    }

    /// The cards of an agent's hand, in insertion order.
    pub fn get_by_hand(&self, agent: Entity) -> (r: Vec<Entity>)
        requires
            self.wf(),
        ensures
            r@ == self@.hand_of(agent),
    {
        let mut r: Vec<Entity> = Vec::new();
        let n = self.on_hand_lookup.len();
        let mut i: usize = 0;
        proof {
            assert(self.on_hand_lookup@.subrange(0, 0) =~= Seq::<(Entity, Entity)>::empty());
        }
        while i < n
            invariant
                n == self.on_hand_lookup.len(),
                i <= n,
                r@ == hand_of_seq(self.on_hand_lookup@.subrange(0, i as int), agent),
            decreases n - i,
        {
            let pr = self.on_hand_lookup[i];
            proof {
                let s = self.on_hand_lookup@;
                let pre = s.subrange(0, i as int);
                let cur = s.subrange(0, i + 1);
                assert(cur =~= pre.push(s[i as int]));
                assert(cur.drop_last() =~= pre);
                assert(cur.last() == s[i as int]);
            }
            if pr.0.0 == agent.0 {
                proof {
                    assert(pr.0 == agent);
                }
                r.push(pr.1);
            } else {
                proof {
                    assert(pr.0 != agent);
                }
            }
            i += 1;
        }
        proof {
            assert(self.on_hand_lookup@.subrange(0, n as int) =~= self.on_hand_lookup@);
        }
        r
    }

    /// The slot entity recorded at a position.
    pub fn get_on_slot(&self, pos: IVec3) -> (r: Option<Entity>)
        requires
            self.wf(),
        ensures
            r == if self@.slots.contains_key(pos) {
                Some(self@.slots[pos])
            } else {
                None::<Entity>
            },
    {
        let found = find_key(&self.slots_lookup, pos);
        match found {
            Some(i) => {
                proof {
                    lemma_assoc_at(self.slots_lookup@, i as int);
                }
                Some(self.slots_lookup[i].1)
            },
            None => None,
        }
    }

    /// The occupant recorded at a position.
    pub fn get_occupant(&self, pos: IVec3) -> (r: Option<Entity>)
        requires
            self.wf(),
        ensures
            r == if self@.occupied.contains_key(pos) {
                Some(self@.occupied[pos])
            } else {
                None::<Entity>
            },
    {
        let found = find_key(&self.on_slot_lookup, pos);
        match found {
            Some(i) => {
                proof {
                    lemma_assoc_at(self.on_slot_lookup@, i as int);
                }
                Some(self.on_slot_lookup[i].1)
            },
            None => None,
        }
    }

    /// The (position, slot entity) entries, with each position once.
    pub fn get_slots(&self) -> (r: &Vec<(IVec3, Entity)>)
        requires
            self.wf(),
        ensures
            assoc_unique(r@),
            assoc_map(r@) == self@.slots,
    {
        &self.slots_lookup
    }
}

/// First index holding the entity, if any.
fn find_entity(v: &Vec<Entity>, entity: Entity) -> (r: Option<usize>)
    ensures
        match r {
            Some(i) => i < v@.len() && v@[i as int] == entity,
            None => !v@.contains(entity),
        },
{
    let n = v.len();
    let mut i: usize = 0;
    while i < n
        invariant
            n == v.len(),
            i <= n,
            forall|j: int| 0 <= j < i ==> v@[j] != entity,
        decreases n - i,
    {
        if v[i].0 == entity.0 {
            proof {
                assert(v@[i as int] == entity);
            }
            return Some(i);
        }
        i += 1;
    }
    proof {
        assert forall|j: int| 0 <= j < v@.len() implies v@[j] != entity by {}
    }
    None
}

/// First index holding the (agent, entity) pair, if any.
fn find_pair(v: &Vec<(Entity, Entity)>, agent: Entity, entity: Entity) -> (r: Option<usize>)
    ensures
        match r {
            Some(i) => i < v@.len() && v@[i as int] == (agent, entity),
            None => !v@.contains((agent, entity)),
        },
{
    let n = v.len();
    let mut i: usize = 0;
    while i < n
        invariant
            n == v.len(),
            i <= n,
            forall|j: int| 0 <= j < i ==> v@[j] != (agent, entity),
        decreases n - i,
    {
        if v[i].0.0 == agent.0 && v[i].1.0 == entity.0 {
            proof {
                assert(v@[i as int] == (agent, entity));
            }
            return Some(i);
        }
        i += 1;
    }
    None
}

/// First index keyed by the position, if any.
fn find_key(v: &Vec<(IVec3, Entity)>, pos: IVec3) -> (r: Option<usize>)
    ensures
        match r {
            Some(i) => i < v@.len() && v@[i as int].0 == pos,
            None => !assoc_has_key(v@, pos),
        },
{
    let n = v.len();
    let mut i: usize = 0;
    while i < n
        invariant
            n == v.len(),
            i <= n,
            forall|j: int| 0 <= j < i ==> (#[trigger] v@[j]).0 != pos,
        decreases n - i,
    {
        let p = v[i].0;
        if p.x == pos.x && p.y == pos.y && p.z == pos.z {
            proof {
                assert(v@[i as int].0 == pos);
            }
            return Some(i);
        }
        i += 1;
    }
    None
}

/// The pairs whose agent differs from the given one, in order.
fn retain_other_agents(v: &Vec<(Entity, Entity)>, agent: Entity) -> (r: Vec<(Entity, Entity)>)
    requires
        seq_no_dup(v@),
    ensures
        seq_no_dup(r@),
        r@ == hand_without_agent(v@, agent),
{
    let mut r: Vec<(Entity, Entity)> = Vec::new();
    let n = v.len();
    let mut i: usize = 0;
    proof {
        assert(v@.subrange(0, 0) =~= Seq::<(Entity, Entity)>::empty());
    }
    while i < n
        invariant
            n == v.len(),
            i <= n,
            seq_no_dup(v@),
            r@ == hand_without_agent(v@.subrange(0, i as int), agent),
        decreases n - i,
    {
        let pr = v[i];
        proof {
            let s = v@;
            let pre = s.subrange(0, i as int);
            let cur = s.subrange(0, i + 1);
            assert(cur =~= pre.push(s[i as int]));
            assert(cur.drop_last() =~= pre);
            assert(cur.last() == s[i as int]);
        }
        if !(pr.0.0 == agent.0) {
            proof {
                assert(pr.0 != agent);
            }
            r.push(pr);
        } else {
            proof {
                assert(pr.0 == agent);
            }
        }
        i += 1;
    }
    proof {
        assert(v@.subrange(0, n as int) =~= v@);
        lemma_hand_without_agent_no_dup(v@, agent);
    }
    r
}

} // verus!
