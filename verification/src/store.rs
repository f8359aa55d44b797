//! The entity store and the attach/detach protocol.
//!
//! Entities live in an arena of records; each record holds the relationship
//! components attached to one entity. Boards are entities with board data
//! beside them. Every mutation of a relationship component goes through an
//! explicit attach or detach operation here, which both changes the record
//! and maintains the owning board's lookup index in the same step — so at
//! every observation point each board's index agrees exactly with the
//! components present on the entities, whatever order the attachments
//! arrived in.

use vstd::prelude::*;

use crate::assoc::{assoc_at, assoc_has_key, assoc_unique, lemma_assoc_at, lemma_assoc_set_value, seq_no_dup};
use crate::board::Board;
use crate::components::{AgentOwned, BoardSlot, EntityRecord, OnBoard, OnSlot};
use crate::entity::{Entity, IVec3};
use crate::lookup::LookupView;
use crate::stage::BoardStage;

verus! {

/// The record of an entity in an arena snapshot; None for never-spawned or
/// despawned ids.
pub open spec fn rec_of(records: Seq<Option<EntityRecord>>, e: Entity) -> Option<EntityRecord> {
    if (e.0 as int) < records.len() {
        records[e.0 as int]
    } else {
        None
    }
}

/// The entity is alive and carries board-membership pointing at `b`.
pub open spec fn is_member_rec(records: Seq<Option<EntityRecord>>, e: Entity, b: Entity) -> bool {
    rec_of(records, e) matches Some(r) && r.on_board == Some(OnBoard(b))
}

/// The entity is alive and owned by agent `a`.
pub open spec fn has_owner(records: Seq<Option<EntityRecord>>, e: Entity, a: Entity) -> bool {
    rec_of(records, e) matches Some(r) && r.agent_owned == Some(AgentOwned(a))
}

/// The entity is alive and carries the hand-membership marker.
pub open spec fn has_hand_marker(records: Seq<Option<EntityRecord>>, e: Entity) -> bool {
    rec_of(records, e) matches Some(r) && r.on_hand
}

/// The entity is alive and carries the field-presence marker.
pub open spec fn has_field_marker(records: Seq<Option<EntityRecord>>, e: Entity) -> bool {
    rec_of(records, e) matches Some(r) && r.on_field
}

/// The entity is a member slot of board `b` placed at position `p`.
pub open spec fn is_slot_at(
    records: Seq<Option<EntityRecord>>,
    s: Entity,
    b: Entity,
    p: IVec3,
) -> bool {
    is_member_rec(records, s, b) && (rec_of(records, s) matches Some(r) && r.slot == Some(
        BoardSlot(p),
    ))
}

/// The entity is a member of board `b` occupying the slot at position `p`:
/// it carries slot-occupancy whose target is a member slot of `b` at `p`.
pub open spec fn occupies(
    records: Seq<Option<EntityRecord>>,
    e: Entity,
    b: Entity,
    p: IVec3,
) -> bool {
    is_member_rec(records, e, b) && (rec_of(records, e) matches Some(r) && (r.on_slot matches Some(
        os,
    ) && is_slot_at(records, os.0, b, p)))
}

/// A board's lookup index states exactly what the relationship components
/// on the entities state.
pub open spec fn board_consistent(
    records: Seq<Option<EntityRecord>>,
    b: Entity,
    lv: LookupView,
) -> bool {
    &&& forall|e: Entity| #[trigger] lv.members.contains(e) <==> is_member_rec(records, e, b)
    &&& forall|a: Entity, e: Entity| #[trigger]
        lv.owned.contains((a, e)) <==> is_member_rec(records, e, b) && has_owner(records, e, a)
    &&& forall|a: Entity, e: Entity| #[trigger]
        lv.hand.contains((a, e)) <==> is_member_rec(records, e, b) && has_owner(records, e, a)
            && has_hand_marker(records, e)
    &&& forall|e: Entity| #[trigger]
        lv.on_field.contains(e) <==> is_member_rec(records, e, b) && has_field_marker(records, e)
    &&& forall|s: Entity, p: IVec3| #[trigger]
        is_slot_at(records, s, b, p) ==> lv.slots.contains_key(p) && lv.slots[p] == s
    &&& forall|p: IVec3| #[trigger]
        lv.slots.contains_key(p) ==> is_slot_at(records, lv.slots[p], b, p)
    &&& forall|e: Entity, p: IVec3| #[trigger]
        occupies(records, e, b, p) ==> lv.occupied.contains_key(p) && lv.occupied[p] == e
    &&& forall|p: IVec3| #[trigger]
        lv.occupied.contains_key(p) ==> occupies(records, lv.occupied[p], b, p)
}

/// A live entity's board-membership, if any, points at an existing board.
pub open spec fn board_target_ok(
    records: Seq<Option<EntityRecord>>,
    boards: Seq<(Entity, Board)>,
    e: Entity,
) -> bool {
    match rec_of(records, e) {
        Some(r) => match r.on_board {
            Some(ob) => assoc_has_key(boards, ob.0),
            None => true,
        },
        None => true,
    }
}

/// A member's slot-occupancy, if any, targets a member slot of its own
/// board: an entity never occupies a slot that does not exist there.
pub open spec fn occupancy_target_ok(records: Seq<Option<EntityRecord>>, e: Entity) -> bool {
    match rec_of(records, e) {
        Some(r) => match (r.on_board, r.on_slot) {
            (Some(ob), Some(os)) => is_member_rec(records, os.0, ob.0) && (rec_of(records, os.0)
                matches Some(rs) && rs.slot is Some),
            _ => true,
        },
        None => true,
    }
}

/// The occupancy map with any entry valued at the given entity dropped.
pub open spec fn occupied_without(lv: LookupView, e: Entity) -> Map<IVec3, Entity> {
    Map::new(
        |p: IVec3| lv.occupied.contains_key(p) && lv.occupied[p] != e,
        |p: IVec3| lv.occupied[p],
    )
}

/// Why an attach operation was rejected. A rejected attach changes
/// nothing.
#[derive(Clone, Copy, PartialEq, Eq, Structural, Debug)]
pub enum AttachError {
    /// The entity is not alive.
    NoSuchEntity,
    /// The entity already carries the component.
    AlreadyAttached,
    /// The named board does not exist.
    NoSuchBoard,
    /// A slot already stands at the position on that board.
    PositionTaken,
    /// The occupancy target is not a member slot of the entity's board.
    SlotMissing,
}

/// What an accepted board-membership attach did beyond attaching: which
/// stale occupant was evicted from the slot the entity occupies, and
/// whether an unresolvable slot-occupancy component was cleared.
#[derive(Clone, Copy, PartialEq, Eq, Structural, Debug)]
pub struct AttachBoardOutcome {
    pub evicted: Option<Entity>,
    pub occupancy_cleared: bool,
}

/// What a successful agent-ownership attach does: the record gains the
/// owner, and on the entity's board the owned pair is indexed, plus the
/// hand pair when the hand marker was already present.
pub open spec fn attach_agent_owned_post(
    pre: EntityStore,
    post: EntityStore,
    entity: Entity,
    agent: Entity,
) -> bool {
    let r1 = pre.rec(entity).unwrap();
    let r2 = EntityRecord { agent_owned: Some(AgentOwned(agent)), ..r1 };
    &&& pre.alive(entity)
    &&& r1.agent_owned is None
    &&& post.recs() == pre.recs().update(entity.0 as int, Some(r2))
    &&& match r1.on_board {
        Some(ob) => {
            &&& pre.boards_unchanged_except(post, ob.0)
            &&& pre.board_data_unchanged(post, ob.0)
            &&& post.lookup_of(ob.0) == (LookupView {
                owned: pre.lookup_of(ob.0).owned.insert((agent, entity)),
                hand: if r1.on_hand {
                    pre.lookup_of(ob.0).hand.push((agent, entity))
                } else {
                    pre.lookup_of(ob.0).hand
                },
                ..pre.lookup_of(ob.0)
            })
        },
        None => post.boards_seq() == pre.boards_seq(),
    }
}

/// What a successful hand-marker attach does when the marker was absent:
/// the record gains the marker, and with ownership already present on a
/// board member the pair enters the back of that agent's hand.
pub open spec fn attach_on_hand_post(pre: EntityStore, post: EntityStore, entity: Entity) -> bool {
    let r1 = pre.rec(entity).unwrap();
    let r2 = EntityRecord { on_hand: true, ..r1 };
    &&& pre.alive(entity)
    &&& !r1.on_hand
    &&& post.recs() == pre.recs().update(entity.0 as int, Some(r2))
    &&& match (r1.on_board, r1.agent_owned) {
        (Some(ob), Some(ao)) => {
            &&& pre.boards_unchanged_except(post, ob.0)
            &&& pre.board_data_unchanged(post, ob.0)
            &&& post.lookup_of(ob.0) == (LookupView {
                hand: pre.lookup_of(ob.0).hand.push((ao.0, entity)),
                ..pre.lookup_of(ob.0)
            })
        },
        _ => post.boards_seq() == pre.boards_seq(),
    }
}

/// The arena of entities and their boards. All relationship mutation goes
/// through this store; see the module comment.
pub struct EntityStore {
    records: Vec<Option<EntityRecord>>,
    boards: Vec<(Entity, Board)>,
}

impl EntityStore {
    /// The entity records, by entity id.
    pub closed spec fn recs(self) -> Seq<Option<EntityRecord>> {
        self.records@
    }

    /// The (board entity, board) entries.
    pub closed spec fn boards_seq(self) -> Seq<(Entity, Board)> {
        self.boards@
    }

    /// Whether an entity carries board data.
    pub open spec fn has_board(self, b: Entity) -> bool {
        assoc_has_key(self.boards_seq(), b)
    }

    /// The board data of a board entity.
    pub open spec fn board_of(self, b: Entity) -> Board {
        assoc_at(self.boards_seq(), b)
    }

    /// The lookup index view of a board.
    pub open spec fn lookup_of(self, b: Entity) -> LookupView {
        self.board_of(b).lookup@
    }

    /// The turn state of a board.
    pub open spec fn state_of(self, b: Entity) -> crate::state::BoardState {
        self.board_of(b).state
    }

    /// The record of an entity.
    pub open spec fn rec(self, e: Entity) -> Option<EntityRecord> {
        rec_of(self.recs(), e)
    }

    /// Whether the entity is spawned and not despawned.
    pub open spec fn alive(self, e: Entity) -> bool {
        self.rec(e) is Some
    }

    /// The store's invariant: board keys are unique and alive, each board
    /// is well formed and its index agrees with the records, memberships
    /// point at existing boards, and occupancies of members target member
    /// slots of their own board.
    pub open spec fn wf(self) -> bool {
        &&& assoc_unique(self.boards_seq())
        &&& forall|i: int|
            0 <= i < self.boards_seq().len() ==> (#[trigger] self.boards_seq()[i]).1.wf()
        &&& forall|i: int|
            0 <= i < self.boards_seq().len() ==> board_consistent(
                self.recs(),
                self.boards_seq()[i].0,
                (#[trigger] self.boards_seq()[i]).1.lookup@,
            )
        &&& forall|i: int|
            0 <= i < self.boards_seq().len() ==> rec_of(
                self.recs(),
                (#[trigger] self.boards_seq()[i]).0,
            ) is Some
        &&& forall|e: Entity| #[trigger] board_target_ok(self.recs(), self.boards_seq(), e)
        &&& forall|e: Entity| #[trigger] occupancy_target_ok(self.recs(), e)
    }

    /// Under the invariant, an existing board's data is well formed and its
    /// index agrees with the records.
    pub proof fn lemma_board_facts(self, b: Entity)
        requires
            self.wf(),
            self.has_board(b),
        ensures
            self.board_of(b).wf(),
            board_consistent(self.recs(), b, self.lookup_of(b)),
            self.alive(b),
    {
        let i = choose|i: int|
            0 <= i < self.boards_seq().len() && (#[trigger] self.boards_seq()[i]).0 == b;
        lemma_assoc_at(self.boards_seq(), i);
        assert(self.boards_seq()[i].1.wf());
        assert(board_consistent(self.recs(), b, self.boards_seq()[i].1.lookup@));
        assert(rec_of(self.recs(), b) is Some);
    }

    /// The entity `s` can serve as an occupancy target on board `b`: it is
    /// a member of `b` and carries a slot identity.
    pub open spec fn valid_slot_target(self, b: Entity, s: Entity) -> bool {
        is_member_rec(self.recs(), s, b) && (self.rec(s) matches Some(rs) && rs.slot is Some)
    }

    /// Boards other than `b` are untouched, and no board appeared or
    /// disappeared.
    pub open spec fn boards_unchanged_except(self, post: EntityStore, b: Entity) -> bool {
        &&& forall|x: Entity| #[trigger] post.has_board(x) == self.has_board(x)
        &&& forall|x: Entity|
            x != b && self.has_board(x) ==> #[trigger] post.board_of(x) == self.board_of(x)
    }

    /// A board's non-index data is untouched.
    pub open spec fn board_data_unchanged(self, post: EntityStore, b: Entity) -> bool {
        post.board_of(b).state == self.board_of(b).state && post.board_of(b).client_is_on_board
            == self.board_of(b).client_is_on_board
    }

    /// An empty store.
    pub fn new() -> (r: EntityStore)
        ensures
            r.wf(),
            r.recs().len() == 0,
            r.boards_seq().len() == 0,
    {
        EntityStore { records: Vec::new(), boards: Vec::new() }
    }

    /// Spawn a fresh entity with no components.
    pub fn spawn(&mut self) -> (e: Entity)
        requires
            old(self).wf(),
        ensures
            final(self).wf(),
            e.0 == old(self).recs().len(),
            final(self).recs() == old(self).recs().push(Some(EntityRecord::spec_empty())),
            final(self).boards_seq() == old(self).boards_seq(),
    {
        let id = self.records.len();
        self.records.push(Some(EntityRecord::empty()));
        let e = Entity(id);
        proof {
            let r1 = old(self).recs();
            let r2 = self.recs();
            assert forall|x: Entity| #[trigger]
                rec_of(r2, x) == if x.0 == id {
                    Some(EntityRecord::spec_empty())
                } else {
                    rec_of(r1, x)
                } by {}
            assert forall|i: int|
                0 <= i < self.boards_seq().len() implies board_consistent(
                r2,
                self.boards_seq()[i].0,
                (#[trigger] self.boards_seq()[i]).1.lookup@,
            ) by {
                let b = self.boards_seq()[i].0;
                let lv = self.boards_seq()[i].1.lookup@;
                assert(board_consistent(r1, b, lv));
                lemma_consistent_fresh(r1, b, lv, id);
            }
            assert forall|x: Entity| #[trigger]
                board_target_ok(r2, self.boards_seq(), x) by {
                assert(board_target_ok(r1, self.boards_seq(), x));
            }
            assert forall|x: Entity| #[trigger] occupancy_target_ok(r2, x) by {
                assert(occupancy_target_ok(r1, x));
                if x.0 != id && rec_of(r2, x) is Some {
                    let r = rec_of(r2, x).unwrap();
                    if r.on_board is Some && r.on_slot is Some {
                        assert(rec_of(r1, x) == rec_of(r2, x));
                    }
                }
            }
        }
        e
    }

    /// Give an alive entity board data with the given agents, making it a
    /// board. Fails (no change) if the entity is dead or already a board.
    pub fn create_board(&mut self, board_entity: Entity, agents: Vec<Entity>) -> (r: bool)
        requires
            old(self).wf(),
        ensures
            final(self).wf(),
            r == (old(self).alive(board_entity) && !old(self).has_board(board_entity)),
            !r ==> *final(self) == *old(self),
            final(self).recs() == old(self).recs(),
            r ==> {
                &&& final(self).has_board(board_entity)
                &&& final(self).state_of(board_entity).agents@ == agents@
                &&& final(self).state_of(board_entity).current_turn_agent is None
                &&& final(self).state_of(board_entity).current_turn_agent_index == 0
                &&& final(self).state_of(board_entity).stage == BoardStage::Start
                &&& final(self).state_of(board_entity).tick_triggers@.len() == 0
                &&& crate::state::tree_chain(final(self).state_of(board_entity)).len() == 0
                &&& final(self).board_of(board_entity).client_is_on_board is None
                &&& final(self).lookup_of(board_entity) == LookupView::empty()
                &&& forall|b: Entity|
                    b != board_entity ==> #[trigger] final(self).has_board(b) == old(
                        self,
                    ).has_board(b)
                &&& forall|b: Entity|
                    b != board_entity && old(self).has_board(b) ==> #[trigger] final(self).board_of(
                        b,
                    ) == old(self).board_of(b)
            },
    {
        if board_entity.0 >= self.records.len() {
            proof {
                lemma_no_board(old(self), board_entity);
            }
            return false;
        }
        let alive = self.records[board_entity.0].is_some();
        if !alive {
            proof {
                lemma_no_board(old(self), board_entity);
            }
            return false;
        }
        let existing = self.find_board(board_entity);
        if existing.is_some() {
            return false;
        }
        let bd = Board::new(agents);
        proof {
            lemma_push_board(old(self), board_entity, bd);
        }
        self.boards.push((board_entity, bd));
        true
    }

    /// First index of a board entity among the board entries.
    fn find_board(&self, b: Entity) -> (r: Option<usize>)
        requires
            assoc_unique(self.boards_seq()),
        ensures
            match r {
                Some(i) => i < self.boards_seq().len() && self.boards_seq()[i as int].0 == b
                    && self.has_board(b) && self.boards_seq()[i as int].1 == self.board_of(b),
                None => !self.has_board(b),
            },
    {
        let n = self.boards.len();
        let mut i: usize = 0;
        while i < n
            invariant
                n == self.boards.len(),
                i <= n,
                assoc_unique(self.boards_seq()),
                forall|j: int| 0 <= j < i ==> (#[trigger] self.boards@[j]).0 != b,
            decreases n - i,
        {
            if self.boards[i].0.0 == b.0 {
                proof {
                    assert(self.boards_seq()[i as int].0 == b);
                    lemma_assoc_at(self.boards_seq(), i as int);
                }
                return Some(i);
            }
            i += 1;
        }
        None
    }

    /// Attach agent-ownership to an entity, indexing it under the agent on
    /// the board it is a member of (and into the agent's hand when the hand
    /// marker is already present). Rejected with no change when the entity
    /// is dead or already owned.
    pub fn attach_agent_owned(&mut self, entity: Entity, agent: Entity) -> (r: Result<
        (),
        AttachError,
    >)
        requires
            old(self).wf(),
        ensures
            final(self).wf(),
            r == Err::<(), AttachError>(AttachError::NoSuchEntity) <==> !old(self).alive(entity),
            r == Err::<(), AttachError>(AttachError::AlreadyAttached) <==> old(self).alive(entity)
                && old(self).rec(entity).unwrap().agent_owned is Some,
            r is Err <==> !old(self).alive(entity) || old(self).rec(entity).unwrap().agent_owned
                is Some,
            r is Err ==> *final(self) == *old(self),
            r is Ok ==> attach_agent_owned_post(*old(self), *final(self), entity, agent),
    {
        if entity.0 >= self.records.len() {
            return Err(AttachError::NoSuchEntity);
        }
        let rec0 = self.records[entity.0];
        let r1 = match rec0 {
            Some(r) => r,
            None => {
                return Err(AttachError::NoSuchEntity);
            },
        };
        if r1.agent_owned.is_some() {
            return Err(AttachError::AlreadyAttached);
        }
        let r2 = EntityRecord { agent_owned: Some(AgentOwned(agent)), ..r1 };
        self.records[entity.0] = Some(r2);
        proof {
            lemma_same_membership_fields(
                old(self).recs(),
                old(self).boards_seq(),
                entity.0 as int,
                r2,
            );
        }
        match r1.on_board {
            Some(ob) => {
                let bi = match self.find_board(ob.0) {
                    Some(bi) => bi,
                    None => {
                        proof {
                            assert(board_target_ok(
                                old(self).recs(),
                                old(self).boards_seq(),
                                entity,
                            ));
                        }
                        vstd::pervasive::unreached()
                    },
                };
                proof {
                    assert(self.boards_seq()[bi as int].1.wf());
                }
                let mut entry = self.boards.remove(bi);
                entry.1.lookup.insert_by_agent(agent, entity);
                if r1.on_hand {
                    proof {
                        if entry.1.lookup@.hand.contains((agent, entity)) {
                            assert(board_consistent(
                                old(self).recs(),
                                ob.0,
                                old(self).lookup_of(ob.0),
                            ));
                            assert(has_owner(old(self).recs(), entity, agent));
                        }
                    }
                    entry.1.lookup.insert_on_hand(agent, entity);
                }
                self.boards.insert(bi, entry);
                proof {
                    self.lemma_after_record_and_board_update(
                        *old(self),
                        entity,
                        r2,
                        bi as int,
                        ob.0,
                    );
                    let lvold = old(self).lookup_of(ob.0);
                    let lv2 = self.lookup_of(ob.0);
                    let recs2 = self.recs();
                    assert(board_consistent(old(self).recs(), ob.0, lvold));
                    crate::assoc::lemma_push_contains(lvold.hand, (agent, entity));
                    assert forall|a2: Entity, e2: Entity| #[trigger]
                        lv2.owned.contains((a2, e2)) <==> is_member_rec(recs2, e2, ob.0)
                            && has_owner(recs2, e2, a2) by {
                        assert(lvold.owned.contains((a2, e2)) <==> is_member_rec(
                            old(self).recs(),
                            e2,
                            ob.0,
                        ) && has_owner(old(self).recs(), e2, a2));
                    }
                    assert forall|a2: Entity, e2: Entity| #[trigger]
                        lv2.hand.contains((a2, e2)) <==> is_member_rec(recs2, e2, ob.0)
                            && has_owner(recs2, e2, a2) && has_hand_marker(recs2, e2) by {
                        assert(lvold.hand.contains((a2, e2)) <==> is_member_rec(
                            old(self).recs(),
                            e2,
                            ob.0,
                        ) && has_owner(old(self).recs(), e2, a2) && has_hand_marker(
                            old(self).recs(),
                            e2,
                        ));
                    }
                    assert forall|x: Entity| #[trigger]
                        assoc_has_key(self.boards_seq(), x) == assoc_has_key(
                        old(self).boards_seq(),
                        x,
                    ) by {
                        assert(self.has_board(x) == old(self).has_board(x));
                    }
                    assert forall|x: Entity| #[trigger]
                        board_target_ok(recs2, self.boards_seq(), x) by {
                        assert(board_target_ok(recs2, old(self).boards_seq(), x));
                    }
                    assert forall|x: Entity| #[trigger] occupancy_target_ok(recs2, x) by {
                        assert(occupancy_target_ok(old(self).recs(), x));
                    }
                    self.lemma_close_consistency(*old(self), entity, r2, bi as int, ob.0);
                }
                Ok(())
            },
            None => {
                proof {
                    let recs2 = self.recs();
                    assert(self.boards_seq() == old(self).boards_seq());
                    assert forall|i: int|
                        0 <= i < self.boards_seq().len() implies board_consistent(
                        recs2,
                        self.boards_seq()[i].0,
                        (#[trigger] self.boards_seq()[i]).1.lookup@,
                    ) by {
                        let b2 = self.boards_seq()[i].0;
                        assert(board_consistent(
                            old(self).recs(),
                            b2,
                            old(self).boards_seq()[i].1.lookup@,
                        ));
                        lemma_consistent_untouched(
                            old(self).recs(),
                            b2,
                            self.boards_seq()[i].1.lookup@,
                            entity.0 as int,
                            Some(r2),
                        );
                    }
                }
                Ok(())
            },
        }
    }


    /// Detach agent-ownership from an entity, dropping it from the agent's
    /// owned set and hand on the board it is a member of. Reports whether
    /// anything was detached.
    pub fn detach_agent_owned(&mut self, entity: Entity) -> (r: bool)
        requires
            old(self).wf(),
        ensures
            final(self).wf(),
            r == (old(self).alive(entity) && old(self).rec(entity).unwrap().agent_owned is Some),
            !r ==> *final(self) == *old(self),
            r ==> {
                let r1 = old(self).rec(entity).unwrap();
                let a = r1.agent_owned.unwrap().0;
                let r2 = (EntityRecord { agent_owned: None, ..r1 });
                &&& final(self).recs() == old(self).recs().update(entity.0 as int, Some(r2))
                &&& match r1.on_board {
                    Some(ob) => {
                        &&& old(self).boards_unchanged_except(*final(self), ob.0)
                        &&& old(self).board_data_unchanged(*final(self), ob.0)
                        &&& final(self).lookup_of(ob.0) == (LookupView {
                            owned: old(self).lookup_of(ob.0).owned.remove((a, entity)),
                            hand: if r1.on_hand {
                                old(self).lookup_of(ob.0).hand.remove(
                                    old(self).lookup_of(ob.0).hand.index_of((a, entity)),
                                )
                            } else {
                                old(self).lookup_of(ob.0).hand
                            },
                            ..old(self).lookup_of(ob.0)
                        })
                    },
                    None => final(self).boards_seq() == old(self).boards_seq(),
                }
            },
    {
        if entity.0 >= self.records.len() {
            return false;
        }
        let rec0 = self.records[entity.0];
        let r1 = match rec0 {
            Some(r) => r,
            None => {
                return false;
            },
        };
        let a = match r1.agent_owned {
            Some(ao) => ao.0,
            None => {
                return false;
            },
        };
        let r2 = EntityRecord { agent_owned: None, ..r1 };
        self.records[entity.0] = Some(r2);
        proof {
            lemma_same_membership_fields(
                old(self).recs(),
                old(self).boards_seq(),
                entity.0 as int,
                r2,
            );
        }
        match r1.on_board {
            Some(ob) => {
                let bi = match self.find_board(ob.0) {
                    Some(bi) => bi,
                    None => {
                        proof {
                            assert(board_target_ok(
                                old(self).recs(),
                                old(self).boards_seq(),
                                entity,
                            ));
                        }
                        vstd::pervasive::unreached()
                    },
                };
                proof {
                    assert(self.boards_seq()[bi as int].1.wf());
                    self.boards_seq()[bi as int].1.lookup.lemma_hand_no_dup();
                    assert(board_consistent(old(self).recs(), ob.0, old(self).lookup_of(ob.0)));
                }
                let mut entry = self.boards.remove(bi);
                let ghost hand0 = entry.1.lookup@.hand;
                if r1.on_hand {
                    proof {
                        assert(has_owner(old(self).recs(), entity, a));
                        assert(has_hand_marker(old(self).recs(), entity));
                        assert(entry.1.lookup@.hand.contains((a, entity)));
                        crate::assoc::lemma_remove_contains(
                            hand0,
                            hand0.index_of((a, entity)),
                        );
                    }
                    entry.1.lookup.remove_from_hand(a, entity);
                } else {
                    proof {
                        if entry.1.lookup@.hand.contains((a, entity)) {
                            assert(has_hand_marker(old(self).recs(), entity));
                        }
                    }
                }
                entry.1.lookup.remove_from_agent(a, entity);
                self.boards.insert(bi, entry);
                proof {
                    self.lemma_after_record_and_board_update(
                        *old(self),
                        entity,
                        r2,
                        bi as int,
                        ob.0,
                    );
                    let lvold = old(self).lookup_of(ob.0);
                    let lv2 = self.lookup_of(ob.0);
                    let recs2 = self.recs();
                    assert forall|a2: Entity, e2: Entity| #[trigger]
                        lv2.owned.contains((a2, e2)) <==> is_member_rec(recs2, e2, ob.0)
                            && has_owner(recs2, e2, a2) by {
                        assert(lvold.owned.contains((a2, e2)) <==> is_member_rec(
                            old(self).recs(),
                            e2,
                            ob.0,
                        ) && has_owner(old(self).recs(), e2, a2));
                    }
                    assert forall|a2: Entity, e2: Entity| #[trigger]
                        lv2.hand.contains((a2, e2)) <==> is_member_rec(recs2, e2, ob.0)
                            && has_owner(recs2, e2, a2) && has_hand_marker(recs2, e2) by {
                        assert(lvold.hand.contains((a2, e2)) <==> is_member_rec(
                            old(self).recs(),
                            e2,
                            ob.0,
                        ) && has_owner(old(self).recs(), e2, a2) && has_hand_marker(
                            old(self).recs(),
                            e2,
                        ));
                    }
                    assert forall|x: Entity| #[trigger]
                        assoc_has_key(self.boards_seq(), x) == assoc_has_key(
                        old(self).boards_seq(),
                        x,
                    ) by {
                        assert(self.has_board(x) == old(self).has_board(x));
                    }
                    assert forall|x: Entity| #[trigger]
                        board_target_ok(recs2, self.boards_seq(), x) by {
                        assert(board_target_ok(recs2, old(self).boards_seq(), x));
                    }
                    assert forall|x: Entity| #[trigger] occupancy_target_ok(recs2, x) by {
                        assert(occupancy_target_ok(old(self).recs(), x));
                    }
                    self.lemma_close_consistency(*old(self), entity, r2, bi as int, ob.0);
                }
                true
            },
            None => {
                proof {
                    let recs2 = self.recs();
                    assert(self.boards_seq() == old(self).boards_seq());
                    assert forall|i: int|
                        0 <= i < self.boards_seq().len() implies board_consistent(
                        recs2,
                        self.boards_seq()[i].0,
                        (#[trigger] self.boards_seq()[i]).1.lookup@,
                    ) by {
                        let b2 = self.boards_seq()[i].0;
                        assert(board_consistent(
                            old(self).recs(),
                            b2,
                            old(self).boards_seq()[i].1.lookup@,
                        ));
                        lemma_consistent_untouched(
                            old(self).recs(),
                            b2,
                            self.boards_seq()[i].1.lookup@,
                            entity.0 as int,
                            Some(r2),
                        );
                    }
                }
                true
            },
        }
    }


    /// Attach the hand-membership marker. With ownership already present on
    /// a board member, the card enters the back of that agent's hand. A
    /// marker already present is left as is.
    pub fn attach_on_hand(&mut self, entity: Entity) -> (r: Result<(), AttachError>)
        requires
            old(self).wf(),
        ensures
            final(self).wf(),
            r is Err <==> !old(self).alive(entity),
            r is Err ==> *final(self) == *old(self) && r == Err::<(), AttachError>(
                AttachError::NoSuchEntity,
            ),
            r is Ok && old(self).rec(entity).unwrap().on_hand ==> *final(self) == *old(self),
            r is Ok && !old(self).rec(entity).unwrap().on_hand ==> attach_on_hand_post(
                *old(self),
                *final(self),
                entity,
            ),
    {
        if entity.0 >= self.records.len() {
            return Err(AttachError::NoSuchEntity);
        }
        let rec0 = self.records[entity.0];
        let r1 = match rec0 {
            Some(r) => r,
            None => {
                return Err(AttachError::NoSuchEntity);
            },
        };
        if r1.on_hand {
            return Ok(());
        }
        let r2 = EntityRecord { on_hand: true, ..r1 };
        self.records[entity.0] = Some(r2);
        proof {
            lemma_same_membership_fields(
                old(self).recs(),
                old(self).boards_seq(),
                entity.0 as int,
                r2,
            );
            lemma_same_owner(old(self).recs(), entity.0 as int, r2);
            lemma_same_field_marker(old(self).recs(), entity.0 as int, r2);
        }
        match (r1.on_board, r1.agent_owned) {
            (Some(ob), Some(ao)) => {
                let bi = match self.find_board(ob.0) {
                    Some(bi) => bi,
                    None => {
                        proof {
                            assert(board_target_ok(
                                old(self).recs(),
                                old(self).boards_seq(),
                                entity,
                            ));
                        }
                        vstd::pervasive::unreached()
                    },
                };
                proof {
                    assert(self.boards_seq()[bi as int].1.wf());
                    assert(board_consistent(old(self).recs(), ob.0, old(self).lookup_of(ob.0)));
                }
                let mut entry = self.boards.remove(bi);
                proof {
                    if entry.1.lookup@.hand.contains((ao.0, entity)) {
                        assert(has_hand_marker(old(self).recs(), entity));
                    }
                }
                entry.1.lookup.insert_on_hand(ao.0, entity);
                self.boards.insert(bi, entry);
                proof {
                    self.lemma_after_record_and_board_update(
                        *old(self),
                        entity,
                        r2,
                        bi as int,
                        ob.0,
                    );
                    let lvold = old(self).lookup_of(ob.0);
                    let lv2 = self.lookup_of(ob.0);
                    let recs2 = self.recs();
                    lemma_carry_structural(old(self).recs(), recs2, ob.0, lvold, lv2);
                    assert forall|a2: Entity, e2: Entity| #[trigger]
                        lv2.owned.contains((a2, e2)) <==> is_member_rec(recs2, e2, ob.0)
                            && has_owner(recs2, e2, a2) by {
                        assert(lvold.owned.contains((a2, e2)) <==> is_member_rec(
                            old(self).recs(),
                            e2,
                            ob.0,
                        ) && has_owner(old(self).recs(), e2, a2));
                    }
                    assert forall|e2: Entity| #[trigger]
                        lv2.on_field.contains(e2) <==> is_member_rec(recs2, e2, ob.0)
                            && has_field_marker(recs2, e2) by {
                        assert(lvold.on_field.contains(e2) <==> is_member_rec(
                            old(self).recs(),
                            e2,
                            ob.0,
                        ) && has_field_marker(old(self).recs(), e2));
                    }
                    crate::assoc::lemma_push_contains(lvold.hand, (ao.0, entity));
                    assert forall|a2: Entity, e2: Entity| #[trigger]
                        lv2.hand.contains((a2, e2)) <==> is_member_rec(recs2, e2, ob.0)
                            && has_owner(recs2, e2, a2) && has_hand_marker(recs2, e2) by {
                        assert(lvold.hand.contains((a2, e2)) <==> is_member_rec(
                            old(self).recs(),
                            e2,
                            ob.0,
                        ) && has_owner(old(self).recs(), e2, a2) && has_hand_marker(
                            old(self).recs(),
                            e2,
                        ));
                    }
                    assert forall|x: Entity| #[trigger]
                        assoc_has_key(self.boards_seq(), x) == assoc_has_key(
                        old(self).boards_seq(),
                        x,
                    ) by {
                        assert(self.has_board(x) == old(self).has_board(x));
                    }
                    assert forall|x: Entity| #[trigger]
                        board_target_ok(recs2, self.boards_seq(), x) by {
                        assert(board_target_ok(recs2, old(self).boards_seq(), x));
                    }
                    assert forall|x: Entity| #[trigger] occupancy_target_ok(recs2, x) by {
                        assert(occupancy_target_ok(old(self).recs(), x));
                    }
                    self.lemma_close_consistency(*old(self), entity, r2, bi as int, ob.0);
                }
                Ok(())
            },
            _ => {
                proof {
                    let recs2 = self.recs();
                    assert forall|i: int|
                        0 <= i < self.boards_seq().len() implies board_consistent(
                        recs2,
                        self.boards_seq()[i].0,
                        (#[trigger] self.boards_seq()[i]).1.lookup@,
                    ) by {
                        let b2 = self.boards_seq()[i].0;
                        let lv = self.boards_seq()[i].1.lookup@;
                        assert(board_consistent(old(self).recs(), b2, lv));
                        if r1.on_board == Some(OnBoard(b2)) {
                            lemma_carry_structural(old(self).recs(), recs2, b2, lv, lv);
                            assert forall|a2: Entity, e2: Entity| #[trigger]
                                lv.owned.contains((a2, e2)) <==> is_member_rec(recs2, e2, b2)
                                    && has_owner(recs2, e2, a2) by {
                                assert(lv.owned.contains((a2, e2)) <==> is_member_rec(
                                    old(self).recs(),
                                    e2,
                                    b2,
                                ) && has_owner(old(self).recs(), e2, a2));
                            }
                            assert forall|a2: Entity, e2: Entity| #[trigger]
                                lv.hand.contains((a2, e2)) <==> is_member_rec(recs2, e2, b2)
                                    && has_owner(recs2, e2, a2) && has_hand_marker(recs2, e2) by {
                                assert(lv.hand.contains((a2, e2)) <==> is_member_rec(
                                    old(self).recs(),
                                    e2,
                                    b2,
                                ) && has_owner(old(self).recs(), e2, a2) && has_hand_marker(
                                    old(self).recs(),
                                    e2,
                                ));
                            }
                            assert forall|e2: Entity| #[trigger]
                                lv.on_field.contains(e2) <==> is_member_rec(recs2, e2, b2)
                                    && has_field_marker(recs2, e2) by {
                                assert(lv.on_field.contains(e2) <==> is_member_rec(
                                    old(self).recs(),
                                    e2,
                                    b2,
                                ) && has_field_marker(old(self).recs(), e2));
                            }
                        } else {
                            lemma_consistent_untouched(
                                old(self).recs(),
                                b2,
                                lv,
                                entity.0 as int,
                                Some(r2),
                            );
                        }
                    }
                }
                Ok(())
            },
        }
    }


    /// Detach the hand-membership marker, dropping the card from its
    /// agent's hand when it was indexed there. A marker already absent is
    /// left as is; reports whether the marker was present.
    pub fn detach_on_hand(&mut self, entity: Entity) -> (r: bool)
        requires
            old(self).wf(),
        ensures
            final(self).wf(),
            r == (old(self).alive(entity) && old(self).rec(entity).unwrap().on_hand),
            !r ==> *final(self) == *old(self),
            r ==> {
                let r1 = old(self).rec(entity).unwrap();
                let r2 = (EntityRecord { on_hand: false, ..r1 });
                &&& final(self).recs() == old(self).recs().update(entity.0 as int, Some(r2))
                &&& match (r1.on_board, r1.agent_owned) {
                    (Some(ob), Some(ao)) => {
                        &&& old(self).boards_unchanged_except(*final(self), ob.0)
                        &&& old(self).board_data_unchanged(*final(self), ob.0)
                        &&& final(self).lookup_of(ob.0) == (LookupView {
                            hand: old(self).lookup_of(ob.0).hand.remove(
                                old(self).lookup_of(ob.0).hand.index_of((ao.0, entity)),
                            ),
                            ..old(self).lookup_of(ob.0)
                        })
                    },
                    _ => final(self).boards_seq() == old(self).boards_seq(),
                }
            },
    {
        if entity.0 >= self.records.len() {
            return false;
        }
        let rec0 = self.records[entity.0];
        let r1 = match rec0 {
            Some(r) => r,
            None => {
                return false;
            },
        };
        if !r1.on_hand {
            return false;
        }
        let r2 = EntityRecord { on_hand: false, ..r1 };
        self.records[entity.0] = Some(r2);
        proof {
            lemma_same_membership_fields(
                old(self).recs(),
                old(self).boards_seq(),
                entity.0 as int,
                r2,
            );
            lemma_same_owner(old(self).recs(), entity.0 as int, r2);
            lemma_same_field_marker(old(self).recs(), entity.0 as int, r2);
        }
        match (r1.on_board, r1.agent_owned) {
            (Some(ob), Some(ao)) => {
                let bi = match self.find_board(ob.0) {
                    Some(bi) => bi,
                    None => {
                        proof {
                            assert(board_target_ok(
                                old(self).recs(),
                                old(self).boards_seq(),
                                entity,
                            ));
                        }
                        vstd::pervasive::unreached()
                    },
                };
                proof {
                    assert(self.boards_seq()[bi as int].1.wf());
                    self.boards_seq()[bi as int].1.lookup.lemma_hand_no_dup();
                    assert(board_consistent(old(self).recs(), ob.0, old(self).lookup_of(ob.0)));
                }
                let mut entry = self.boards.remove(bi);
                let ghost hand0 = entry.1.lookup@.hand;
                proof {
                    assert(has_hand_marker(old(self).recs(), entity));
                    assert(has_owner(old(self).recs(), entity, ao.0));
                    assert(hand0.contains((ao.0, entity)));
                    crate::assoc::lemma_remove_contains(hand0, hand0.index_of((ao.0, entity)));
                }
                entry.1.lookup.remove_from_hand(ao.0, entity);
                self.boards.insert(bi, entry);
                proof {
                    self.lemma_after_record_and_board_update(
                        *old(self),
                        entity,
                        r2,
                        bi as int,
                        ob.0,
                    );
                    let lvold = old(self).lookup_of(ob.0);
                    let lv2 = self.lookup_of(ob.0);
                    let recs2 = self.recs();
                    lemma_carry_structural(old(self).recs(), recs2, ob.0, lvold, lv2);
                    assert forall|a2: Entity, e2: Entity| #[trigger]
                        lv2.owned.contains((a2, e2)) <==> is_member_rec(recs2, e2, ob.0)
                            && has_owner(recs2, e2, a2) by {
                        assert(lvold.owned.contains((a2, e2)) <==> is_member_rec(
                            old(self).recs(),
                            e2,
                            ob.0,
                        ) && has_owner(old(self).recs(), e2, a2));
                    }
                    assert forall|e2: Entity| #[trigger]
                        lv2.on_field.contains(e2) <==> is_member_rec(recs2, e2, ob.0)
                            && has_field_marker(recs2, e2) by {
                        assert(lvold.on_field.contains(e2) <==> is_member_rec(
                            old(self).recs(),
                            e2,
                            ob.0,
                        ) && has_field_marker(old(self).recs(), e2));
                    }
                    assert forall|a2: Entity, e2: Entity| #[trigger]
                        lv2.hand.contains((a2, e2)) <==> is_member_rec(recs2, e2, ob.0)
                            && has_owner(recs2, e2, a2) && has_hand_marker(recs2, e2) by {
                        assert(lvold.hand.contains((a2, e2)) <==> is_member_rec(
                            old(self).recs(),
                            e2,
                            ob.0,
                        ) && has_owner(old(self).recs(), e2, a2) && has_hand_marker(
                            old(self).recs(),
                            e2,
                        ));
                        if e2 == entity && lvold.hand.contains((a2, e2)) {
                            assert(a2 == ao.0);
                        }
                    }
                    assert forall|x: Entity| #[trigger]
                        assoc_has_key(self.boards_seq(), x) == assoc_has_key(
                        old(self).boards_seq(),
                        x,
                    ) by {
                        assert(self.has_board(x) == old(self).has_board(x));
                    }
                    assert forall|x: Entity| #[trigger]
                        board_target_ok(recs2, self.boards_seq(), x) by {
                        assert(board_target_ok(recs2, old(self).boards_seq(), x));
                    }
                    assert forall|x: Entity| #[trigger] occupancy_target_ok(recs2, x) by {
                        assert(occupancy_target_ok(old(self).recs(), x));
                    }
                    self.lemma_close_consistency(*old(self), entity, r2, bi as int, ob.0);
                }
                true
            },
            _ => {
                proof {
                    let recs2 = self.recs();
                    assert forall|i: int|
                        0 <= i < self.boards_seq().len() implies board_consistent(
                        recs2,
                        self.boards_seq()[i].0,
                        (#[trigger] self.boards_seq()[i]).1.lookup@,
                    ) by {
                        let b2 = self.boards_seq()[i].0;
                        let lv = self.boards_seq()[i].1.lookup@;
                        assert(board_consistent(old(self).recs(), b2, lv));
                        if r1.on_board == Some(OnBoard(b2)) {
                            lemma_carry_structural(old(self).recs(), recs2, b2, lv, lv);
                            assert forall|a2: Entity, e2: Entity| #[trigger]
                                lv.owned.contains((a2, e2)) <==> is_member_rec(recs2, e2, b2)
                                    && has_owner(recs2, e2, a2) by {
                                assert(lv.owned.contains((a2, e2)) <==> is_member_rec(
                                    old(self).recs(),
                                    e2,
                                    b2,
                                ) && has_owner(old(self).recs(), e2, a2));
                            }
                            assert forall|a2: Entity, e2: Entity| #[trigger]
                                lv.hand.contains((a2, e2)) <==> is_member_rec(recs2, e2, b2)
                                    && has_owner(recs2, e2, a2) && has_hand_marker(recs2, e2) by {
                                assert(lv.hand.contains((a2, e2)) <==> is_member_rec(
                                    old(self).recs(),
                                    e2,
                                    b2,
                                ) && has_owner(old(self).recs(), e2, a2) && has_hand_marker(
                                    old(self).recs(),
                                    e2,
                                ));
                            }
                            assert forall|e2: Entity| #[trigger]
                                lv.on_field.contains(e2) <==> is_member_rec(recs2, e2, b2)
                                    && has_field_marker(recs2, e2) by {
                                assert(lv.on_field.contains(e2) <==> is_member_rec(
                                    old(self).recs(),
                                    e2,
                                    b2,
                                ) && has_field_marker(old(self).recs(), e2));
                            }
                        } else {
                            lemma_consistent_untouched(
                                old(self).recs(),
                                b2,
                                lv,
                                entity.0 as int,
                                Some(r2),
                            );
                        }
                    }
                }
                true
            },
        }
    }

    /// Attach the field-presence marker, indexing a board member into the
    /// field set. A marker already present is left as is.
    pub fn attach_on_field(&mut self, entity: Entity) -> (r: Result<(), AttachError>)
        requires
            old(self).wf(),
        ensures
            final(self).wf(),
            r is Err <==> !old(self).alive(entity),
            r is Err ==> *final(self) == *old(self) && r == Err::<(), AttachError>(
                AttachError::NoSuchEntity,
            ),
            r is Ok && old(self).rec(entity).unwrap().on_field ==> *final(self) == *old(self),
            r is Ok && !old(self).rec(entity).unwrap().on_field ==> {
                let r1 = old(self).rec(entity).unwrap();
                let r2 = (EntityRecord { on_field: true, ..r1 });
                &&& final(self).recs() == old(self).recs().update(entity.0 as int, Some(r2))
                &&& match r1.on_board {
                    Some(ob) => {
                        &&& old(self).boards_unchanged_except(*final(self), ob.0)
                        &&& old(self).board_data_unchanged(*final(self), ob.0)
                        &&& final(self).lookup_of(ob.0) == (LookupView {
                            on_field: old(self).lookup_of(ob.0).on_field.insert(entity),
                            ..old(self).lookup_of(ob.0)
                        })
                    },
                    None => final(self).boards_seq() == old(self).boards_seq(),
                }
            },
    {
        if entity.0 >= self.records.len() {
            return Err(AttachError::NoSuchEntity);
        }
        let rec0 = self.records[entity.0];
        let r1 = match rec0 {
            Some(r) => r,
            None => {
                return Err(AttachError::NoSuchEntity);
            },
        };
        if r1.on_field {
            return Ok(());
        }
        let r2 = EntityRecord { on_field: true, ..r1 };
        self.records[entity.0] = Some(r2);
        proof {
            lemma_same_membership_fields(
                old(self).recs(),
                old(self).boards_seq(),
                entity.0 as int,
                r2,
            );
            lemma_same_owner(old(self).recs(), entity.0 as int, r2);
            lemma_same_hand_marker(old(self).recs(), entity.0 as int, r2);
        }
        match r1.on_board {
            Some(ob) => {
                let bi = match self.find_board(ob.0) {
                    Some(bi) => bi,
                    None => {
                        proof {
                            assert(board_target_ok(
                                old(self).recs(),
                                old(self).boards_seq(),
                                entity,
                            ));
                        }
                        vstd::pervasive::unreached()
                    },
                };
                proof {
                    assert(self.boards_seq()[bi as int].1.wf());
                    assert(board_consistent(old(self).recs(), ob.0, old(self).lookup_of(ob.0)));
                }
                let mut entry = self.boards.remove(bi);
                entry.1.lookup.insert_on_field(entity);
                self.boards.insert(bi, entry);
                proof {
                    self.lemma_after_record_and_board_update(
                        *old(self),
                        entity,
                        r2,
                        bi as int,
                        ob.0,
                    );
                    let lvold = old(self).lookup_of(ob.0);
                    let lv2 = self.lookup_of(ob.0);
                    let recs2 = self.recs();
                    lemma_carry_structural(old(self).recs(), recs2, ob.0, lvold, lv2);
                    assert forall|a2: Entity, e2: Entity| #[trigger]
                        lv2.owned.contains((a2, e2)) <==> is_member_rec(recs2, e2, ob.0)
                            && has_owner(recs2, e2, a2) by {
                        assert(lvold.owned.contains((a2, e2)) <==> is_member_rec(
                            old(self).recs(),
                            e2,
                            ob.0,
                        ) && has_owner(old(self).recs(), e2, a2));
                    }
                    assert forall|a2: Entity, e2: Entity| #[trigger]
                        lv2.hand.contains((a2, e2)) <==> is_member_rec(recs2, e2, ob.0)
                            && has_owner(recs2, e2, a2) && has_hand_marker(recs2, e2) by {
                        assert(lvold.hand.contains((a2, e2)) <==> is_member_rec(
                            old(self).recs(),
                            e2,
                            ob.0,
                        ) && has_owner(old(self).recs(), e2, a2) && has_hand_marker(
                            old(self).recs(),
                            e2,
                        ));
                    }
                    assert forall|e2: Entity| #[trigger]
                        lv2.on_field.contains(e2) <==> is_member_rec(recs2, e2, ob.0)
                            && has_field_marker(recs2, e2) by {
                        assert(lvold.on_field.contains(e2) <==> is_member_rec(
                            old(self).recs(),
                            e2,
                            ob.0,
                        ) && has_field_marker(old(self).recs(), e2));
                    }
                    assert forall|x: Entity| #[trigger]
                        assoc_has_key(self.boards_seq(), x) == assoc_has_key(
                        old(self).boards_seq(),
                        x,
                    ) by {
                        assert(self.has_board(x) == old(self).has_board(x));
                    }
                    assert forall|x: Entity| #[trigger]
                        board_target_ok(recs2, self.boards_seq(), x) by {
                        assert(board_target_ok(recs2, old(self).boards_seq(), x));
                    }
                    assert forall|x: Entity| #[trigger] occupancy_target_ok(recs2, x) by {
                        assert(occupancy_target_ok(old(self).recs(), x));
                    }
                    self.lemma_close_consistency(*old(self), entity, r2, bi as int, ob.0);
                }
                Ok(())
            },
            None => {
                proof {
                    let recs2 = self.recs();
                    assert forall|i: int|
                        0 <= i < self.boards_seq().len() implies board_consistent(
                        recs2,
                        self.boards_seq()[i].0,
                        (#[trigger] self.boards_seq()[i]).1.lookup@,
                    ) by {
                        let b2 = self.boards_seq()[i].0;
                        let lv = self.boards_seq()[i].1.lookup@;
                        assert(board_consistent(old(self).recs(), b2, lv));
                        lemma_consistent_untouched(
                            old(self).recs(),
                            b2,
                            lv,
                            entity.0 as int,
                            Some(r2),
                        );
                    }
                }
                Ok(())
            },
        }
    }

    /// Detach the field-presence marker, dropping a board member from the
    /// field set. A marker already absent is left as is; reports whether
    /// the marker was present.
    pub fn detach_on_field(&mut self, entity: Entity) -> (r: bool)
        requires
            old(self).wf(),
        ensures
            final(self).wf(),
            r == (old(self).alive(entity) && old(self).rec(entity).unwrap().on_field),
            !r ==> *final(self) == *old(self),
            r ==> {
                let r1 = old(self).rec(entity).unwrap();
                let r2 = (EntityRecord { on_field: false, ..r1 });
                &&& final(self).recs() == old(self).recs().update(entity.0 as int, Some(r2))
                &&& match r1.on_board {
                    Some(ob) => {
                        &&& old(self).boards_unchanged_except(*final(self), ob.0)
                        &&& old(self).board_data_unchanged(*final(self), ob.0)
                        &&& final(self).lookup_of(ob.0) == (LookupView {
                            on_field: old(self).lookup_of(ob.0).on_field.remove(entity),
                            ..old(self).lookup_of(ob.0)
                        })
                    },
                    None => final(self).boards_seq() == old(self).boards_seq(),
                }
            },
    {
        if entity.0 >= self.records.len() {
            return false;
        }
        let rec0 = self.records[entity.0];
        let r1 = match rec0 {
            Some(r) => r,
            None => {
                return false;
            },
        };
        if !r1.on_field {
            return false;
        }
        let r2 = EntityRecord { on_field: false, ..r1 };
        self.records[entity.0] = Some(r2);
        proof {
            lemma_same_membership_fields(
                old(self).recs(),
                old(self).boards_seq(),
                entity.0 as int,
                r2,
            );
            lemma_same_owner(old(self).recs(), entity.0 as int, r2);
            lemma_same_hand_marker(old(self).recs(), entity.0 as int, r2);
        }
        match r1.on_board {
            Some(ob) => {
                let bi = match self.find_board(ob.0) {
                    Some(bi) => bi,
                    None => {
                        proof {
                            assert(board_target_ok(
                                old(self).recs(),
                                old(self).boards_seq(),
                                entity,
                            ));
                        }
                        vstd::pervasive::unreached()
                    },
                };
                proof {
                    assert(self.boards_seq()[bi as int].1.wf());
                    assert(board_consistent(old(self).recs(), ob.0, old(self).lookup_of(ob.0)));
                }
                let mut entry = self.boards.remove(bi);
                entry.1.lookup.remove_from_field(entity);
                self.boards.insert(bi, entry);
                proof {
                    self.lemma_after_record_and_board_update(
                        *old(self),
                        entity,
                        r2,
                        bi as int,
                        ob.0,
                    );
                    let lvold = old(self).lookup_of(ob.0);
                    let lv2 = self.lookup_of(ob.0);
                    let recs2 = self.recs();
                    lemma_carry_structural(old(self).recs(), recs2, ob.0, lvold, lv2);
                    assert forall|a2: Entity, e2: Entity| #[trigger]
                        lv2.owned.contains((a2, e2)) <==> is_member_rec(recs2, e2, ob.0)
                            && has_owner(recs2, e2, a2) by {
                        assert(lvold.owned.contains((a2, e2)) <==> is_member_rec(
                            old(self).recs(),
                            e2,
                            ob.0,
                        ) && has_owner(old(self).recs(), e2, a2));
                    }
                    assert forall|a2: Entity, e2: Entity| #[trigger]
                        lv2.hand.contains((a2, e2)) <==> is_member_rec(recs2, e2, ob.0)
                            && has_owner(recs2, e2, a2) && has_hand_marker(recs2, e2) by {
                        assert(lvold.hand.contains((a2, e2)) <==> is_member_rec(
                            old(self).recs(),
                            e2,
                            ob.0,
                        ) && has_owner(old(self).recs(), e2, a2) && has_hand_marker(
                            old(self).recs(),
                            e2,
                        ));
                    }
                    assert forall|e2: Entity| #[trigger]
                        lv2.on_field.contains(e2) <==> is_member_rec(recs2, e2, ob.0)
                            && has_field_marker(recs2, e2) by {
                        assert(lvold.on_field.contains(e2) <==> is_member_rec(
                            old(self).recs(),
                            e2,
                            ob.0,
                        ) && has_field_marker(old(self).recs(), e2));
                    }
                    assert forall|x: Entity| #[trigger]
                        assoc_has_key(self.boards_seq(), x) == assoc_has_key(
                        old(self).boards_seq(),
                        x,
                    ) by {
                        assert(self.has_board(x) == old(self).has_board(x));
                    }
                    assert forall|x: Entity| #[trigger]
                        board_target_ok(recs2, self.boards_seq(), x) by {
                        assert(board_target_ok(recs2, old(self).boards_seq(), x));
                    }
                    assert forall|x: Entity| #[trigger] occupancy_target_ok(recs2, x) by {
                        assert(occupancy_target_ok(old(self).recs(), x));
                    }
                    self.lemma_close_consistency(*old(self), entity, r2, bi as int, ob.0);
                }
                true
            },
            None => {
                proof {
                    let recs2 = self.recs();
                    assert forall|i: int|
                        0 <= i < self.boards_seq().len() implies board_consistent(
                        recs2,
                        self.boards_seq()[i].0,
                        (#[trigger] self.boards_seq()[i]).1.lookup@,
                    ) by {
                        let b2 = self.boards_seq()[i].0;
                        let lv = self.boards_seq()[i].1.lookup@;
                        assert(board_consistent(old(self).recs(), b2, lv));
                        lemma_consistent_untouched(
                            old(self).recs(),
                            b2,
                            lv,
                            entity.0 as int,
                            Some(r2),
                        );
                    }
                }
                true
            },
        }
    }


    /// Detach slot-occupancy from an entity: on its board the slot it sat
    /// in becomes free. Reports whether anything was detached.
    pub fn detach_on_slot(&mut self, entity: Entity) -> (r: bool)
        requires
            old(self).wf(),
        ensures
            final(self).wf(),
            r == (old(self).alive(entity) && old(self).rec(entity).unwrap().on_slot is Some),
            !r ==> *final(self) == *old(self),
            r ==> {
                let r1 = old(self).rec(entity).unwrap();
                let r2 = (EntityRecord { on_slot: None, ..r1 });
                &&& final(self).recs() == old(self).recs().update(entity.0 as int, Some(r2))
                &&& match r1.on_board {
                    Some(ob) => {
                        &&& old(self).boards_unchanged_except(*final(self), ob.0)
                        &&& old(self).board_data_unchanged(*final(self), ob.0)
                        &&& final(self).lookup_of(ob.0) == (LookupView {
                            occupied: occupied_without(old(self).lookup_of(ob.0), entity),
                            ..old(self).lookup_of(ob.0)
                        })
                    },
                    None => final(self).boards_seq() == old(self).boards_seq(),
                }
            },
    {
        if entity.0 >= self.records.len() {
            return false;
        }
        let rec0 = self.records[entity.0];
        let r1 = match rec0 {
            Some(r) => r,
            None => {
                return false;
            },
        };
        let os = match r1.on_slot {
            Some(os) => os,
            None => {
                return false;
            },
        };
        let r2 = EntityRecord { on_slot: None, ..r1 };
        match r1.on_board {
            Some(ob) => {
                proof {
                    assert(occupancy_target_ok(old(self).recs(), entity));
                    assert(is_member_rec(old(self).recs(), os.0, ob.0));
                    assert((os.0.0 as int) < old(self).recs().len());
                }
                let rs = match self.records[os.0.0] {
                    Some(rs) => rs,
                    None => vstd::pervasive::unreached(),
                };
                let p = match rs.slot {
                    Some(bs) => bs.0,
                    None => vstd::pervasive::unreached(),
                };
                self.records[entity.0] = Some(r2);
                proof {
                    lemma_on_slot_update(
                        old(self).recs(),
                        old(self).boards_seq(),
                        entity,
                        r2,
                    );
                }
                let bi = match self.find_board(ob.0) {
                    Some(bi) => bi,
                    None => {
                        proof {
                            assert(board_target_ok(
                                old(self).recs(),
                                old(self).boards_seq(),
                                entity,
                            ));
                        }
                        vstd::pervasive::unreached()
                    },
                };
                proof {
                    assert(self.boards_seq()[bi as int].1.wf());
                    assert(board_consistent(old(self).recs(), ob.0, old(self).lookup_of(ob.0)));
                    assert(is_slot_at(old(self).recs(), os.0, ob.0, p));
                    assert(occupies(old(self).recs(), entity, ob.0, p));
                }
                let mut entry = self.boards.remove(bi);
                entry.1.lookup.remove_from_slot(p);
                self.boards.insert(bi, entry);
                proof {
                    self.lemma_after_record_and_board_update(
                        *old(self),
                        entity,
                        r2,
                        bi as int,
                        ob.0,
                    );
                    let lvold = old(self).lookup_of(ob.0);
                    let lv2 = self.lookup_of(ob.0);
                    let recs2 = self.recs();
                    // the occupancy entry at p held exactly this entity
                    assert(lvold.occupied.contains_key(p) && lvold.occupied[p] == entity);
                    assert forall|p2: IVec3|
                        lvold.occupied.contains_key(p2) && #[trigger] lvold.occupied[p2] == entity
                            implies p2 == p by {
                        assert(occupies(old(self).recs(), entity, ob.0, p2));
                        assert(rec_of(old(self).recs(), os.0).unwrap().slot == Some(BoardSlot(p2)));
                    }
                    assert(lv2.occupied =~= occupied_without(lvold, entity));
                    // consistency of the changed board
                    assert forall|e2: Entity| #[trigger]
                        lv2.members.contains(e2) <==> is_member_rec(recs2, e2, ob.0) by {
                        assert(lvold.members.contains(e2) <==> is_member_rec(
                            old(self).recs(),
                            e2,
                            ob.0,
                        ));
                    }
                    assert forall|a2: Entity, e2: Entity| #[trigger]
                        lv2.owned.contains((a2, e2)) <==> is_member_rec(recs2, e2, ob.0)
                            && has_owner(recs2, e2, a2) by {
                        assert(lvold.owned.contains((a2, e2)) <==> is_member_rec(
                            old(self).recs(),
                            e2,
                            ob.0,
                        ) && has_owner(old(self).recs(), e2, a2));
                    }
                    assert forall|a2: Entity, e2: Entity| #[trigger]
                        lv2.hand.contains((a2, e2)) <==> is_member_rec(recs2, e2, ob.0)
                            && has_owner(recs2, e2, a2) && has_hand_marker(recs2, e2) by {
                        assert(lvold.hand.contains((a2, e2)) <==> is_member_rec(
                            old(self).recs(),
                            e2,
                            ob.0,
                        ) && has_owner(old(self).recs(), e2, a2) && has_hand_marker(
                            old(self).recs(),
                            e2,
                        ));
                    }
                    assert forall|e2: Entity| #[trigger]
                        lv2.on_field.contains(e2) <==> is_member_rec(recs2, e2, ob.0)
                            && has_field_marker(recs2, e2) by {
                        assert(lvold.on_field.contains(e2) <==> is_member_rec(
                            old(self).recs(),
                            e2,
                            ob.0,
                        ) && has_field_marker(old(self).recs(), e2));
                    }
                    assert forall|s2: Entity, p2: IVec3| #[trigger]
                        is_slot_at(recs2, s2, ob.0, p2) implies lv2.slots.contains_key(p2)
                        && lv2.slots[p2] == s2 by {
                        assert(is_slot_at(old(self).recs(), s2, ob.0, p2));
                    }
                    assert forall|p2: IVec3| #[trigger]
                        lv2.slots.contains_key(p2) implies is_slot_at(recs2, lv2.slots[p2], ob.0, p2) by {
                        assert(is_slot_at(old(self).recs(), lvold.slots[p2], ob.0, p2));
                    }
                    assert forall|e2: Entity, p2: IVec3| #[trigger]
                        occupies(recs2, e2, ob.0, p2) implies lv2.occupied.contains_key(p2)
                        && lv2.occupied[p2] == e2 by {
                        assert(e2 != entity);
                        assert(occupies(old(self).recs(), e2, ob.0, p2));
                        assert(lvold.occupied[p2] == e2);
                        assert(p2 != p);
                    }
                    assert forall|p2: IVec3| #[trigger]
                        lv2.occupied.contains_key(p2) implies occupies(recs2, lv2.occupied[p2], ob.0, p2) by {
                        assert(lvold.occupied.contains_key(p2));
                        assert(occupies(old(self).recs(), lvold.occupied[p2], ob.0, p2));
                        assert(lvold.occupied[p2] != entity);
                    }
                    assert(board_consistent(recs2, ob.0, lv2));
                    assert forall|x: Entity| #[trigger]
                        assoc_has_key(self.boards_seq(), x) == assoc_has_key(
                        old(self).boards_seq(),
                        x,
                    ) by {
                        assert(self.has_board(x) == old(self).has_board(x));
                    }
                    assert forall|x: Entity| #[trigger]
                        board_target_ok(recs2, self.boards_seq(), x) by {
                        assert(board_target_ok(recs2, old(self).boards_seq(), x));
                        assert(board_target_ok(old(self).recs(), old(self).boards_seq(), x));
                    }
                    assert forall|x: Entity| #[trigger] occupancy_target_ok(recs2, x) by {
                        if x != entity {
                            assert(occupancy_target_ok(old(self).recs(), x));
                        }
                    }
                    self.lemma_close_consistency(*old(self), entity, r2, bi as int, ob.0);
                }
                true
            },
            None => {
                self.records[entity.0] = Some(r2);
                proof {
                    lemma_on_slot_update(
                        old(self).recs(),
                        old(self).boards_seq(),
                        entity,
                        r2,
                    );
                    let recs2 = self.recs();
                    assert forall|i: int|
                        0 <= i < self.boards_seq().len() implies board_consistent(
                        recs2,
                        self.boards_seq()[i].0,
                        (#[trigger] self.boards_seq()[i]).1.lookup@,
                    ) by {
                        let b2 = self.boards_seq()[i].0;
                        let lv = self.boards_seq()[i].1.lookup@;
                        assert(board_consistent(old(self).recs(), b2, lv));
                        lemma_consistent_untouched(
                            old(self).recs(),
                            b2,
                            lv,
                            entity.0 as int,
                            Some(r2),
                        );
                    }
                    assert forall|x: Entity| #[trigger]
                        board_target_ok(recs2, self.boards_seq(), x) by {
                        assert(board_target_ok(old(self).recs(), old(self).boards_seq(), x));
                    }
                    assert forall|x: Entity| #[trigger] occupancy_target_ok(recs2, x) by {
                        if x != entity {
                            assert(occupancy_target_ok(old(self).recs(), x));
                        }
                    }
                }
                true
            },
        }
    }


    /// Attach slot-occupancy: the entity comes to sit in the slot entity
    /// `slot`. On a board member the target must be a member slot of the
    /// same board; a stale occupant already recorded there is forcibly
    /// detached (evicted) and handed back so the caller can surface the
    /// anomaly, and the new occupancy stands.
    pub fn attach_on_slot(&mut self, entity: Entity, slot: Entity) -> (r: Result<
        Option<Entity>,
        AttachError,
    >)
        requires
            old(self).wf(),
        ensures
            final(self).wf(),
            r == Err::<Option<Entity>, AttachError>(AttachError::NoSuchEntity) <==> !old(
                self,
            ).alive(entity),
            r == Err::<Option<Entity>, AttachError>(AttachError::AlreadyAttached) <==> old(
                self,
            ).alive(entity) && old(self).rec(entity).unwrap().on_slot is Some,
            r == Err::<Option<Entity>, AttachError>(AttachError::SlotMissing) <==> old(self).alive(
                entity,
            ) && old(self).rec(entity).unwrap().on_slot is None && (old(self).rec(
                entity,
            ).unwrap().on_board matches Some(ob) && !old(self).valid_slot_target(ob.0, slot)),
            r is Err <==> !old(self).alive(entity) || old(self).rec(entity).unwrap().on_slot
                is Some || (old(self).rec(entity).unwrap().on_board matches Some(ob) && !old(
                self,
            ).valid_slot_target(ob.0, slot)),
            r is Err ==> *final(self) == *old(self),
            r is Ok ==> {
                let r1 = old(self).rec(entity).unwrap();
                let r2 = (EntityRecord { on_slot: Some(OnSlot(slot)), ..r1 });
                match r1.on_board {
                    Some(ob) => {
                        let p = old(self).rec(slot).unwrap().slot.unwrap().0;
                        let evicted = if old(self).lookup_of(ob.0).occupied.contains_key(p) {
                            Some(old(self).lookup_of(ob.0).occupied[p])
                        } else {
                            None::<Entity>
                        };
                        &&& r == Ok::<Option<Entity>, AttachError>(evicted)
                        &&& old(self).boards_unchanged_except(*final(self), ob.0)
                        &&& old(self).board_data_unchanged(*final(self), ob.0)
                        &&& final(self).lookup_of(ob.0) == (LookupView {
                            occupied: old(self).lookup_of(ob.0).occupied.insert(p, entity),
                            ..old(self).lookup_of(ob.0)
                        })
                        &&& match evicted {
                            Some(e0) => final(self).recs() == old(self).recs().update(
                                e0.0 as int,
                                Some(
                                    (EntityRecord {
                                        on_slot: None,
                                        ..old(self).rec(e0).unwrap()
                                    }),
                                ),
                            ).update(entity.0 as int, Some(r2)),
                            None => final(self).recs() == old(self).recs().update(
                                entity.0 as int,
                                Some(r2),
                            ),
                        }
                    },
                    None => {
                        &&& r == Ok::<Option<Entity>, AttachError>(None)
                        &&& final(self).recs() == old(self).recs().update(
                            entity.0 as int,
                            Some(r2),
                        )
                        &&& final(self).boards_seq() == old(self).boards_seq()
                    },
                }
            },
    {
        if entity.0 >= self.records.len() {
            return Err(AttachError::NoSuchEntity);
        }
        let rec0 = self.records[entity.0];
        let r1 = match rec0 {
            Some(r) => r,
            None => {
                return Err(AttachError::NoSuchEntity);
            },
        };
        if r1.on_slot.is_some() {
            return Err(AttachError::AlreadyAttached);
        }
        let r2 = EntityRecord { on_slot: Some(OnSlot(slot)), ..r1 };
        match r1.on_board {
            None => {
                self.records[entity.0] = Some(r2);
                proof {
                    lemma_on_slot_update(old(self).recs(), old(self).boards_seq(), entity, r2);
                    let recs2 = self.recs();
                    assert forall|i: int|
                        0 <= i < self.boards_seq().len() implies board_consistent(
                        recs2,
                        self.boards_seq()[i].0,
                        (#[trigger] self.boards_seq()[i]).1.lookup@,
                    ) by {
                        let b2 = self.boards_seq()[i].0;
                        let lv = self.boards_seq()[i].1.lookup@;
                        assert(board_consistent(old(self).recs(), b2, lv));
                        lemma_consistent_untouched(
                            old(self).recs(),
                            b2,
                            lv,
                            entity.0 as int,
                            Some(r2),
                        );
                    }
                    assert forall|x: Entity| #[trigger]
                        board_target_ok(recs2, self.boards_seq(), x) by {
                        assert(board_target_ok(old(self).recs(), old(self).boards_seq(), x));
                    }
                    assert forall|x: Entity| #[trigger] occupancy_target_ok(recs2, x) by {
                        if x != entity {
                            assert(occupancy_target_ok(old(self).recs(), x));
                        }
                    }
                }
                Ok(None)
            },
            Some(ob) => {
                // validate the target before any change
                if slot.0 >= self.records.len() {
                    return Err(AttachError::SlotMissing);
                }
                let rs = match self.records[slot.0] {
                    Some(rs) => rs,
                    None => {
                        return Err(AttachError::SlotMissing);
                    },
                };
                match rs.on_board {
                    Some(ob2) => {
                        if ob2.0.0 != ob.0.0 {
                            return Err(AttachError::SlotMissing);
                        }
                        proof {
                            assert(rs.on_board == Some(OnBoard(ob.0)));
                        }
                    },
                    None => {
                        return Err(AttachError::SlotMissing);
                    },
                }
                let p = match rs.slot {
                    Some(bs) => bs.0,
                    None => {
                        return Err(AttachError::SlotMissing);
                    },
                };
                let bi0 = match self.find_board(ob.0) {
                    Some(bi) => bi,
                    None => {
                        proof {
                            assert(board_target_ok(
                                old(self).recs(),
                                old(self).boards_seq(),
                                entity,
                            ));
                        }
                        vstd::pervasive::unreached()
                    },
                };
                proof {
                    assert(self.boards_seq()[bi0 as int].1.wf());
                    assert(board_consistent(old(self).recs(), ob.0, old(self).lookup_of(ob.0)));
                    assert(is_slot_at(old(self).recs(), slot, ob.0, p));
                }
                let occupant = self.boards[bi0].1.lookup.get_occupant(p);
                let ghost mid = *old(self);
                match occupant {
                    Some(e0) => {
                        proof {
                            assert(occupies(old(self).recs(), e0, ob.0, p));
                            assert(e0 != entity);
                        }
                        self.detach_on_slot(e0);
                        proof {
                            mid = *self;
                        }
                    },
                    None => {},
                }
                proof {
                    assert(mid.wf());
                    assert(mid.rec(entity) == Some(r1));
                    assert(mid.has_board(ob.0));
                    mid.lemma_board_facts(ob.0);
                    assert(is_slot_at(mid.recs(), slot, ob.0, p));
                    assert(!mid.lookup_of(ob.0).occupied.contains_key(p) || mid.lookup_of(
                        ob.0,
                    ).occupied[p] == entity) by {
                        if mid.lookup_of(ob.0).occupied.contains_key(p) {
                            let x = mid.lookup_of(ob.0).occupied[p];
                            assert(occupies(mid.recs(), x, ob.0, p));
                            match occupant {
                                Some(e0) => {
                                    assert(rec_of(mid.recs(), x).unwrap().on_slot is Some);
                                    let xs = rec_of(mid.recs(), x).unwrap().on_slot.unwrap().0;
                                    assert(is_slot_at(mid.recs(), xs, ob.0, p));
                                    assert(occupies(old(self).recs(), x, ob.0, p));
                                    assert(old(self).lookup_of(ob.0).occupied[p] == x);
                                    assert(x == e0);
                                    assert(rec_of(mid.recs(), e0).unwrap().on_slot is None);
                                    assert(false);
                                },
                                None => {
                                    assert(occupies(old(self).recs(), x, ob.0, p));
                                    assert(false);
                                },
                            }
                        }
                    }
                }
                let ghost recs1 = self.recs();
                self.records[entity.0] = Some(r2);
                proof {
                    lemma_on_slot_update(recs1, mid.boards_seq(), entity, r2);
                }
                let bi = match self.find_board(ob.0) {
                    Some(bi) => bi,
                    None => {
                        proof {
                            assert(mid.has_board(ob.0));
                        }
                        vstd::pervasive::unreached()
                    },
                };
                proof {
                    assert(self.boards_seq()[bi as int].1.wf());
                }
                let mut entry = self.boards.remove(bi);
                entry.1.lookup.insert_on_slot(p, entity);
                self.boards.insert(bi, entry);
                proof {
                    self.lemma_after_record_and_board_update(mid, entity, r2, bi as int, ob.0);
                    let lvmid = mid.lookup_of(ob.0);
                    let lv2 = self.lookup_of(ob.0);
                    let recs2 = self.recs();
                    assert(lv2.occupied == lvmid.occupied.insert(p, entity));
                    assert(board_consistent(mid.recs(), ob.0, lvmid));
                    assert forall|e2: Entity| #[trigger]
                        lv2.members.contains(e2) <==> is_member_rec(recs2, e2, ob.0) by {
                        assert(lvmid.members.contains(e2) <==> is_member_rec(mid.recs(), e2, ob.0));
                    }
                    assert forall|a2: Entity, e2: Entity| #[trigger]
                        lv2.owned.contains((a2, e2)) <==> is_member_rec(recs2, e2, ob.0)
                            && has_owner(recs2, e2, a2) by {
                        assert(lvmid.owned.contains((a2, e2)) <==> is_member_rec(mid.recs(), e2, ob.0)
                            && has_owner(mid.recs(), e2, a2));
                    }
                    assert forall|a2: Entity, e2: Entity| #[trigger]
                        lv2.hand.contains((a2, e2)) <==> is_member_rec(recs2, e2, ob.0)
                            && has_owner(recs2, e2, a2) && has_hand_marker(recs2, e2) by {
                        assert(lvmid.hand.contains((a2, e2)) <==> is_member_rec(mid.recs(), e2, ob.0)
                            && has_owner(mid.recs(), e2, a2) && has_hand_marker(mid.recs(), e2));
                    }
                    assert forall|e2: Entity| #[trigger]
                        lv2.on_field.contains(e2) <==> is_member_rec(recs2, e2, ob.0)
                            && has_field_marker(recs2, e2) by {
                        assert(lvmid.on_field.contains(e2) <==> is_member_rec(mid.recs(), e2, ob.0)
                            && has_field_marker(mid.recs(), e2));
                    }
                    assert forall|s2: Entity, p2: IVec3| #[trigger]
                        is_slot_at(recs2, s2, ob.0, p2) implies lv2.slots.contains_key(p2)
                        && lv2.slots[p2] == s2 by {
                        assert(is_slot_at(mid.recs(), s2, ob.0, p2));
                    }
                    assert forall|p2: IVec3| #[trigger]
                        lv2.slots.contains_key(p2) implies is_slot_at(recs2, lv2.slots[p2], ob.0, p2) by {
                        assert(is_slot_at(mid.recs(), lvmid.slots[p2], ob.0, p2));
                    }
                    assert forall|e2: Entity, p2: IVec3| #[trigger]
                        occupies(recs2, e2, ob.0, p2) implies lv2.occupied.contains_key(p2)
                        && lv2.occupied[p2] == e2 by {
                        if e2 == entity {
                            assert(is_slot_at(recs1, slot, ob.0, p2) == is_slot_at(
                                mid.recs(),
                                slot,
                                ob.0,
                                p2,
                            ));
                            assert(rec_of(mid.recs(), slot).unwrap().slot == Some(BoardSlot(p2)));
                            assert(p2 == p);
                        } else {
                            assert(occupies(mid.recs(), e2, ob.0, p2));
                            assert(lvmid.occupied[p2] == e2);
                            assert(p2 != p);
                        }
                    }
                    assert forall|p2: IVec3| #[trigger]
                        lv2.occupied.contains_key(p2) implies occupies(recs2, lv2.occupied[p2], ob.0, p2) by {
                        if p2 == p {
                            assert(lv2.occupied[p2] == entity);
                            assert(occupies(recs2, entity, ob.0, p));
                        } else {
                            assert(lvmid.occupied.contains_key(p2));
                            let x = lvmid.occupied[p2];
                            assert(occupies(mid.recs(), x, ob.0, p2));
                            assert(x != entity);
                        }
                    }
                    assert(board_consistent(recs2, ob.0, lv2));
                    assert forall|x: Entity| #[trigger]
                        assoc_has_key(self.boards_seq(), x) == assoc_has_key(mid.boards_seq(), x) by {
                        assert(self.has_board(x) == mid.has_board(x));
                    }
                    assert forall|x: Entity| #[trigger]
                        board_target_ok(recs2, self.boards_seq(), x) by {
                        assert(board_target_ok(recs2, mid.boards_seq(), x));
                        assert(board_target_ok(mid.recs(), mid.boards_seq(), x));
                    }
                    assert forall|x: Entity| #[trigger] occupancy_target_ok(recs2, x) by {
                        if x != entity {
                            assert(occupancy_target_ok(mid.recs(), x));
                        } else {
                            assert(is_member_rec(recs2, slot, ob.0) == is_member_rec(
                                mid.recs(),
                                slot,
                                ob.0,
                            ));
                        }
                    }
                    self.lemma_close_consistency(mid, entity, r2, bi as int, ob.0);
                    // relate the final state to the pre-call state
                    assert(old(self).boards_unchanged_except(*self, ob.0));
                    assert(old(self).board_data_unchanged(*self, ob.0));
                    assert(lv2.occupied =~= old(self).lookup_of(ob.0).occupied.insert(p, entity))
                        by {
                        match occupant {
                            Some(e0) => {
                                assert(lvmid.occupied =~= occupied_without(
                                    old(self).lookup_of(ob.0),
                                    e0,
                                ));
                                assert forall|p2: IVec3|
                                    p2 != p && #[trigger] old(self).lookup_of(
                                        ob.0,
                                    ).occupied.contains_key(p2) implies old(self).lookup_of(
                                    ob.0,
                                ).occupied[p2] != e0 by {
                                    if old(self).lookup_of(ob.0).occupied[p2] == e0 {
                                        assert(occupies(old(self).recs(), e0, ob.0, p2));
                                        assert(occupies(old(self).recs(), e0, ob.0, p));
                                        let s0 = rec_of(old(self).recs(), e0).unwrap().on_slot.unwrap().0;
                                        assert(rec_of(old(self).recs(), s0).unwrap().slot == Some(
                                            BoardSlot(p2),
                                        ));
                                        assert(rec_of(old(self).recs(), s0).unwrap().slot == Some(
                                            BoardSlot(p),
                                        ));
                                    }
                                }
                            },
                            None => {},
                        }
                    }
                    assert(self.lookup_of(ob.0) == (LookupView {
                        occupied: old(self).lookup_of(ob.0).occupied.insert(p, entity),
                        ..old(self).lookup_of(ob.0)
                    }));
                }
                Ok(occupant)
            },
        }
    }


    /// Attach slot identity: the entity becomes a placeable slot at the
    /// position. On a board member the position must be free on that
    /// board: a second slot at one position is a logic error and the whole
    /// attach is rejected rather than overwriting.
    pub fn attach_board_slot(&mut self, entity: Entity, pos: IVec3) -> (r: Result<
        (),
        AttachError,
    >)
        requires
            old(self).wf(),
        ensures
            final(self).wf(),
            r == Err::<(), AttachError>(AttachError::NoSuchEntity) <==> !old(self).alive(entity),
            r == Err::<(), AttachError>(AttachError::AlreadyAttached) <==> old(self).alive(entity)
                && old(self).rec(entity).unwrap().slot is Some,
            r == Err::<(), AttachError>(AttachError::PositionTaken) <==> old(self).alive(entity)
                && old(self).rec(entity).unwrap().slot is None && (old(self).rec(
                entity,
            ).unwrap().on_board matches Some(ob) && old(self).lookup_of(ob.0).slots.contains_key(
                pos,
            )),
            r is Err <==> !old(self).alive(entity) || old(self).rec(entity).unwrap().slot is Some
                || (old(self).rec(entity).unwrap().on_board matches Some(ob) && old(
                self,
            ).lookup_of(ob.0).slots.contains_key(pos)),
            r is Err ==> *final(self) == *old(self),
            r is Ok ==> {
                let r1 = old(self).rec(entity).unwrap();
                let r2 = (EntityRecord { slot: Some(BoardSlot(pos)), ..r1 });
                &&& final(self).recs() == old(self).recs().update(entity.0 as int, Some(r2))
                &&& match r1.on_board {
                    Some(ob) => {
                        &&& old(self).boards_unchanged_except(*final(self), ob.0)
                        &&& old(self).board_data_unchanged(*final(self), ob.0)
                        &&& final(self).lookup_of(ob.0) == (LookupView {
                            slots: old(self).lookup_of(ob.0).slots.insert(pos, entity),
                            ..old(self).lookup_of(ob.0)
                        })
                    },
                    None => final(self).boards_seq() == old(self).boards_seq(),
                }
            },
    {
        if entity.0 >= self.records.len() {
            return Err(AttachError::NoSuchEntity);
        }
        let rec0 = self.records[entity.0];
        let r1 = match rec0 {
            Some(r) => r,
            None => {
                return Err(AttachError::NoSuchEntity);
            },
        };
        if r1.slot.is_some() {
            return Err(AttachError::AlreadyAttached);
        }
        let r2 = EntityRecord { slot: Some(BoardSlot(pos)), ..r1 };
        proof {
            assert forall|x: Entity| #[trigger]
                rec_of(old(self).recs(), x) matches Some(rx) ==> (rx.on_board is Some
                    ==> rx.on_slot != Some(OnSlot(entity))) by {
                if rec_of(old(self).recs(), x) is Some {
                    let rx = rec_of(old(self).recs(), x).unwrap();
                    if rx.on_board is Some && rx.on_slot == Some(OnSlot(entity)) {
                        assert(occupancy_target_ok(old(self).recs(), x));
                    }
                }
            }
        }
        match r1.on_board {
            None => {
                self.records[entity.0] = Some(r2);
                proof {
                    lemma_slot_identity_update(
                        old(self).recs(),
                        old(self).boards_seq(),
                        entity,
                        r2,
                    );
                    let recs2 = self.recs();
                    assert forall|i: int|
                        0 <= i < self.boards_seq().len() implies board_consistent(
                        recs2,
                        self.boards_seq()[i].0,
                        (#[trigger] self.boards_seq()[i]).1.lookup@,
                    ) by {
                        let b2 = self.boards_seq()[i].0;
                        let lv = self.boards_seq()[i].1.lookup@;
                        assert(board_consistent(old(self).recs(), b2, lv));
                        lemma_consistent_untouched(
                            old(self).recs(),
                            b2,
                            lv,
                            entity.0 as int,
                            Some(r2),
                        );
                    }
                    assert forall|x: Entity| #[trigger]
                        board_target_ok(recs2, self.boards_seq(), x) by {
                        assert(board_target_ok(old(self).recs(), old(self).boards_seq(), x));
                    }
                    assert forall|x: Entity| #[trigger] occupancy_target_ok(recs2, x) by {
                        assert(occupancy_target_ok(old(self).recs(), x));
                    }
                }
                Ok(())
            },
            Some(ob) => {
                let bi = match self.find_board(ob.0) {
                    Some(bi) => bi,
                    None => {
                        proof {
                            assert(board_target_ok(
                                old(self).recs(),
                                old(self).boards_seq(),
                                entity,
                            ));
                        }
                        vstd::pervasive::unreached()
                    },
                };
                proof {
                    assert(self.boards_seq()[bi as int].1.wf());
                    assert(board_consistent(old(self).recs(), ob.0, old(self).lookup_of(ob.0)));
                }
                let taken = self.boards[bi].1.lookup.get_on_slot(pos);
                if taken.is_some() {
                    return Err(AttachError::PositionTaken);
                }
                self.records[entity.0] = Some(r2);
                proof {
                    lemma_slot_identity_update(
                        old(self).recs(),
                        old(self).boards_seq(),
                        entity,
                        r2,
                    );
                }
                let mut entry = self.boards.remove(bi);
                entry.1.lookup.insert_slot(pos, entity);
                self.boards.insert(bi, entry);
                proof {
                    self.lemma_after_record_and_board_update(
                        *old(self),
                        entity,
                        r2,
                        bi as int,
                        ob.0,
                    );
                    let lvold = old(self).lookup_of(ob.0);
                    let lv2 = self.lookup_of(ob.0);
                    let recs2 = self.recs();
                    assert(lv2.slots == lvold.slots.insert(pos, entity));
                    assert forall|e2: Entity| #[trigger]
                        lv2.members.contains(e2) <==> is_member_rec(recs2, e2, ob.0) by {
                        assert(lvold.members.contains(e2) <==> is_member_rec(
                            old(self).recs(),
                            e2,
                            ob.0,
                        ));
                    }
                    assert forall|a2: Entity, e2: Entity| #[trigger]
                        lv2.owned.contains((a2, e2)) <==> is_member_rec(recs2, e2, ob.0)
                            && has_owner(recs2, e2, a2) by {
                        assert(lvold.owned.contains((a2, e2)) <==> is_member_rec(
                            old(self).recs(),
                            e2,
                            ob.0,
                        ) && has_owner(old(self).recs(), e2, a2));
                    }
                    assert forall|a2: Entity, e2: Entity| #[trigger]
                        lv2.hand.contains((a2, e2)) <==> is_member_rec(recs2, e2, ob.0)
                            && has_owner(recs2, e2, a2) && has_hand_marker(recs2, e2) by {
                        assert(lvold.hand.contains((a2, e2)) <==> is_member_rec(
                            old(self).recs(),
                            e2,
                            ob.0,
                        ) && has_owner(old(self).recs(), e2, a2) && has_hand_marker(
                            old(self).recs(),
                            e2,
                        ));
                    }
                    assert forall|e2: Entity| #[trigger]
                        lv2.on_field.contains(e2) <==> is_member_rec(recs2, e2, ob.0)
                            && has_field_marker(recs2, e2) by {
                        assert(lvold.on_field.contains(e2) <==> is_member_rec(
                            old(self).recs(),
                            e2,
                            ob.0,
                        ) && has_field_marker(old(self).recs(), e2));
                    }
                    assert forall|s2: Entity, p2: IVec3| #[trigger]
                        is_slot_at(recs2, s2, ob.0, p2) implies lv2.slots.contains_key(p2)
                        && lv2.slots[p2] == s2 by {
                        if s2 == entity {
                            assert(p2 == pos);
                        } else {
                            assert(is_slot_at(old(self).recs(), s2, ob.0, p2));
                            assert(lvold.slots.contains_key(p2) && lvold.slots[p2] == s2);
                            assert(p2 != pos);
                        }
                    }
                    assert forall|p2: IVec3| #[trigger]
                        lv2.slots.contains_key(p2) implies is_slot_at(recs2, lv2.slots[p2], ob.0, p2) by {
                        if p2 == pos {
                            assert(lv2.slots[p2] == entity);
                            assert(is_slot_at(recs2, entity, ob.0, pos));
                        } else {
                            assert(lvold.slots.contains_key(p2));
                            let s2 = lvold.slots[p2];
                            assert(is_slot_at(old(self).recs(), s2, ob.0, p2));
                            assert(s2 != entity);
                        }
                    }
                    assert forall|e2: Entity, p2: IVec3| #[trigger]
                        occupies(recs2, e2, ob.0, p2) implies lv2.occupied.contains_key(p2)
                        && lv2.occupied[p2] == e2 by {
                        assert(occupies(old(self).recs(), e2, ob.0, p2));
                    }
                    assert forall|p2: IVec3| #[trigger]
                        lv2.occupied.contains_key(p2) implies occupies(recs2, lv2.occupied[p2], ob.0, p2) by {
                        assert(occupies(old(self).recs(), lvold.occupied[p2], ob.0, p2));
                    }
                    assert(board_consistent(recs2, ob.0, lv2));
                    assert forall|x: Entity| #[trigger]
                        assoc_has_key(self.boards_seq(), x) == assoc_has_key(
                        old(self).boards_seq(),
                        x,
                    ) by {
                        assert(self.has_board(x) == old(self).has_board(x));
                    }
                    assert forall|x: Entity| #[trigger]
                        board_target_ok(recs2, self.boards_seq(), x) by {
                        assert(board_target_ok(recs2, old(self).boards_seq(), x));
                        assert(board_target_ok(old(self).recs(), old(self).boards_seq(), x));
                    }
                    assert forall|x: Entity| #[trigger] occupancy_target_ok(recs2, x) by {
                        assert(occupancy_target_ok(old(self).recs(), x));
                    }
                    self.lemma_close_consistency(*old(self), entity, r2, bi as int, ob.0);
                }
                Ok(())
            },
        }
    }


    /// Detach slot identity: the entity stops being a placeable slot. On
    /// its board the position entry is dropped, and whatever entity still
    /// occupied the slot has its slot-occupancy forcibly detached: nothing
    /// can occupy a slot that no longer exists. Reports whether anything
    /// was detached.
    #[verifier::rlimit(80)]
    pub fn detach_board_slot(&mut self, entity: Entity) -> (r: bool)
        requires
            old(self).wf(),
        ensures
            final(self).wf(),
            r == (old(self).alive(entity) && old(self).rec(entity).unwrap().slot is Some),
            !r ==> *final(self) == *old(self),
            r ==> {
                let r1 = old(self).rec(entity).unwrap();
                let r2 = (EntityRecord { slot: None, ..r1 });
                match r1.on_board {
                    Some(ob) => {
                        let p = r1.slot.unwrap().0;
                        let lvold = old(self).lookup_of(ob.0);
                        &&& old(self).boards_unchanged_except(*final(self), ob.0)
                        &&& old(self).board_data_unchanged(*final(self), ob.0)
                        &&& final(self).lookup_of(ob.0) == (LookupView {
                            slots: lvold.slots.remove(p),
                            occupied: lvold.occupied.remove(p),
                            ..lvold
                        })
                        &&& if lvold.occupied.contains_key(p) {
                            let evicted_rec = (EntityRecord {
                                on_slot: None,
                                ..old(self).rec(lvold.occupied[p]).unwrap()
                            });
                            final(self).recs() == old(self).recs().update(
                                lvold.occupied[p].0 as int,
                                Some(evicted_rec),
                            ).update(
                                entity.0 as int,
                                Some(
                                    (EntityRecord {
                                        slot: None,
                                        ..if lvold.occupied[p] == entity {
                                            evicted_rec
                                        } else {
                                            r1
                                        }
                                    }),
                                ),
                            )
                        } else {
                            final(self).recs() == old(self).recs().update(
                                entity.0 as int,
                                Some(r2),
                            )
                        }
                    },
                    None => {
                        &&& final(self).recs() == old(self).recs().update(
                            entity.0 as int,
                            Some(r2),
                        )
                        &&& final(self).boards_seq() == old(self).boards_seq()
                    },
                }
            },
    {
        if entity.0 >= self.records.len() {
            return false;
        }
        let rec0 = self.records[entity.0];
        let r1 = match rec0 {
            Some(r) => r,
            None => {
                return false;
            },
        };
        let p = match r1.slot {
            Some(bs) => bs.0,
            None => {
                return false;
            },
        };
        let r2 = EntityRecord { slot: None, ..r1 };
        match r1.on_board {
            None => {
                self.records[entity.0] = Some(r2);
                proof {
                    assert forall|x: Entity| #[trigger]
                        rec_of(old(self).recs(), x) matches Some(rx) ==> (rx.on_board is Some
                            ==> rx.on_slot != Some(OnSlot(entity))) by {
                        if rec_of(old(self).recs(), x) is Some {
                            let rx = rec_of(old(self).recs(), x).unwrap();
                            if rx.on_board is Some && rx.on_slot == Some(OnSlot(entity)) {
                                assert(occupancy_target_ok(old(self).recs(), x));
                                assert(is_member_rec(old(self).recs(), entity, rx.on_board.unwrap().0));
                            }
                        }
                    }
                    lemma_slot_identity_update(
                        old(self).recs(),
                        old(self).boards_seq(),
                        entity,
                        r2,
                    );
                    let recs2 = self.recs();
                    assert forall|i: int|
                        0 <= i < self.boards_seq().len() implies board_consistent(
                        recs2,
                        self.boards_seq()[i].0,
                        (#[trigger] self.boards_seq()[i]).1.lookup@,
                    ) by {
                        let b2 = self.boards_seq()[i].0;
                        let lv = self.boards_seq()[i].1.lookup@;
                        assert(board_consistent(old(self).recs(), b2, lv));
                        lemma_consistent_untouched(
                            old(self).recs(),
                            b2,
                            lv,
                            entity.0 as int,
                            Some(r2),
                        );
                    }
                    assert forall|x: Entity| #[trigger]
                        board_target_ok(recs2, self.boards_seq(), x) by {
                        assert(board_target_ok(old(self).recs(), old(self).boards_seq(), x));
                    }
                    assert forall|x: Entity| #[trigger] occupancy_target_ok(recs2, x) by {
                        assert(occupancy_target_ok(old(self).recs(), x));
                    }
                }
                true
            },
            Some(ob) => {
                let bi0 = match self.find_board(ob.0) {
                    Some(bi) => bi,
                    None => {
                        proof {
                            assert(board_target_ok(
                                old(self).recs(),
                                old(self).boards_seq(),
                                entity,
                            ));
                        }
                        vstd::pervasive::unreached()
                    },
                };
                proof {
                    assert(self.boards_seq()[bi0 as int].1.wf());
                    assert(board_consistent(old(self).recs(), ob.0, old(self).lookup_of(ob.0)));
                    assert(is_slot_at(old(self).recs(), entity, ob.0, p));
                }
                let occupant = self.boards[bi0].1.lookup.get_occupant(p);
                let ghost mid = *old(self);
                match occupant {
                    Some(e0) => {
                        proof {
                            assert(occupies(old(self).recs(), e0, ob.0, p));
                            assert(e0 != entity || rec_of(old(self).recs(), e0).unwrap().on_slot
                                is Some);
                        }
                        self.detach_on_slot(e0);
                        proof {
                            mid = *self;
                        }
                    },
                    None => {},
                }
                proof {
                    assert(mid.wf());
                    assert(mid.has_board(ob.0));
                    mid.lemma_board_facts(ob.0);
                    // the entity's own record: the eviction touched only the
                    // occupant's slot-occupancy field
                    assert(rec_of(mid.recs(), entity) is Some);
                    assert(rec_of(mid.recs(), entity).unwrap().on_board == r1.on_board);
                    assert(rec_of(mid.recs(), entity).unwrap().slot == r1.slot);
                    assert(rec_of(mid.recs(), entity).unwrap().agent_owned == r1.agent_owned);
                    assert(rec_of(mid.recs(), entity).unwrap().on_hand == r1.on_hand);
                    assert(rec_of(mid.recs(), entity).unwrap().on_field == r1.on_field);
                    assert(is_slot_at(mid.recs(), entity, ob.0, p));
                    // nothing with membership still occupies this slot entity
                    assert forall|x: Entity| #[trigger]
                        rec_of(mid.recs(), x) matches Some(rx) ==> (rx.on_board is Some
                            ==> rx.on_slot != Some(OnSlot(entity))) by {
                        if rec_of(mid.recs(), x) is Some {
                            let rx = rec_of(mid.recs(), x).unwrap();
                            if rx.on_board is Some && rx.on_slot == Some(OnSlot(entity)) {
                                assert(occupancy_target_ok(mid.recs(), x));
                                let bx = rx.on_board.unwrap().0;
                                assert(is_member_rec(mid.recs(), entity, bx));
                                assert(bx == ob.0);
                                assert(occupies(mid.recs(), x, ob.0, p));
                                assert(mid.lookup_of(ob.0).occupied.contains_key(p));
                                match occupant {
                                    Some(e0) => {
                                        assert(mid.lookup_of(ob.0).occupied =~= occupied_without(
                                            old(self).lookup_of(ob.0),
                                            e0,
                                        ));
                                        assert(mid.lookup_of(ob.0).occupied[p] != e0);
                                        assert(occupies(mid.recs(), mid.lookup_of(ob.0).occupied[p], ob.0, p));
                                        let y = mid.lookup_of(ob.0).occupied[p];
                                        assert(occupies(old(self).recs(), y, ob.0, p) || y == e0)
                                            by {
                                            if y != e0 {
                                                assert(rec_of(mid.recs(), y) == rec_of(
                                                    old(self).recs(),
                                                    y,
                                                ));
                                            }
                                        }
                                        assert(old(self).lookup_of(ob.0).occupied[p] == y || y == e0);
                                        assert(old(self).lookup_of(ob.0).occupied[p] == e0);
                                        assert(false);
                                    },
                                    None => {
                                        assert(occupies(old(self).recs(), mid.lookup_of(ob.0).occupied[p], ob.0, p));
                                        assert(false);
                                    },
                                }
                            }
                        }
                    }
                }
                let ghost recs1 = self.recs();
                let r1b = match self.records[entity.0] {
                    Some(r) => r,
                    None => vstd::pervasive::unreached(),
                };
                let r2b = EntityRecord { slot: None, ..r1b };
                self.records[entity.0] = Some(r2b);
                proof {
                    assert(r2b == (EntityRecord { on_slot: r1b.on_slot, ..r2 }));
                    lemma_slot_identity_update(recs1, mid.boards_seq(), entity, r2b);
                }
                let bi = match self.find_board(ob.0) {
                    Some(bi) => bi,
                    None => {
                        proof {
                            assert(mid.has_board(ob.0));
                        }
                        vstd::pervasive::unreached()
                    },
                };
                proof {
                    assert(self.boards_seq()[bi as int].1.wf());
                }
                let mut entry = self.boards.remove(bi);
                entry.1.lookup.remove_slot(p);
                self.boards.insert(bi, entry);
                proof {
                    self.lemma_after_record_and_board_update(mid, entity, r2b, bi as int, ob.0);
                    let lvmid = mid.lookup_of(ob.0);
                    let lv2 = self.lookup_of(ob.0);
                    let recs2 = self.recs();
                    assert(lvmid.slots.contains_key(p) && lvmid.slots[p] == entity);
                    assert(lv2.slots == lvmid.slots.remove(p));
                    assert(board_consistent(mid.recs(), ob.0, lvmid));
                    assert forall|e2: Entity| #[trigger]
                        lv2.members.contains(e2) <==> is_member_rec(recs2, e2, ob.0) by {
                        assert(lvmid.members.contains(e2) <==> is_member_rec(mid.recs(), e2, ob.0));
                    }
                    assert forall|a2: Entity, e2: Entity| #[trigger]
                        lv2.owned.contains((a2, e2)) <==> is_member_rec(recs2, e2, ob.0)
                            && has_owner(recs2, e2, a2) by {
                        assert(lvmid.owned.contains((a2, e2)) <==> is_member_rec(mid.recs(), e2, ob.0)
                            && has_owner(mid.recs(), e2, a2));
                    }
                    assert forall|a2: Entity, e2: Entity| #[trigger]
                        lv2.hand.contains((a2, e2)) <==> is_member_rec(recs2, e2, ob.0)
                            && has_owner(recs2, e2, a2) && has_hand_marker(recs2, e2) by {
                        assert(lvmid.hand.contains((a2, e2)) <==> is_member_rec(mid.recs(), e2, ob.0)
                            && has_owner(mid.recs(), e2, a2) && has_hand_marker(mid.recs(), e2));
                    }
                    assert forall|e2: Entity| #[trigger]
                        lv2.on_field.contains(e2) <==> is_member_rec(recs2, e2, ob.0)
                            && has_field_marker(recs2, e2) by {
                        assert(lvmid.on_field.contains(e2) <==> is_member_rec(mid.recs(), e2, ob.0)
                            && has_field_marker(mid.recs(), e2));
                    }
                    assert forall|s2: Entity, p2: IVec3| #[trigger]
                        is_slot_at(recs2, s2, ob.0, p2) implies lv2.slots.contains_key(p2)
                        && lv2.slots[p2] == s2 by {
                        assert(s2 != entity);
                        assert(is_slot_at(mid.recs(), s2, ob.0, p2));
                        assert(lvmid.slots[p2] == s2);
                        if p2 == p {
                            assert(s2 == entity);
                        }
                    }
                    assert forall|p2: IVec3| #[trigger]
                        lv2.slots.contains_key(p2) implies is_slot_at(recs2, lv2.slots[p2], ob.0, p2) by {
                        assert(p2 != p);
                        assert(lvmid.slots.contains_key(p2));
                        let s2 = lvmid.slots[p2];
                        assert(is_slot_at(mid.recs(), s2, ob.0, p2));
                        assert(s2 != entity) by {
                            if s2 == entity {
                                assert(rec_of(mid.recs(), entity).unwrap().slot == Some(
                                    BoardSlot(p2),
                                ));
                            }
                        }
                    }
                    assert forall|e2: Entity, p2: IVec3| #[trigger]
                        occupies(recs2, e2, ob.0, p2) implies lv2.occupied.contains_key(p2)
                        && lv2.occupied[p2] == e2 by {
                        assert(occupies(mid.recs(), e2, ob.0, p2));
                    }
                    assert forall|p2: IVec3| #[trigger]
                        lv2.occupied.contains_key(p2) implies occupies(recs2, lv2.occupied[p2], ob.0, p2) by {
                        assert(occupies(mid.recs(), lvmid.occupied[p2], ob.0, p2));
                    }
                    assert(board_consistent(recs2, ob.0, lv2));
                    assert forall|x: Entity| #[trigger]
                        assoc_has_key(self.boards_seq(), x) == assoc_has_key(mid.boards_seq(), x) by {
                        assert(self.has_board(x) == mid.has_board(x));
                    }
                    assert forall|x: Entity| #[trigger]
                        board_target_ok(recs2, self.boards_seq(), x) by {
                        assert(board_target_ok(recs2, mid.boards_seq(), x));
                        assert(board_target_ok(mid.recs(), mid.boards_seq(), x));
                    }
                    assert forall|x: Entity| #[trigger] occupancy_target_ok(recs2, x) by {
                        assert(occupancy_target_ok(mid.recs(), x));
                    }
                    self.lemma_close_consistency(mid, entity, r2b, bi as int, ob.0);
                    // relate to the pre-call state
                    assert(old(self).boards_unchanged_except(*self, ob.0));
                    assert(old(self).board_data_unchanged(*self, ob.0));
                    let lvold = old(self).lookup_of(ob.0);
                    assert(lv2.slots =~= lvold.slots.remove(p));
                    assert(lv2.occupied =~= lvold.occupied.remove(p)) by {
                        match occupant {
                            Some(e0) => {
                                assert(lvmid.occupied =~= occupied_without(lvold, e0));
                                assert forall|p2: IVec3|
                                    p2 != p && #[trigger] lvold.occupied.contains_key(p2) implies
                                    lvold.occupied[p2] != e0 by {
                                    if lvold.occupied[p2] == e0 {
                                        assert(occupies(old(self).recs(), e0, ob.0, p2));
                                        assert(occupies(old(self).recs(), e0, ob.0, p));
                                        let s0 = rec_of(old(self).recs(), e0).unwrap().on_slot.unwrap().0;
                                        assert(rec_of(old(self).recs(), s0).unwrap().slot == Some(
                                            BoardSlot(p2),
                                        ));
                                        assert(rec_of(old(self).recs(), s0).unwrap().slot == Some(
                                            BoardSlot(p),
                                        ));
                                    }
                                }
                            },
                            None => {},
                        }
                    }
                    assert(r2b == (EntityRecord { slot: None, ..rec_of(mid.recs(), entity).unwrap() }));
                    match occupant {
                        Some(e0) => {
                            let evicted_rec = (EntityRecord {
                                on_slot: None,
                                ..old(self).rec(e0).unwrap()
                            });
                            assert(self.recs() =~= old(self).recs().update(
                                e0.0 as int,
                                Some(evicted_rec),
                            ).update(
                                entity.0 as int,
                                Some(
                                    (EntityRecord {
                                        slot: None,
                                        ..if e0 == entity {
                                            evicted_rec
                                        } else {
                                            r1
                                        }
                                    }),
                                ),
                            ));
                        },
                        None => {
                            assert(self.recs() =~= old(self).recs().update(
                                entity.0 as int,
                                Some(r2),
                            ));
                        },
                    }
                }
                true
            },
        }
    }


    /// Attach board-membership: the entity joins the board, and every
    /// sub-index implied by the components already on it is filled in —
    /// whatever order the components arrived in. A slot identity whose
    /// position is already taken on the board rejects the whole attach; a
    /// slot-occupancy that does not resolve to a member slot of this board
    /// is cleared (self-healing); an occupancy that resolves to an already
    /// occupied slot evicts the stale occupant, which is handed back.
    #[verifier::rlimit(100)]
    pub fn attach_on_board(&mut self, entity: Entity, board: Entity) -> (r: Result<
        AttachBoardOutcome,
        AttachError,
    >)
        requires
            old(self).wf(),
        ensures
            final(self).wf(),
            r == Err::<AttachBoardOutcome, AttachError>(AttachError::NoSuchEntity) <==> !old(
                self,
            ).alive(entity),
            r == Err::<AttachBoardOutcome, AttachError>(AttachError::AlreadyAttached) <==> old(
                self,
            ).alive(entity) && old(self).rec(entity).unwrap().on_board is Some,
            r == Err::<AttachBoardOutcome, AttachError>(AttachError::NoSuchBoard) <==> old(
                self,
            ).alive(entity) && old(self).rec(entity).unwrap().on_board is None && !old(
                self,
            ).has_board(board),
            r == Err::<AttachBoardOutcome, AttachError>(AttachError::PositionTaken) <==> old(
                self,
            ).alive(entity) && old(self).rec(entity).unwrap().on_board is None && old(
                self,
            ).has_board(board) && (old(self).rec(entity).unwrap().slot matches Some(bs) && old(
                self,
            ).lookup_of(board).slots.contains_key(bs.0)),
            r is Err <==> !old(self).alive(entity) || old(self).rec(entity).unwrap().on_board
                is Some || !old(self).has_board(board) || (old(self).rec(entity).unwrap().slot
                matches Some(bs) && old(self).lookup_of(board).slots.contains_key(bs.0)),
            r is Err ==> *final(self) == *old(self),
            r is Ok ==> {
                let r1 = old(self).rec(entity).unwrap();
                let resolvable = r1.on_slot matches Some(os) && old(self).valid_slot_target(
                    board,
                    os.0,
                );
                let r2 = (EntityRecord {
                    on_board: Some(OnBoard(board)),
                    on_slot: if resolvable {
                        r1.on_slot
                    } else {
                        None
                    },
                    ..r1
                });
                let lvold = old(self).lookup_of(board);
                &&& old(self).boards_unchanged_except(*final(self), board)
                &&& old(self).board_data_unchanged(*final(self), board)
                &&& r.unwrap().occupancy_cleared == (r1.on_slot is Some && !resolvable)
                &&& {
                    let ps = if resolvable {
                        Some(old(self).rec(r1.on_slot.unwrap().0).unwrap().slot.unwrap().0)
                    } else {
                        None::<IVec3>
                    };
                    let evicted = if resolvable && lvold.occupied.contains_key(ps.unwrap()) {
                        Some(lvold.occupied[ps.unwrap()])
                    } else {
                        None::<Entity>
                    };
                    &&& r.unwrap().evicted == evicted
                    &&& final(self).lookup_of(board) == (LookupView {
                        members: lvold.members.insert(entity),
                        owned: match r1.agent_owned {
                            Some(ao) => lvold.owned.insert((ao.0, entity)),
                            None => lvold.owned,
                        },
                        hand: match r1.agent_owned {
                            Some(ao) => if r1.on_hand {
                                lvold.hand.push((ao.0, entity))
                            } else {
                                lvold.hand
                            },
                            None => lvold.hand,
                        },
                        on_field: if r1.on_field {
                            lvold.on_field.insert(entity)
                        } else {
                            lvold.on_field
                        },
                        slots: match r1.slot {
                            Some(bs) => lvold.slots.insert(bs.0, entity),
                            None => lvold.slots,
                        },
                        occupied: if resolvable {
                            lvold.occupied.insert(ps.unwrap(), entity)
                        } else {
                            lvold.occupied
                        },
                    })
                    &&& match evicted {
                        Some(e0) => final(self).recs() == old(self).recs().update(
                            e0.0 as int,
                            Some(
                                (EntityRecord { on_slot: None, ..old(self).rec(e0).unwrap() }),
                            ),
                        ).update(entity.0 as int, Some(r2)),
                        None => final(self).recs() == old(self).recs().update(
                            entity.0 as int,
                            Some(r2),
                        ),
                    }
                }
            },
    {
        if entity.0 >= self.records.len() {
            return Err(AttachError::NoSuchEntity);
        }
        let rec0 = self.records[entity.0];
        let r1 = match rec0 {
            Some(r) => r,
            None => {
                return Err(AttachError::NoSuchEntity);
            },
        };
        if r1.on_board.is_some() {
            return Err(AttachError::AlreadyAttached);
        }
        let bi0 = match self.find_board(board) {
            Some(bi) => bi,
            None => {
                return Err(AttachError::NoSuchBoard);
            },
        };
        proof {
            assert(self.boards_seq()[bi0 as int].1.wf());
            assert(board_consistent(old(self).recs(), board, old(self).lookup_of(board)));
        }
        match r1.slot {
            Some(bs) => {
                let taken = self.boards[bi0].1.lookup.get_on_slot(bs.0);
                if taken.is_some() {
                    return Err(AttachError::PositionTaken);
                }
            },
            None => {},
        }
        // resolve the occupancy target, if any
        let mut resolvable: bool = false;
        let mut ps: IVec3 = IVec3 { x: 0, y: 0, z: 0 };
        match r1.on_slot {
            Some(os) => {
                if os.0.0 < self.records.len() {
                    match self.records[os.0.0] {
                        Some(rs) => {
                            match (rs.on_board, rs.slot) {
                                (Some(ob2), Some(bs2)) => {
                                    if ob2.0.0 == board.0 {
                                        proof {
                                            assert(rs.on_board == Some(OnBoard(board)));
                                        }
                                        resolvable = true;
                                        ps = bs2.0;
                                    }
                                },
                                _ => {},
                            }
                        },
                        None => {},
                    }
                }
            },
            None => {},
        }
        proof {
            let r1os = r1.on_slot;
            assert(resolvable == (r1os matches Some(os) && old(self).valid_slot_target(
                board,
                os.0,
            )));
            if resolvable {
                assert(is_slot_at(old(self).recs(), r1.on_slot.unwrap().0, board, ps));
            }
        }
        // evict a stale occupant before any change, while the store is
        // still coherent
        let mut evicted: Option<Entity> = None;
        let ghost mid = *old(self);
        if resolvable {
            let occupant = self.boards[bi0].1.lookup.get_occupant(ps);
            match occupant {
                Some(e0) => {
                    proof {
                        assert(occupies(old(self).recs(), e0, board, ps));
                        assert(e0 != entity);
                    }
                    self.detach_on_slot(e0);
                    proof {
                        mid = *self;
                    }
                    evicted = Some(e0);
                },
                None => {},
            }
        }
        proof {
            assert(mid.wf());
            assert(mid.rec(entity) == Some(r1));
            assert(mid.has_board(board));
            mid.lemma_board_facts(board);
            if resolvable {
                assert(is_slot_at(mid.recs(), r1.on_slot.unwrap().0, board, ps));
                assert(!mid.lookup_of(board).occupied.contains_key(ps)) by {
                    if mid.lookup_of(board).occupied.contains_key(ps) {
                        let x = mid.lookup_of(board).occupied[ps];
                        assert(occupies(mid.recs(), x, board, ps));
                        match evicted {
                            Some(e0) => {
                                assert(mid.lookup_of(board).occupied =~= occupied_without(
                                    old(self).lookup_of(board),
                                    e0,
                                ));
                                assert(x != e0);
                                assert(rec_of(mid.recs(), x) == rec_of(old(self).recs(), x));
                                assert(occupies(old(self).recs(), x, board, ps));
                                assert(old(self).lookup_of(board).occupied[ps] == x);
                                assert(false);
                            },
                            None => {
                                assert(occupies(old(self).recs(), x, board, ps));
                                assert(false);
                            },
                        }
                    }
                }
            }
            // nothing with membership occupies this entity as a slot
            assert forall|x: Entity| #[trigger]
                rec_of(mid.recs(), x) matches Some(rx) ==> (rx.on_board is Some ==> rx.on_slot
                    != Some(OnSlot(entity))) by {
                if rec_of(mid.recs(), x) is Some {
                    let rx = rec_of(mid.recs(), x).unwrap();
                    if rx.on_board is Some && rx.on_slot == Some(OnSlot(entity)) {
                        assert(occupancy_target_ok(mid.recs(), x));
                        assert(is_member_rec(mid.recs(), entity, rx.on_board.unwrap().0));
                    }
                }
            }
        }
        let r2 = EntityRecord {
            on_board: Some(OnBoard(board)),
            on_slot: if resolvable {
                r1.on_slot
            } else {
                None
            },
            ..r1
        };
        let ghost recs1 = self.recs();
        self.records[entity.0] = Some(r2);
        proof {
            lemma_membership_change(recs1, mid.boards_seq(), entity, r2);
        }
        let bi = match self.find_board(board) {
            Some(bi) => bi,
            None => {
                proof {
                    assert(mid.has_board(board));
                }
                vstd::pervasive::unreached()
            },
        };
        proof {
            assert(self.boards_seq()[bi as int].1.wf());
        }
        let mut entry = self.boards.remove(bi);
        proof {
            if entry.1.lookup@.members.contains(entity) {
                assert(is_member_rec(mid.recs(), entity, board));
            }
            match r1.agent_owned {
                Some(ao) => {
                    if entry.1.lookup@.owned.contains((ao.0, entity)) {
                        assert(is_member_rec(mid.recs(), entity, board));
                    }
                    if entry.1.lookup@.hand.contains((ao.0, entity)) {
                        assert(is_member_rec(mid.recs(), entity, board));
                    }
                },
                None => {},
            }
        }
        entry.1.lookup.insert_on_board(entity);
        match r1.agent_owned {
            Some(ao) => {
                entry.1.lookup.insert_by_agent(ao.0, entity);
                if r1.on_hand {
                    entry.1.lookup.insert_on_hand(ao.0, entity);
                }
            },
            None => {},
        }
        if r1.on_field {
            entry.1.lookup.insert_on_field(entity);
        }
        match r1.slot {
            Some(bs) => {
                proof {
                    if entry.1.lookup@.slots.contains_key(bs.0) {
                        assert(old(self).lookup_of(board).slots.contains_key(bs.0));
                    }
                }
                entry.1.lookup.insert_slot(bs.0, entity);
            },
            None => {},
        }
        if resolvable {
            entry.1.lookup.insert_on_slot(ps, entity);
        }
        self.boards.insert(bi, entry);
        proof {
            self.lemma_after_record_and_board_update(mid, entity, r2, bi as int, board);
            let lvmid = mid.lookup_of(board);
            let lv2 = self.lookup_of(board);
            let recs2 = self.recs();
            assert(board_consistent(mid.recs(), board, lvmid));
            match r1.agent_owned {
                Some(ao) => {
                    crate::assoc::lemma_push_contains(lvmid.hand, (ao.0, entity));
                },
                None => {},
            }
            assert forall|e2: Entity| #[trigger]
                lv2.members.contains(e2) <==> is_member_rec(recs2, e2, board) by {
                if e2 != entity {
                    assert(lvmid.members.contains(e2) <==> is_member_rec(mid.recs(), e2, board));
                }
            }
            assert forall|a2: Entity, e2: Entity| #[trigger]
                lv2.owned.contains((a2, e2)) <==> is_member_rec(recs2, e2, board) && has_owner(
                recs2,
                e2,
                a2,
            ) by {
                assert(lvmid.owned.contains((a2, e2)) <==> is_member_rec(mid.recs(), e2, board)
                    && has_owner(mid.recs(), e2, a2));
            }
            assert forall|a2: Entity, e2: Entity| #[trigger]
                lv2.hand.contains((a2, e2)) <==> is_member_rec(recs2, e2, board) && has_owner(
                recs2,
                e2,
                a2,
            ) && has_hand_marker(recs2, e2) by {
                assert(lvmid.hand.contains((a2, e2)) <==> is_member_rec(mid.recs(), e2, board)
                    && has_owner(mid.recs(), e2, a2) && has_hand_marker(mid.recs(), e2));
            }
            assert forall|e2: Entity| #[trigger]
                lv2.on_field.contains(e2) <==> is_member_rec(recs2, e2, board) && has_field_marker(
                recs2,
                e2,
            ) by {
                assert(lvmid.on_field.contains(e2) <==> is_member_rec(mid.recs(), e2, board)
                    && has_field_marker(mid.recs(), e2));
            }
            assert forall|s2: Entity, p2: IVec3| #[trigger]
                is_slot_at(recs2, s2, board, p2) implies lv2.slots.contains_key(p2)
                && lv2.slots[p2] == s2 by {
                if s2 == entity {
                    assert(r2.slot == r1.slot);
                } else {
                    assert(is_slot_at(mid.recs(), s2, board, p2));
                    assert(lvmid.slots.contains_key(p2) && lvmid.slots[p2] == s2);
                    match r1.slot {
                        Some(bs) => {
                            assert(!old(self).lookup_of(board).slots.contains_key(bs.0));
                            assert(p2 != bs.0);
                        },
                        None => {},
                    }
                }
            }
            assert forall|p2: IVec3| #[trigger]
                lv2.slots.contains_key(p2) implies is_slot_at(recs2, lv2.slots[p2], board, p2) by {
                match r1.slot {
                    Some(bs) => {
                        if p2 == bs.0 {
                            assert(lv2.slots[p2] == entity);
                            assert(is_slot_at(recs2, entity, board, p2));
                        } else {
                            assert(lvmid.slots.contains_key(p2));
                            let s2 = lvmid.slots[p2];
                            assert(is_slot_at(mid.recs(), s2, board, p2));
                            assert(s2 != entity) by {
                                if s2 == entity {
                                    assert(is_member_rec(mid.recs(), entity, board));
                                }
                            }
                        }
                    },
                    None => {
                        assert(lvmid.slots.contains_key(p2));
                        let s2 = lvmid.slots[p2];
                        assert(is_slot_at(mid.recs(), s2, board, p2));
                        assert(s2 != entity) by {
                            if s2 == entity {
                                assert(is_member_rec(mid.recs(), entity, board));
                            }
                        }
                    },
                }
            }
            assert forall|e2: Entity, p2: IVec3| #[trigger]
                occupies(recs2, e2, board, p2) implies lv2.occupied.contains_key(p2)
                && lv2.occupied[p2] == e2 by {
                if e2 == entity {
                    assert(resolvable);
                    let s0 = r1.on_slot.unwrap().0;
                    assert(s0 != entity);
                    assert(is_slot_at(recs2, s0, board, p2) == is_slot_at(mid.recs(), s0, board, p2));
                    assert(rec_of(mid.recs(), s0).unwrap().slot == Some(BoardSlot(p2)));
                    assert(p2 == ps);
                } else {
                    assert(occupies(mid.recs(), e2, board, p2));
                    assert(lvmid.occupied.contains_key(p2) && lvmid.occupied[p2] == e2);
                    if resolvable {
                        assert(p2 != ps);
                    }
                }
            }
            assert forall|p2: IVec3| #[trigger]
                lv2.occupied.contains_key(p2) implies occupies(recs2, lv2.occupied[p2], board, p2) by {
                if resolvable && p2 == ps {
                    assert(lv2.occupied[p2] == entity);
                    let s0 = r1.on_slot.unwrap().0;
                    assert(is_slot_at(recs2, s0, board, ps) == is_slot_at(mid.recs(), s0, board, ps));
                    assert(occupies(recs2, entity, board, ps));
                } else {
                    assert(lvmid.occupied.contains_key(p2));
                    let x = lvmid.occupied[p2];
                    assert(occupies(mid.recs(), x, board, p2));
                    assert(x != entity) by {
                        if x == entity {
                            assert(is_member_rec(mid.recs(), entity, board));
                        }
                    }
                }
            }
            assert(board_consistent(recs2, board, lv2));
            assert forall|x: Entity| #[trigger]
                assoc_has_key(self.boards_seq(), x) == assoc_has_key(mid.boards_seq(), x) by {
                assert(self.has_board(x) == mid.has_board(x));
            }
            assert forall|x: Entity| #[trigger]
                board_target_ok(recs2, self.boards_seq(), x) by {
                if x != entity {
                    assert(board_target_ok(recs2, mid.boards_seq(), x));
                    assert(board_target_ok(mid.recs(), mid.boards_seq(), x));
                } else {
                    assert(assoc_has_key(self.boards_seq(), board));
                }
            }
            assert forall|x: Entity| #[trigger] occupancy_target_ok(recs2, x) by {
                if x != entity {
                    assert(occupancy_target_ok(mid.recs(), x));
                } else {
                    if resolvable {
                        let s0 = r1.on_slot.unwrap().0;
                        assert(s0 != entity);
                        assert(is_member_rec(recs2, s0, board) == is_member_rec(
                            mid.recs(),
                            s0,
                            board,
                        ));
                    }
                }
            }
            self.lemma_close_consistency(mid, entity, r2, bi as int, board);
            // relate to the pre-call state
            assert(old(self).boards_unchanged_except(*self, board));
            assert(old(self).board_data_unchanged(*self, board));
            let lvold = old(self).lookup_of(board);
            if resolvable {
                match evicted {
                    Some(e0) => {
                        assert(lvmid.occupied =~= occupied_without(lvold, e0));
                        assert forall|p2: IVec3|
                            p2 != ps && #[trigger] lvold.occupied.contains_key(p2) implies
                            lvold.occupied[p2] != e0 by {
                            if lvold.occupied[p2] == e0 {
                                assert(occupies(old(self).recs(), e0, board, p2));
                                assert(occupies(old(self).recs(), e0, board, ps));
                                let st = rec_of(old(self).recs(), e0).unwrap().on_slot.unwrap().0;
                                assert(rec_of(old(self).recs(), st).unwrap().slot == Some(
                                    BoardSlot(p2),
                                ));
                                assert(rec_of(old(self).recs(), st).unwrap().slot == Some(
                                    BoardSlot(ps),
                                ));
                            }
                        }
                        assert(lv2.occupied =~= lvold.occupied.insert(ps, entity));
                    },
                    None => {
                        assert(lv2.occupied =~= lvold.occupied.insert(ps, entity));
                    },
                }
            }
            assert(self.lookup_of(board).members =~= lvold.members.insert(entity));
        }
        Ok(AttachBoardOutcome {
            evicted,
            occupancy_cleared: r1.on_slot.is_some() && !resolvable,
        })
    }


    /// Detach board-membership: the cascading case. The entity leaves the
    /// board's member set and every sub-index it could possibly belong to,
    /// unconditionally checking each component, and every board-relationship
    /// component is detached with it: slot-occupancy, slot identity,
    /// ownership, and the hand and field markers; only the agent marker
    /// stays. If the entity is a slot, the occupancy of whatever entity sat
    /// in it is forcibly detached too — nothing keeps occupying a slot of a
    /// board it can no longer reach. Reports whether the entity was a
    /// member.
    #[verifier::rlimit(100)]
    pub fn detach_on_board(&mut self, entity: Entity) -> (r: bool)
        requires
            old(self).wf(),
        ensures
            final(self).wf(),
            r == (old(self).alive(entity) && old(self).rec(entity).unwrap().on_board is Some),
            !r ==> *final(self) == *old(self),
            r ==> {
                let r1 = old(self).rec(entity).unwrap();
                let b = r1.on_board.unwrap().0;
                let lvold = old(self).lookup_of(b);
                &&& old(self).boards_unchanged_except(*final(self), b)
                &&& old(self).board_data_unchanged(*final(self), b)
                &&& final(self).rec(entity) == Some(
                    (EntityRecord { agent: r1.agent, ..EntityRecord::spec_empty() }),
                )
                &&& forall|x: Entity|
                    x != entity ==> (#[trigger] final(self).alive(x) == old(self).alive(x) && (old(
                        self,
                    ).alive(x) ==> {
                        let rx = old(self).rec(x).unwrap();
                        let rx2 = final(self).rec(x).unwrap();
                        &&& rx2.on_board == rx.on_board
                        &&& rx2.agent_owned == rx.agent_owned
                        &&& rx2.on_hand == rx.on_hand
                        &&& rx2.on_field == rx.on_field
                        &&& rx2.slot == rx.slot
                        &&& rx2.agent == rx.agent
                        &&& match r1.slot {
                            Some(bs) => if lvold.occupied.contains_key(bs.0)
                                && lvold.occupied[bs.0] == x {
                                rx2.on_slot is None
                            } else {
                                rx2.on_slot == rx.on_slot
                            },
                            None => rx2.on_slot == rx.on_slot,
                        }
                    }))
                &&& final(self).recs().len() == old(self).recs().len()
                &&& final(self).lookup_of(b).members == lvold.members.remove(entity)
                &&& final(self).lookup_of(b).owned == (match r1.agent_owned {
                    Some(ao) => lvold.owned.remove((ao.0, entity)),
                    None => lvold.owned,
                })
                &&& final(self).lookup_of(b).hand == (match r1.agent_owned {
                    Some(ao) => if r1.on_hand {
                        lvold.hand.remove(lvold.hand.index_of((ao.0, entity)))
                    } else {
                        lvold.hand
                    },
                    None => lvold.hand,
                })
                &&& final(self).lookup_of(b).on_field == (if r1.on_field {
                    lvold.on_field.remove(entity)
                } else {
                    lvold.on_field
                })
                &&& final(self).lookup_of(b).slots == (match r1.slot {
                    Some(bs) => lvold.slots.remove(bs.0),
                    None => lvold.slots,
                })
                &&& final(self).lookup_of(b).occupied == (match r1.slot {
                    Some(bs) => occupied_without(lvold, entity).remove(bs.0),
                    None => occupied_without(lvold, entity),
                })
            },
    {
        if entity.0 >= self.records.len() {
            return false;
        }
        let rec0 = self.records[entity.0];
        let r1 = match rec0 {
            Some(r) => r,
            None => {
                return false;
            },
        };
        let ob = match r1.on_board {
            Some(ob) => ob,
            None => {
                return false;
            },
        };
        let ghost lvold = old(self).lookup_of(ob.0);
        proof {
            assert(old(self).has_board(ob.0)) by {
                assert(board_target_ok(old(self).recs(), old(self).boards_seq(), entity));
            }
            old(self).lemma_board_facts(ob.0);
            if r1.on_slot is None {
                assert forall|p: IVec3| #[trigger]
                    lvold.occupied.contains_key(p) implies lvold.occupied[p] != entity by {
                    if lvold.occupied[p] == entity {
                        assert(occupies(old(self).recs(), entity, ob.0, p));
                    }
                }
                assert(occupied_without(lvold, entity) =~= lvold.occupied);
            }
        }
        // cascade, each step through its own coherent detach: the entity's
        // own occupancy; its slot identity, freeing any occupant; its
        // ownership; its hand marker; its field marker
        self.detach_on_slot(entity);
        let ghost m1 = *self;
        proof {
            assert(m1.rec(entity) is Some);
            assert(m1.rec(entity).unwrap() == (EntityRecord { on_slot: None, ..r1 }));
            assert(m1.has_board(ob.0)) by {
                assert(board_target_ok(m1.recs(), m1.boards_seq(), entity));
            }
            assert(m1.lookup_of(ob.0).occupied =~= occupied_without(lvold, entity));
        }
        self.detach_board_slot(entity);
        let ghost m2 = *self;
        proof {
            assert(m2.rec(entity) is Some);
            assert(m2.rec(entity).unwrap() == (EntityRecord {
                on_slot: None,
                slot: None,
                ..r1
            }));
            assert(m2.has_board(ob.0)) by {
                assert(board_target_ok(m2.recs(), m2.boards_seq(), entity));
            }
        }
        self.detach_agent_owned(entity);
        let ghost m3 = *self;
        proof {
            assert(m3.rec(entity) is Some);
            assert(m3.rec(entity).unwrap() == (EntityRecord {
                agent_owned: None,
                on_slot: None,
                slot: None,
                ..r1
            }));
            assert(m3.has_board(ob.0)) by {
                assert(board_target_ok(m3.recs(), m3.boards_seq(), entity));
            }
        }
        self.detach_on_hand(entity);
        let ghost m4 = *self;
        proof {
            assert(m4.rec(entity) is Some);
            assert(m4.rec(entity).unwrap() == (EntityRecord {
                agent_owned: None,
                on_hand: false,
                on_slot: None,
                slot: None,
                ..r1
            }));
            assert(m4.has_board(ob.0)) by {
                assert(board_target_ok(m4.recs(), m4.boards_seq(), entity));
            }
        }
        self.detach_on_field(entity);
        let ghost mid = *self;
        proof {
            assert(mid.wf());
            assert(mid.rec(entity) is Some);
            assert(mid.rec(entity).unwrap() == (EntityRecord {
                on_board: r1.on_board,
                agent: r1.agent,
                ..EntityRecord::spec_empty()
            }));
            assert(mid.has_board(ob.0)) by {
                assert(board_target_ok(mid.recs(), mid.boards_seq(), entity));
            }
            mid.lemma_board_facts(ob.0);
            assert(is_member_rec(mid.recs(), entity, ob.0));
            // no membership-carrying entity occupies this entity
            assert forall|x: Entity| #[trigger]
                rec_of(mid.recs(), x) matches Some(rx) ==> (rx.on_board is Some ==> rx.on_slot
                    != Some(OnSlot(entity))) by {
                if rec_of(mid.recs(), x) is Some {
                    let rx = rec_of(mid.recs(), x).unwrap();
                    if rx.on_board is Some && rx.on_slot == Some(OnSlot(entity)) {
                        assert(occupancy_target_ok(mid.recs(), x));
                        assert(is_member_rec(mid.recs(), entity, rx.on_board.unwrap().0));
                        assert(rec_of(mid.recs(), entity).unwrap().slot is Some);
                    }
                }
            }
        }
        let r1c = match self.records[entity.0] {
            Some(r) => r,
            None => vstd::pervasive::unreached(),
        };
        let r2 = EntityRecord { on_board: None, ..r1c };
        let ghost recs1 = self.recs();
        self.records[entity.0] = Some(r2);
        proof {
            lemma_membership_change(recs1, mid.boards_seq(), entity, r2);
        }
        let bi = match self.find_board(ob.0) {
            Some(bi) => bi,
            None => {
                proof {
                    assert(mid.has_board(ob.0));
                }
                vstd::pervasive::unreached()
            },
        };
        proof {
            assert(self.boards_seq()[bi as int].1.wf());
        }
        let mut entry = self.boards.remove(bi);
        let ghost lvmid = entry.1.lookup@;
        proof {
            assert(lvmid == mid.lookup_of(ob.0));
            assert(board_consistent(mid.recs(), ob.0, lvmid));
        }
        entry.1.lookup.remove_from_board(entity);
        self.boards.insert(bi, entry);
        proof {
            self.lemma_after_record_and_board_update(mid, entity, r2, bi as int, ob.0);
            let lv2 = self.lookup_of(ob.0);
            let recs2 = self.recs();
            assert forall|e2: Entity| #[trigger]
                lv2.members.contains(e2) <==> is_member_rec(recs2, e2, ob.0) by {
                if e2 != entity {
                    assert(lvmid.members.contains(e2) <==> is_member_rec(mid.recs(), e2, ob.0));
                }
            }
            assert forall|a2: Entity, e2: Entity| #[trigger]
                lv2.owned.contains((a2, e2)) <==> is_member_rec(recs2, e2, ob.0) && has_owner(
                recs2,
                e2,
                a2,
            ) by {
                assert(lvmid.owned.contains((a2, e2)) <==> is_member_rec(mid.recs(), e2, ob.0)
                    && has_owner(mid.recs(), e2, a2));
                if e2 == entity && lvmid.owned.contains((a2, entity)) {
                    assert(has_owner(mid.recs(), entity, a2));
                }
            }
            assert forall|a2: Entity, e2: Entity| #[trigger]
                lv2.hand.contains((a2, e2)) <==> is_member_rec(recs2, e2, ob.0) && has_owner(
                recs2,
                e2,
                a2,
            ) && has_hand_marker(recs2, e2) by {
                assert(lvmid.hand.contains((a2, e2)) <==> is_member_rec(mid.recs(), e2, ob.0)
                    && has_owner(mid.recs(), e2, a2) && has_hand_marker(mid.recs(), e2));
                if e2 == entity && lvmid.hand.contains((a2, entity)) {
                    assert(has_owner(mid.recs(), entity, a2));
                }
            }
            assert forall|e2: Entity| #[trigger]
                lv2.on_field.contains(e2) <==> is_member_rec(recs2, e2, ob.0) && has_field_marker(
                recs2,
                e2,
            ) by {
                assert(lvmid.on_field.contains(e2) <==> is_member_rec(mid.recs(), e2, ob.0)
                    && has_field_marker(mid.recs(), e2));
                if e2 == entity && lvmid.on_field.contains(entity) {
                    assert(has_field_marker(mid.recs(), entity));
                }
            }
            assert forall|s2: Entity, p2: IVec3| #[trigger]
                is_slot_at(recs2, s2, ob.0, p2) implies lv2.slots.contains_key(p2)
                && lv2.slots[p2] == s2 by {
                assert(s2 != entity);
                assert(is_slot_at(mid.recs(), s2, ob.0, p2));
            }
            assert forall|p2: IVec3| #[trigger]
                lv2.slots.contains_key(p2) implies is_slot_at(recs2, lv2.slots[p2], ob.0, p2) by {
                let s2 = lvmid.slots[p2];
                assert(is_slot_at(mid.recs(), s2, ob.0, p2));
                assert(s2 != entity) by {
                    if s2 == entity {
                        assert(rec_of(mid.recs(), entity).unwrap().slot is Some);
                    }
                }
            }
            assert forall|e2: Entity, p2: IVec3| #[trigger]
                occupies(recs2, e2, ob.0, p2) implies lv2.occupied.contains_key(p2)
                && lv2.occupied[p2] == e2 by {
                assert(e2 != entity);
                assert(occupies(mid.recs(), e2, ob.0, p2));
            }
            assert forall|p2: IVec3| #[trigger]
                lv2.occupied.contains_key(p2) implies occupies(recs2, lv2.occupied[p2], ob.0, p2) by {
                let x = lvmid.occupied[p2];
                assert(occupies(mid.recs(), x, ob.0, p2));
                assert(x != entity) by {
                    if x == entity {
                        assert(rec_of(mid.recs(), entity).unwrap().on_slot is Some);
                    }
                }
            }
            assert(board_consistent(recs2, ob.0, lv2));
            assert forall|x: Entity| #[trigger]
                assoc_has_key(self.boards_seq(), x) == assoc_has_key(mid.boards_seq(), x) by {
                assert(self.has_board(x) == mid.has_board(x));
            }
            assert forall|x: Entity| #[trigger]
                board_target_ok(recs2, self.boards_seq(), x) by {
                if x != entity {
                    assert(board_target_ok(recs2, mid.boards_seq(), x));
                    assert(board_target_ok(mid.recs(), mid.boards_seq(), x));
                }
            }
            assert forall|x: Entity| #[trigger] occupancy_target_ok(recs2, x) by {
                if x != entity {
                    assert(occupancy_target_ok(mid.recs(), x));
                }
            }
            self.lemma_close_consistency(mid, entity, r2, bi as int, ob.0);
            // relate to the pre-call state
            assert(old(self).boards_unchanged_except(*self, ob.0)) by {
                assert forall|x: Entity| #[trigger]
                    self.has_board(x) == old(self).has_board(x) by {
                    assert(m1.has_board(x) == old(self).has_board(x));
                    assert(m2.has_board(x) == m1.has_board(x));
                    assert(m3.has_board(x) == m2.has_board(x));
                    assert(m4.has_board(x) == m3.has_board(x));
                    assert(mid.has_board(x) == m4.has_board(x));
                    assert(self.has_board(x) == mid.has_board(x));
                }
                assert forall|x: Entity|
                    x != ob.0 && old(self).has_board(x) implies #[trigger] self.board_of(x) == old(
                    self,
                ).board_of(x) by {
                    assert(m1.board_of(x) == old(self).board_of(x));
                    assert(m1.has_board(x));
                    assert(m2.board_of(x) == m1.board_of(x));
                    assert(m2.has_board(x));
                    assert(m3.board_of(x) == m2.board_of(x));
                    assert(m3.has_board(x));
                    assert(m4.board_of(x) == m3.board_of(x));
                    assert(m4.has_board(x));
                    assert(mid.board_of(x) == m4.board_of(x));
                    assert(mid.has_board(x));
                    assert(self.board_of(x) == mid.board_of(x));
                }
            }
            assert(old(self).board_data_unchanged(*self, ob.0));
            let lv2 = self.lookup_of(ob.0);
            assert(lvmid.members == lvold.members);
            assert(lv2.members =~= lvold.members.remove(entity));
            match r1.agent_owned {
                Some(ao) => {
                    assert(m2.lookup_of(ob.0).hand == lvold.hand);
                    assert(m2.lookup_of(ob.0).owned == lvold.owned);
                    assert(lv2.owned =~= lvold.owned.remove((ao.0, entity)));
                    if r1.on_hand {
                        assert(lv2.hand == lvold.hand.remove(lvold.hand.index_of((ao.0, entity))));
                    } else {
                        assert(lv2.hand == lvold.hand);
                    }
                },
                None => {
                    assert(lv2.owned =~= lvold.owned);
                    assert(lv2.hand == lvold.hand);
                },
            }
            if r1.on_field {
                assert(m4.lookup_of(ob.0).on_field == lvold.on_field);
                assert(lv2.on_field =~= lvold.on_field.remove(entity));
            } else {
                assert(lv2.on_field =~= lvold.on_field);
            }
            match r1.slot {
                Some(bs) => {
                    assert(m1.lookup_of(ob.0).slots == lvold.slots);
                    assert(lv2.slots =~= lvold.slots.remove(bs.0));
                    assert(lv2.occupied =~= occupied_without(lvold, entity).remove(bs.0));
                },
                None => {
                    assert(lv2.slots =~= lvold.slots);
                    assert(lv2.occupied =~= occupied_without(lvold, entity));
                },
            }
            assert(self.rec(entity) == Some(
                (EntityRecord { agent: r1.agent, ..EntityRecord::spec_empty() }),
            ));
            // other records: only the evicted occupant of this entity's
            // slot loses its occupancy
            assert forall|x: Entity|
                x != entity implies (#[trigger] self.alive(x) == old(self).alive(x) && (old(
                self,
            ).alive(x) ==> {
                let rx = old(self).rec(x).unwrap();
                let rx2 = self.rec(x).unwrap();
                &&& rx2.on_board == rx.on_board
                &&& rx2.agent_owned == rx.agent_owned
                &&& rx2.on_hand == rx.on_hand
                &&& rx2.on_field == rx.on_field
                &&& rx2.slot == rx.slot
                &&& rx2.agent == rx.agent
                &&& match r1.slot {
                    Some(bs) => if lvold.occupied.contains_key(bs.0) && lvold.occupied[bs.0]
                        == x {
                        rx2.on_slot is None
                    } else {
                        rx2.on_slot == rx.on_slot
                    },
                    None => rx2.on_slot == rx.on_slot,
                }
            })) by {
                assert(rec_of(m1.recs(), x) == rec_of(old(self).recs(), x));
                assert(rec_of(m3.recs(), x) == rec_of(m2.recs(), x));
                assert(rec_of(m4.recs(), x) == rec_of(m3.recs(), x));
                assert(rec_of(mid.recs(), x) == rec_of(m4.recs(), x));
                assert(rec_of(self.recs(), x) == rec_of(mid.recs(), x));
                match r1.slot {
                    Some(bs) => {
                        if m1.lookup_of(ob.0).occupied.contains_key(bs.0) {
                            let e0 = m1.lookup_of(ob.0).occupied[bs.0];
                            assert(e0 != entity);
                            assert(lvold.occupied.contains_key(bs.0) && lvold.occupied[bs.0]
                                == e0);
                            if x == e0 {
                                assert(rec_of(m2.recs(), x).unwrap().on_slot is None);
                            } else {
                                assert(rec_of(m2.recs(), x) == rec_of(m1.recs(), x));
                            }
                        } else {
                            assert(rec_of(m2.recs(), x) == rec_of(m1.recs(), x));
                            if lvold.occupied.contains_key(bs.0) {
                                assert(lvold.occupied[bs.0] == entity);
                            }
                        }
                    },
                    None => {
                        assert(rec_of(m2.recs(), x) == rec_of(m1.recs(), x));
                    },
                }
            }
            assert(self.recs().len() == old(self).recs().len());
        }
        true
    }

    /// Close the store invariant after one board's non-index data (state or
    /// client marker) changed in place.
    proof fn lemma_after_board_data_update(self, pre: EntityStore, bi: int)
        requires
            pre.wf(),
            0 <= bi < pre.boards_seq().len(),
            self.recs() == pre.recs(),
            self.boards_seq() == pre.boards_seq().remove(bi).insert(
                bi,
                (pre.boards_seq()[bi].0, self.boards_seq()[bi].1),
            ),
            self.boards_seq()[bi].1.lookup == pre.boards_seq()[bi].1.lookup,
            self.boards_seq()[bi].1.wf(),
        ensures
            self.wf(),
            pre.boards_unchanged_except(self, pre.boards_seq()[bi].0),
            self.board_of(pre.boards_seq()[bi].0) == self.boards_seq()[bi].1,
    {
        let t = self.boards_seq();
        let s = pre.boards_seq();
        let b = s[bi].0;
        assert(t =~= s.update(bi, (b, t[bi].1)));
        lemma_assoc_set_value(s, bi, t[bi].1);
        assert forall|i: int| 0 <= i < t.len() implies (#[trigger] t[i]).1.wf() by {
            if i != bi {
                assert(t[i] == s[i]);
                assert(s[i].1.wf());
            }
        }
        assert forall|i: int| 0 <= i < t.len() implies board_consistent(
            self.recs(),
            t[i].0,
            (#[trigger] t[i]).1.lookup@,
        ) by {
            if i != bi {
                assert(t[i] == s[i]);
                assert(board_consistent(pre.recs(), s[i].0, s[i].1.lookup@));
            } else {
                assert(board_consistent(pre.recs(), s[bi].0, s[bi].1.lookup@));
                assert(t[bi].1.lookup@ == s[bi].1.lookup@);
            }
        }
        assert forall|i: int| 0 <= i < t.len() implies rec_of(self.recs(), (#[trigger] t[i]).0)
            is Some by {
            assert(t[i].0 == s[i].0);
            assert(rec_of(pre.recs(), s[i].0) is Some);
        }
        assert forall|e: Entity| #[trigger] board_target_ok(self.recs(), t, e) by {
            assert(board_target_ok(pre.recs(), s, e));
            match rec_of(pre.recs(), e) {
                Some(r) => match r.on_board {
                    Some(ob) => {
                        assert(assoc_has_key(t, ob.0) == assoc_has_key(s, ob.0));
                    },
                    None => {},
                },
                None => {},
            }
        }
        assert forall|e: Entity| #[trigger] occupancy_target_ok(self.recs(), e) by {
            assert(occupancy_target_ok(pre.recs(), e));
        }
        assert forall|x: Entity| x != b && pre.has_board(x) implies #[trigger] self.board_of(x)
            == pre.board_of(x) by {}
    }

    /// Append an agent to a board's turn order. Fails (no change) when the
    /// board does not exist.
    pub fn board_add_agent(&mut self, board: Entity, agent: Entity) -> (r: bool)
        requires
            old(self).wf(),
        ensures
            final(self).wf(),
            r == old(self).has_board(board),
            !r ==> *final(self) == *old(self),
            r ==> {
                &&& old(self).boards_unchanged_except(*final(self), board)
                &&& final(self).recs() == old(self).recs()
                &&& final(self).lookup_of(board) == old(self).lookup_of(board)
                &&& final(self).state_of(board).agents@ == old(self).state_of(
                    board,
                ).agents@.push(agent)
                &&& final(self).state_of(board).current_turn_agent == old(self).state_of(
                    board,
                ).current_turn_agent
                &&& final(self).state_of(board).current_turn_agent_index == old(self).state_of(
                    board,
                ).current_turn_agent_index
                &&& final(self).state_of(board).stage == old(self).state_of(board).stage
                &&& final(self).board_of(board).client_is_on_board == old(self).board_of(
                    board,
                ).client_is_on_board
            },
    {
        let bi = match self.find_board(board) {
            Some(bi) => bi,
            None => {
                return false;
            },
        };
        proof {
            assert(self.boards_seq()[bi as int].1.wf());
        }
        let mut entry = self.boards.remove(bi);
        entry.1.add_agent(agent);
        self.boards.insert(bi, entry);
        proof {
            self.lemma_after_board_data_update(*old(self), bi as int);
        }
        true
    }

    /// Hand the first turn of a board to its first agent. Fails (no
    /// change) when the board is missing, already started, or has no
    /// agents.
    pub fn board_game_start(&mut self, board: Entity) -> (r: bool)
        requires
            old(self).wf(),
        ensures
            final(self).wf(),
            r == (old(self).has_board(board) && old(self).state_of(board).current_turn_agent
                is None && old(self).state_of(board).agents@.len() > 0),
            !r ==> *final(self) == *old(self),
            r ==> {
                &&& old(self).boards_unchanged_except(*final(self), board)
                &&& final(self).recs() == old(self).recs()
                &&& final(self).lookup_of(board) == old(self).lookup_of(board)
                &&& final(self).state_of(board) == (crate::state::BoardState {
                    current_turn_agent: Some(old(self).state_of(board).agents@[0]),
                    ..old(self).state_of(board)
                })
                &&& final(self).board_of(board).client_is_on_board == old(self).board_of(
                    board,
                ).client_is_on_board
            },
    {
        let bi = match self.find_board(board) {
            Some(bi) => bi,
            None => {
                return false;
            },
        };
        proof {
            assert(self.boards_seq()[bi as int].1.wf());
        }
        if self.boards[bi].1.state.current_turn_agent.is_some() {
            return false;
        }
        if self.boards[bi].1.state.agents.len() == 0 {
            return false;
        }
        let mut entry = self.boards.remove(bi);
        entry.1.state.game_start();
        self.boards.insert(bi, entry);
        proof {
            self.lemma_after_board_data_update(*old(self), bi as int);
        }
        true
    }

    /// Advance a board to a stage, passing the turn circularly when the
    /// stage is `Start`. `Ok(true)` on success; `Ok(false)` reports the
    /// invalid attempt to advance a board with no agents, which changes
    /// nothing; `Err(())` names a missing board.
    pub fn board_advance_stage(&mut self, board: Entity, stage: BoardStage) -> (r: Result<
        bool,
        (),
    >)
        requires
            old(self).wf(),
        ensures
            final(self).wf(),
            r is Err <==> !old(self).has_board(board),
            r is Err ==> *final(self) == *old(self),
            r == Ok::<bool, ()>(false) <==> old(self).has_board(board) && old(self).state_of(
                board,
            ).agents@.len() == 0,
            r == Ok::<bool, ()>(false) ==> *final(self) == *old(self),
            r == Ok::<bool, ()>(true) ==> {
                let st = old(self).state_of(board);
                let st2 = final(self).state_of(board);
                &&& old(self).boards_unchanged_except(*final(self), board)
                &&& final(self).recs() == old(self).recs()
                &&& final(self).lookup_of(board) == old(self).lookup_of(board)
                &&& final(self).board_of(board).client_is_on_board == old(self).board_of(
                    board,
                ).client_is_on_board
                &&& st2.agents == st.agents
                &&& st2.stage == stage
                &&& st2.tick_triggers == st.tick_triggers
                &&& st2.current_tree == st.current_tree
                &&& (stage != BoardStage::Start ==> st2.current_turn_agent
                    == st.current_turn_agent && st2.current_turn_agent_index
                    == st.current_turn_agent_index)
                &&& (stage == BoardStage::Start && st.current_turn_agent is None ==> {
                    &&& st2.current_turn_agent_index == 0
                    &&& st2.current_turn_agent == Some(st.agents@[0])
                })
                &&& (stage == BoardStage::Start && st.current_turn_agent is Some ==> {
                    &&& (st2.current_turn_agent_index as int) == crate::state::next_turn_index(
                        st.current_turn_agent_index as int,
                        st.agents@.len() as int,
                    )
                    &&& st2.current_turn_agent == Some(
                        st.agents@[st2.current_turn_agent_index as int],
                    )
                })
            },
    {
        let bi = match self.find_board(board) {
            Some(bi) => bi,
            None => {
                return Err(());
            },
        };
        proof {
            assert(self.boards_seq()[bi as int].1.wf());
        }
        if self.boards[bi].1.state.agents.len() == 0 {
            return Ok(false);
        }
        let mut entry = self.boards.remove(bi);
        let advanced = entry.1.state.advance_stage(stage);
        self.boards.insert(bi, entry);
        proof {
            self.lemma_after_board_data_update(*old(self), bi as int);
        }
        Ok(advanced)
    }

    /// Record which agent this client controls on a board. Fails (no
    /// change) when the board does not exist.
    pub fn set_client_agent(&mut self, board: Entity, agent: Option<Entity>) -> (r: bool)
        requires
            old(self).wf(),
        ensures
            final(self).wf(),
            r == old(self).has_board(board),
            !r ==> *final(self) == *old(self),
            r ==> {
                &&& old(self).boards_unchanged_except(*final(self), board)
                &&& final(self).recs() == old(self).recs()
                &&& final(self).lookup_of(board) == old(self).lookup_of(board)
                &&& final(self).state_of(board) == old(self).state_of(board)
                &&& final(self).board_of(board).client_is_on_board == agent
            },
    {
        let bi = match self.find_board(board) {
            Some(bi) => bi,
            None => {
                return false;
            },
        };
        proof {
            assert(self.boards_seq()[bi as int].1.wf());
        }
        let mut entry = self.boards.remove(bi);
        entry.1.client_is_on_board = agent;
        self.boards.insert(bi, entry);
        proof {
            self.lemma_after_board_data_update(*old(self), bi as int);
        }
        true
    }

    /// Record a (card, effect index) trigger on a board for resolution
    /// this tick. Fails (no change) when the board does not exist.
    pub fn board_trigger_effect(&mut self, board: Entity, card: Entity, effect_index: usize) -> (r:
        bool)
        requires
            old(self).wf(),
        ensures
            final(self).wf(),
            r == old(self).has_board(board),
            !r ==> *final(self) == *old(self),
            r ==> {
                &&& old(self).boards_unchanged_except(*final(self), board)
                &&& final(self).recs() == old(self).recs()
                &&& final(self).lookup_of(board) == old(self).lookup_of(board)
                &&& final(self).state_of(board).tick_triggers@ == old(self).state_of(
                    board,
                ).tick_triggers@.push((card, effect_index))
                &&& final(self).state_of(board).agents == old(self).state_of(board).agents
                &&& final(self).state_of(board).current_turn_agent == old(self).state_of(
                    board,
                ).current_turn_agent
                &&& final(self).state_of(board).stage == old(self).state_of(board).stage
                &&& final(self).state_of(board).current_tree == old(self).state_of(
                    board,
                ).current_tree
            },
    {
        let bi = match self.find_board(board) {
            Some(bi) => bi,
            None => {
                return false;
            },
        };
        proof {
            assert(self.boards_seq()[bi as int].1.wf());
        }
        let mut entry = self.boards.remove(bi);
        entry.1.state.trigger_effect(card, effect_index);
        self.boards.insert(bi, entry);
        proof {
            self.lemma_after_board_data_update(*old(self), bi as int);
        }
        true
    }

    /// Record an activated effect in a board's resolution tree. Fails (no
    /// change) when the board does not exist.
    pub fn board_activate_effect(&mut self, board: Entity, card: Entity) -> (r: bool)
        requires
            old(self).wf(),
        ensures
            final(self).wf(),
            r == old(self).has_board(board),
            !r ==> *final(self) == *old(self),
            r ==> {
                &&& old(self).boards_unchanged_except(*final(self), board)
                &&& final(self).recs() == old(self).recs()
                &&& final(self).lookup_of(board) == old(self).lookup_of(board)
                &&& crate::state::tree_chain(final(self).state_of(board)) == crate::state::tree_chain(
                    old(self).state_of(board),
                ).push(card)
                &&& final(self).state_of(board).agents == old(self).state_of(board).agents
                &&& final(self).state_of(board).current_turn_agent == old(self).state_of(
                    board,
                ).current_turn_agent
                &&& final(self).state_of(board).stage == old(self).state_of(board).stage
                &&& final(self).state_of(board).tick_triggers == old(self).state_of(
                    board,
                ).tick_triggers
            },
    {
        let bi = match self.find_board(board) {
            Some(bi) => bi,
            None => {
                return false;
            },
        };
        proof {
            assert(self.boards_seq()[bi as int].1.wf());
        }
        let mut entry = self.boards.remove(bi);
        entry.1.state.activate_effect(card);
        self.boards.insert(bi, entry);
        proof {
            self.lemma_after_board_data_update(*old(self), bi as int);
        }
        true
    }

    /// The board data of a board entity, to read from.
    pub fn get_board(&self, board: Entity) -> (r: Option<&Board>)
        requires
            self.wf(),
        ensures
            match r {
                Some(bd) => self.has_board(board) && *bd == self.board_of(board) && bd.wf(),
                None => !self.has_board(board),
            },
    {
        let bi = match self.find_board(board) {
            Some(bi) => bi,
            None => {
                return None;
            },
        };
        proof {
            assert(self.boards_seq()[bi as int].1.wf());
        }
        Some(&self.boards[bi].1)
    }

    /// The components attached to an entity, if it is alive.
    pub fn get_record(&self, entity: Entity) -> (r: Option<EntityRecord>)
        ensures
            r == self.rec(entity),
    {
        if entity.0 >= self.records.len() {
            return None;
        }
        self.records[entity.0]
    }


    /// Tear the board down: every member entity has all of its
    /// board-relationship components stripped (the full cascade per
    /// entity), and the board data itself is removed. Afterwards no entity
    /// anywhere still carries board-membership pointing at it, members keep
    /// only their agent marker, and non-members are untouched. Fails (no
    /// change) when the board does not exist.
    pub fn destroy_board(&mut self, board: Entity) -> (r: bool)
        requires
            old(self).wf(),
        ensures
            final(self).wf(),
            r == old(self).has_board(board),
            !r ==> *final(self) == *old(self),
            r ==> {
                &&& !final(self).has_board(board)
                &&& forall|b2: Entity|
                    b2 != board ==> #[trigger] final(self).has_board(b2) == old(self).has_board(b2)
                &&& forall|b2: Entity|
                    b2 != board && old(self).has_board(b2) ==> #[trigger] final(self).board_of(b2)
                        == old(self).board_of(b2)
                &&& forall|e: Entity| #[trigger] final(self).alive(e) == old(self).alive(e)
                &&& final(self).recs().len() == old(self).recs().len()
                &&& forall|e: Entity| #[trigger]
                    final(self).alive(e) ==> final(self).rec(e).unwrap().on_board != Some(
                        OnBoard(board),
                    )
                &&& forall|e: Entity|
                    old(self).alive(e) && old(self).rec(e).unwrap().on_board == Some(
                        OnBoard(board),
                    ) ==> #[trigger] final(self).rec(e) == Some(
                        (EntityRecord {
                            agent: old(self).rec(e).unwrap().agent,
                            ..EntityRecord::spec_empty()
                        }),
                    )
                &&& forall|e: Entity|
                    old(self).alive(e) && old(self).rec(e).unwrap().on_board != Some(
                        OnBoard(board),
                    ) ==> #[trigger] final(self).rec(e) == old(self).rec(e)
            },
    {
        let bi = match self.find_board(board) {
            Some(bi) => bi,
            None => {
                return false;
            },
        };
        proof {
            assert(self.boards_seq()[bi as int].1.wf());
            assert(board_consistent(old(self).recs(), board, old(self).lookup_of(board)));
        }
        let members = copy_entities(self.boards[bi].1.lookup.get_entities());
        let n = members.len();
        let mut i: usize = 0;
        proof {
            assert(members@.subrange(0, n as int) =~= members@);
            assert forall|j: int| 0 <= j < n implies #[trigger] self.rec(members@[j])
                matches Some(rj) && rj.on_board == Some(OnBoard(board)) by {
                assert(members@.contains(members@[j]));
                crate::assoc::lemma_to_set_contains(members@, members@[j]);
                assert(old(self).lookup_of(board).members.contains(members@[j]));
                assert(is_member_rec(old(self).recs(), members@[j], board));
            }
        }
        while i < n
            invariant
                n == members@.len(),
                i <= n,
                self.wf(),
                seq_no_dup(members@),
                self.has_board(board),
                old(self).boards_unchanged_except(*self, board),
                old(self).board_data_unchanged(*self, board),
                forall|e: Entity| #[trigger] self.alive(e) == old(self).alive(e),
                self.recs().len() == old(self).recs().len(),
                self.lookup_of(board).members == members@.subrange(i as int, n as int).to_set(),
                forall|e: Entity|
                    old(self).alive(e) && old(self).rec(e).unwrap().on_board != Some(
                        OnBoard(board),
                    ) ==> #[trigger] self.rec(e) == old(self).rec(e),
                forall|j: int|
                    0 <= j < i ==> #[trigger] self.rec(members@[j]) == Some(
                        (EntityRecord {
                            agent: old(self).rec(members@[j]).unwrap().agent,
                            ..EntityRecord::spec_empty()
                        }),
                    ),
                forall|j: int|
                    i <= j < n ==> (#[trigger] self.rec(members@[j]) matches Some(rj)
                        && rj.on_board == Some(OnBoard(board)) && rj.agent == old(self).rec(
                        members@[j],
                    ).unwrap().agent),
            decreases n - i,
        {
            let e = members[i];
            proof {
                let suffix = members@.subrange(i as int, n as int);
                assert(suffix[0] == e);
                assert(suffix.contains(e));
                assert(self.lookup_of(board).members.contains(e));
                self.lemma_board_facts(board);
                assert(is_member_rec(self.recs(), e, board));
            }
            let ghost pre_iter = *self;
            proof {
                assert(pre_iter.rec(e).unwrap().agent == old(self).rec(e).unwrap().agent);
            }
            self.detach_on_board(e);
            proof {
                let suffix = pre_iter.lookup_of(board).members;
                assert(self.lookup_of(board).members =~= suffix.remove(e));
                let sfx = members@.subrange(i as int, n as int);
                assert(seq_no_dup(sfx));
                crate::assoc::lemma_to_set_remove(sfx, 0);
                assert(sfx.remove(0) =~= members@.subrange(i + 1, n as int));
                assert(self.lookup_of(board).members =~= members@.subrange(
                    i + 1,
                    n as int,
                ).to_set());
                // the one record the cascade may touch besides the member is
                // the occupant of its slot, itself a member of this board
                let r1 = pre_iter.rec(e).unwrap();
                assert forall|x: Entity|
                    x != e && pre_iter.alive(x) && pre_iter.rec(x).unwrap().on_board != Some(
                        OnBoard(board),
                    ) implies #[trigger] self.rec(x) == pre_iter.rec(x) by {
                    assert(self.alive(x) == pre_iter.alive(x));
                    let rx = pre_iter.rec(x).unwrap();
                    let rx2 = self.rec(x).unwrap();
                    match r1.slot {
                        Some(bs) => {
                            if pre_iter.lookup_of(board).occupied.contains_key(bs.0)
                                && pre_iter.lookup_of(board).occupied[bs.0] == x {
                                pre_iter.lemma_board_facts(board);
                                assert(occupies(pre_iter.recs(), x, board, bs.0));
                            }
                        },
                        None => {},
                    }
                    assert(rx2.on_slot == rx.on_slot);
                    assert(rx2 == rx);
                }
                assert forall|x: Entity|
                    old(self).alive(x) && old(self).rec(x).unwrap().on_board != Some(
                        OnBoard(board),
                    ) implies #[trigger] self.rec(x) == old(self).rec(x) by {
                    assert(pre_iter.rec(x) == old(self).rec(x));
                    assert(x != e);
                }
                assert forall|j: int| 0 <= j < i + 1 implies #[trigger] self.rec(members@[j])
                    == Some(
                    (EntityRecord {
                        agent: old(self).rec(members@[j]).unwrap().agent,
                        ..EntityRecord::spec_empty()
                    }),
                ) by {
                    if j < i {
                        let x = members@[j];
                        assert(x != e);
                        assert(pre_iter.rec(x) == Some(
                            (EntityRecord {
                                agent: old(self).rec(x).unwrap().agent,
                                ..EntityRecord::spec_empty()
                            }),
                        ));
                        assert(self.alive(x) == pre_iter.alive(x));
                        let rx = pre_iter.rec(x).unwrap();
                        let rx2 = self.rec(x).unwrap();
                        match r1.slot {
                            Some(bs) => {
                                if pre_iter.lookup_of(board).occupied.contains_key(bs.0)
                                    && pre_iter.lookup_of(board).occupied[bs.0] == x {
                                    pre_iter.lemma_board_facts(board);
                                    assert(occupies(pre_iter.recs(), x, board, bs.0));
                                    assert(is_member_rec(pre_iter.recs(), x, board));
                                }
                            },
                            None => {},
                        }
                        assert(rx2.on_slot == rx.on_slot);
                        assert(rx2 == rx);
                        assert(self.rec(x) == pre_iter.rec(x));
                    } else {
                        assert(members@[j] == e);
                    }
                }
                assert forall|j: int| i + 1 <= j < n implies (#[trigger] self.rec(members@[j])
                    matches Some(rj) && rj.on_board == Some(OnBoard(board)) && rj.agent == old(
                    self,
                ).rec(members@[j]).unwrap().agent) by {
                    let x = members@[j];
                    assert(x != e) by {
                        if x == e {
                            assert(members@[j] == members@[i as int]);
                        }
                    }
                    assert(self.alive(x) == pre_iter.alive(x));
                    let rx = pre_iter.rec(x).unwrap();
                    let rx2 = self.rec(x).unwrap();
                    assert(rx2.on_board == rx.on_board && rx2.agent == rx.agent);
                }
            }
            i += 1;
        }
        proof {
            assert(members@.subrange(n as int, n as int) =~= Seq::<Entity>::empty());
            assert(self.lookup_of(board).members =~= Set::<Entity>::empty());
            self.lemma_board_facts(board);
            assert forall|e: Entity| #[trigger]
                self.alive(e) implies self.rec(e).unwrap().on_board != Some(OnBoard(board)) by {
                if self.rec(e).unwrap().on_board == Some(OnBoard(board)) {
                    assert(is_member_rec(self.recs(), e, board));
                    assert(self.lookup_of(board).members.contains(e));
                }
            }
        }
        let bi2 = match self.find_board(board) {
            Some(bi) => bi,
            None => vstd::pervasive::unreached(),
        };
        let ghost pre_rm = *self;
        self.boards.remove(bi2);
        proof {
            let s = pre_rm.boards_seq();
            let t = self.boards_seq();
            assert(t == s.remove(bi2 as int));
            assert forall|a: int, b2: int| 0 <= a < b2 < t.len() implies (#[trigger] t[a]).0 != (
            #[trigger] t[b2]).0 by {
                let a0: int = if a < bi2 as int {
                    a
                } else {
                    a + 1
                };
                let b0: int = if b2 < bi2 as int {
                    b2
                } else {
                    b2 + 1
                };
                assert(t[a] == s[a0] && t[b2] == s[b0]);
                assert(s[a0].0 != s[b0].0);
            }
            assert forall|x: Entity|
                x != board implies (#[trigger] assoc_has_key(t, x) <==> assoc_has_key(s, x)) by {
                if assoc_has_key(t, x) {
                    let a = choose|a: int| 0 <= a < t.len() && (#[trigger] t[a]).0 == x;
                    let a0: int = if a < bi2 as int {
                        a
                    } else {
                        a + 1
                    };
                    assert(t[a] == s[a0]);
                }
                if assoc_has_key(s, x) {
                    let a0 = choose|a0: int| 0 <= a0 < s.len() && (#[trigger] s[a0]).0 == x;
                    assert(a0 != bi2 as int);
                    let a: int = if a0 < bi2 as int {
                        a0
                    } else {
                        a0 - 1
                    };
                    assert(t[a] == s[a0]);
                }
            }
            assert(!assoc_has_key(t, board)) by {
                if assoc_has_key(t, board) {
                    let a = choose|a: int| 0 <= a < t.len() && (#[trigger] t[a]).0 == board;
                    let a0: int = if a < bi2 as int {
                        a
                    } else {
                        a + 1
                    };
                    assert(t[a] == s[a0]);
                    assert(s[a0].0 == s[bi2 as int].0 && a0 != bi2 as int);
                }
            }
            assert forall|x: Entity|
                x != board && assoc_has_key(s, x) implies #[trigger] assoc_at(t, x) == assoc_at(
                s,
                x,
            ) by {
                let a0 = choose|a0: int| 0 <= a0 < s.len() && (#[trigger] s[a0]).0 == x;
                assert(a0 != bi2 as int);
                let a: int = if a0 < bi2 as int {
                    a0
                } else {
                    a0 - 1
                };
                assert(t[a] == s[a0]);
                lemma_assoc_at(s, a0);
                lemma_assoc_at(t, a);
            }
            assert forall|i2: int| 0 <= i2 < t.len() implies (#[trigger] t[i2]).1.wf()
                && board_consistent(self.recs(), t[i2].0, t[i2].1.lookup@) && rec_of(
                self.recs(),
                t[i2].0,
            ) is Some by {
                let a0: int = if i2 < bi2 as int {
                    i2
                } else {
                    i2 + 1
                };
                assert(t[i2] == s[a0]);
                assert(s[a0].1.wf());
                assert(board_consistent(pre_rm.recs(), s[a0].0, s[a0].1.lookup@));
                assert(rec_of(pre_rm.recs(), s[a0].0) is Some);
            }
            assert forall|e: Entity| #[trigger] board_target_ok(self.recs(), t, e) by {
                assert(board_target_ok(pre_rm.recs(), s, e));
                match rec_of(pre_rm.recs(), e) {
                    Some(rx) => match rx.on_board {
                        Some(ob) => {
                            assert(pre_rm.alive(e));
                            assert(ob.0 != board);
                        },
                        None => {},
                    },
                    None => {},
                }
            }
            assert forall|e: Entity| #[trigger] occupancy_target_ok(self.recs(), e) by {
                assert(occupancy_target_ok(pre_rm.recs(), e));
            }
            assert forall|b2: Entity|
                b2 != board implies #[trigger] self.has_board(b2) == old(self).has_board(b2) by {
                assert(assoc_has_key(self.boards_seq(), b2) <==> assoc_has_key(
                    pre_rm.boards_seq(),
                    b2,
                ));
                assert(pre_rm.has_board(b2) == old(self).has_board(b2));
            }
            assert forall|b2: Entity|
                b2 != board && old(self).has_board(b2) implies #[trigger] self.board_of(b2) == old(
                self,
            ).board_of(b2) by {
                assert(pre_rm.has_board(b2));
                assert(assoc_has_key(pre_rm.boards_seq(), b2));
                assert(assoc_at(self.boards_seq(), b2) == assoc_at(pre_rm.boards_seq(), b2));
                assert(pre_rm.board_of(b2) == old(self).board_of(b2));
            }
            assert(self.recs() == pre_rm.recs());
            assert forall|e: Entity| #[trigger] self.alive(e) == old(self).alive(e) by {
                assert(pre_rm.alive(e) == old(self).alive(e));
            }
            assert forall|e: Entity| #[trigger]
                self.alive(e) implies self.rec(e).unwrap().on_board != Some(OnBoard(board)) by {
                assert(pre_rm.alive(e));
                assert(pre_rm.rec(e).unwrap().on_board != Some(OnBoard(board)));
            }
            assert forall|e: Entity|
                old(self).alive(e) && old(self).rec(e).unwrap().on_board == Some(
                    OnBoard(board),
                ) implies #[trigger] self.rec(e) == Some(
                (EntityRecord {
                    agent: old(self).rec(e).unwrap().agent,
                    ..EntityRecord::spec_empty()
                }),
            ) by {
                assert(is_member_rec(old(self).recs(), e, board));
                assert(old(self).lookup_of(board).members.contains(e));
                crate::assoc::lemma_to_set_contains(members@, e);
                assert(members@.contains(e));
                let j = choose|j: int| 0 <= j < members@.len() && members@[j] == e;
                assert(pre_rm.rec(members@[j]) == Some(
                    (EntityRecord {
                        agent: old(self).rec(members@[j]).unwrap().agent,
                        ..EntityRecord::spec_empty()
                    }),
                ));
            }
            assert forall|e: Entity|
                old(self).alive(e) && old(self).rec(e).unwrap().on_board != Some(
                    OnBoard(board),
                ) implies #[trigger] self.rec(e) == old(self).rec(e) by {
                assert(pre_rm.rec(e) == old(self).rec(e));
            }
        }
        true
    }

    /// Drop every trace of an agent from the per-agent sub-indices of the
    /// board the agent entity is on, by detaching agent-ownership from each
    /// entity the agent owns there. Invoked when an agent leaves. Fails (no
    /// change) when the agent entity carries no membership or its board is
    /// gone.
    pub fn board_agent_removed(&mut self, agent: Entity) -> (r: bool)
        requires
            old(self).wf(),
        ensures
            final(self).wf(),
            r == (old(self).alive(agent) && (old(self).rec(agent).unwrap().on_board matches Some(
                ob,
            ) && old(self).has_board(ob.0))),
            !r ==> *final(self) == *old(self),
            r ==> {
                let b = old(self).rec(agent).unwrap().on_board.unwrap().0;
                &&& old(self).boards_unchanged_except(*final(self), b)
                &&& old(self).board_data_unchanged(*final(self), b)
                &&& forall|e: Entity| #[trigger] final(self).alive(e) == old(self).alive(e)
                &&& final(self).recs().len() == old(self).recs().len()
                &&& forall|x: Entity|
                    old(self).alive(x) ==> (#[trigger] final(self).rec(x) matches Some(rx2) && {
                        let rx = old(self).rec(x).unwrap();
                        &&& rx2.on_board == rx.on_board
                        &&& rx2.on_hand == rx.on_hand
                        &&& rx2.on_field == rx.on_field
                        &&& rx2.slot == rx.slot
                        &&& rx2.on_slot == rx.on_slot
                        &&& rx2.agent == rx.agent
                        &&& (rx2.agent_owned == rx.agent_owned || (rx.agent_owned == Some(
                            AgentOwned(agent),
                        ) && rx2.agent_owned is None))
                    })
                &&& forall|e: Entity|
                    !(#[trigger] final(self).lookup_of(b).owned.contains((agent, e)))
                &&& forall|e: Entity|
                    !(#[trigger] final(self).lookup_of(b).hand.contains((agent, e)))
                &&& final(self).lookup_of(b).members == old(self).lookup_of(b).members
                &&& final(self).lookup_of(b).slots == old(self).lookup_of(b).slots
                &&& final(self).lookup_of(b).occupied == old(self).lookup_of(b).occupied
                &&& final(self).lookup_of(b).on_field == old(self).lookup_of(b).on_field
            },
    {
        if agent.0 >= self.records.len() {
            return false;
        }
        let ra = match self.records[agent.0] {
            Some(r) => r,
            None => {
                return false;
            },
        };
        let ob = match ra.on_board {
            Some(ob) => ob,
            None => {
                return false;
            },
        };
        let bi = match self.find_board(ob.0) {
            Some(bi) => bi,
            None => {
                proof {
                    assert(board_target_ok(old(self).recs(), old(self).boards_seq(), agent));
                }
                vstd::pervasive::unreached()
            },
        };
        proof {
            assert(self.boards_seq()[bi as int].1.wf());
        }
        let owned = self.boards[bi].1.lookup.get_by_agent(agent);
        let n = owned.len();
        let mut i: usize = 0;
        proof {
            assert(owned@.subrange(0, n as int) =~= owned@);
        }
        while i < n
            invariant
                n == owned@.len(),
                i <= n,
                self.wf(),
                seq_no_dup(owned@),
                self.has_board(ob.0),
                old(self).boards_unchanged_except(*self, ob.0),
                old(self).board_data_unchanged(*self, ob.0),
                forall|e: Entity| #[trigger] self.alive(e) == old(self).alive(e),
                self.recs().len() == old(self).recs().len(),
                forall|x: Entity|
                    old(self).alive(x) ==> (#[trigger] self.rec(x) matches Some(rx2) && {
                        let rx = old(self).rec(x).unwrap();
                        &&& rx2.on_board == rx.on_board
                        &&& rx2.on_hand == rx.on_hand
                        &&& rx2.on_field == rx.on_field
                        &&& rx2.slot == rx.slot
                        &&& rx2.on_slot == rx.on_slot
                        &&& rx2.agent == rx.agent
                        &&& (rx2.agent_owned == rx.agent_owned || (rx.agent_owned == Some(
                            AgentOwned(agent),
                        ) && rx2.agent_owned is None))
                    }),
                forall|e: Entity| #[trigger]
                    self.lookup_of(ob.0).owned.contains((agent, e)) <==> owned@.subrange(
                        i as int,
                        n as int,
                    ).contains(e),
                self.lookup_of(ob.0).members == old(self).lookup_of(ob.0).members,
                self.lookup_of(ob.0).slots == old(self).lookup_of(ob.0).slots,
                self.lookup_of(ob.0).occupied == old(self).lookup_of(ob.0).occupied,
                self.lookup_of(ob.0).on_field == old(self).lookup_of(ob.0).on_field,
            decreases n - i,
        {
            let e = owned[i];
            proof {
                let sfx = owned@.subrange(i as int, n as int);
                assert(sfx[0] == e);
                assert(sfx.contains(e));
                assert(self.lookup_of(ob.0).owned.contains((agent, e)));
                self.lemma_board_facts(ob.0);
                assert(is_member_rec(self.recs(), e, ob.0));
                assert(has_owner(self.recs(), e, agent));
            }
            let ghost pre_iter = *self;
            self.detach_agent_owned(e);
            proof {
                assert(self.lookup_of(ob.0).owned =~= pre_iter.lookup_of(ob.0).owned.remove(
                    (agent, e),
                ));
                let sfx = owned@.subrange(i as int, n as int);
                assert(seq_no_dup(sfx));
                crate::assoc::lemma_remove_contains(sfx, 0);
                assert(sfx.remove(0) =~= owned@.subrange(i + 1, n as int));
                assert forall|e2: Entity| #[trigger]
                    self.lookup_of(ob.0).owned.contains((agent, e2)) <==> owned@.subrange(
                        i + 1,
                        n as int,
                    ).contains(e2) by {
                    assert(pre_iter.lookup_of(ob.0).owned.contains((agent, e2)) <==> sfx.contains(
                        e2,
                    ));
                    assert(sfx.remove(0).contains(e2) <==> sfx.contains(e2) && e2 != e);
                }
                assert forall|x: Entity| #[trigger]
                    self.alive(x) == old(self).alive(x) by {
                    assert(pre_iter.alive(x) == old(self).alive(x));
                    assert(rec_of(self.recs(), x) is Some == rec_of(pre_iter.recs(), x) is Some);
                }
                assert forall|x: Entity|
                    old(self).alive(x) implies (#[trigger] self.rec(x) matches Some(rx2) && {
                    let rx = old(self).rec(x).unwrap();
                    &&& rx2.on_board == rx.on_board
                    &&& rx2.on_hand == rx.on_hand
                    &&& rx2.on_field == rx.on_field
                    &&& rx2.slot == rx.slot
                    &&& rx2.on_slot == rx.on_slot
                    &&& rx2.agent == rx.agent
                    &&& (rx2.agent_owned == rx.agent_owned || (rx.agent_owned == Some(
                        AgentOwned(agent),
                    ) && rx2.agent_owned is None))
                }) by {
                    assert(pre_iter.rec(x) is Some);
                    assert(rec_of(self.recs(), x) == if x == e {
                        self.rec(e)
                    } else {
                        rec_of(pre_iter.recs(), x)
                    });
                    if x == e {
                        assert(has_owner(pre_iter.recs(), e, agent));
                        assert(pre_iter.rec(x).unwrap().agent_owned == Some(AgentOwned(agent)));
                    }
                }
            }
            i += 1;
        }
        proof {
            assert(owned@.subrange(n as int, n as int) =~= Seq::<Entity>::empty());
            self.lemma_board_facts(ob.0);
            assert forall|e: Entity|
                !(#[trigger] self.lookup_of(ob.0).hand.contains((agent, e))) by {
                if self.lookup_of(ob.0).hand.contains((agent, e)) {
                    assert(is_member_rec(self.recs(), e, ob.0) && has_owner(self.recs(), e, agent));
                    assert(self.lookup_of(ob.0).owned.contains((agent, e)));
                }
            }
        }
        true
    }

    /// Spawn a fresh entity carrying the agent marker.
    pub fn spawn_agent(&mut self) -> (e: Entity)
        requires
            old(self).wf(),
        ensures
            final(self).wf(),
            e.0 == old(self).recs().len(),
            final(self).recs() == old(self).recs().push(
                Some((EntityRecord { agent: true, ..EntityRecord::spec_empty() })),
            ),
            final(self).boards_seq() == old(self).boards_seq(),
    {
        let e = self.spawn();
        let r2 = EntityRecord { agent: true, ..EntityRecord::empty() };
        let ghost mid = *self;
        self.records[e.0] = Some(r2);
        proof {
            lemma_same_membership_fields(mid.recs(), mid.boards_seq(), e.0 as int, r2);
            lemma_same_owner(mid.recs(), e.0 as int, r2);
            lemma_same_hand_marker(mid.recs(), e.0 as int, r2);
            lemma_same_field_marker(mid.recs(), e.0 as int, r2);
            let recs2 = self.recs();
            assert forall|i: int| 0 <= i < self.boards_seq().len() implies board_consistent(
                recs2,
                self.boards_seq()[i].0,
                (#[trigger] self.boards_seq()[i]).1.lookup@,
            ) by {
                let b2 = self.boards_seq()[i].0;
                let lv = self.boards_seq()[i].1.lookup@;
                assert(board_consistent(mid.recs(), b2, lv));
                lemma_consistent_untouched(mid.recs(), b2, lv, e.0 as int, Some(r2));
            }
            assert forall|x: Entity| #[trigger]
                board_target_ok(recs2, self.boards_seq(), x) by {
                assert(board_target_ok(mid.recs(), mid.boards_seq(), x));
            }
            assert forall|x: Entity| #[trigger] occupancy_target_ok(recs2, x) by {
                assert(occupancy_target_ok(mid.recs(), x));
            }
            assert(self.recs() =~= old(self).recs().push(
                Some((EntityRecord { agent: true, ..EntityRecord::spec_empty() })),
            ));
        }
        e
    }

    /// Despawn an entity: the agent-departure cleanup runs if it is an
    /// agent, its board is torn down if it is a board, every relationship
    /// component is detached with its cascades, and the record is freed.
    /// Reports whether the entity was alive.
    #[verifier::rlimit(100)]
    pub fn despawn(&mut self, entity: Entity) -> (r: bool)
        requires
            old(self).wf(),
        ensures
            final(self).wf(),
            r == old(self).alive(entity),
            !r ==> *final(self) == *old(self),
            r ==> {
                &&& !final(self).alive(entity)
                &&& final(self).recs().len() == old(self).recs().len()
                &&& forall|x: Entity|
                    x != entity ==> #[trigger] final(self).alive(x) == old(self).alive(x)
                &&& !final(self).has_board(entity)
                &&& forall|b2: Entity|
                    b2 != entity ==> #[trigger] final(self).has_board(b2) == old(self).has_board(
                        b2,
                    )
                &&& forall|x: Entity|
                    x != entity && old(self).alive(x) ==> (#[trigger] final(self).rec(x)
                        matches Some(rx2) && {
                        let rx = old(self).rec(x).unwrap();
                        if rx.on_board == Some(OnBoard(entity)) {
                            rx2 == (EntityRecord { agent: rx.agent, ..EntityRecord::spec_empty() })
                        } else {
                            &&& rx2.on_board == rx.on_board
                            &&& rx2.on_hand == rx.on_hand
                            &&& rx2.on_field == rx.on_field
                            &&& rx2.slot == rx.slot
                            &&& rx2.agent == rx.agent
                            &&& (rx2.agent_owned == rx.agent_owned || (rx.agent_owned == Some(
                                AgentOwned(entity),
                            ) && rx2.agent_owned is None))
                            &&& (rx2.on_slot == rx.on_slot || rx2.on_slot is None)
                        }
                    })
            },
    {
        if entity.0 >= self.records.len() {
            return false;
        }
        let r0 = match self.records[entity.0] {
            Some(r) => r,
            None => {
                return false;
            },
        };
        let ghost s0 = *old(self);
        let ghost mut s1 = *old(self);
        if r0.agent {
            self.board_agent_removed(entity);
            proof {
                s1 = *self;
            }
        }
        self.destroy_board(entity);
        let ghost s2 = *self;
        self.detach_on_board(entity);
        let ghost s3 = *self;
        self.detach_agent_owned(entity);
        let ghost s4 = *self;
        self.detach_on_hand(entity);
        let ghost s5 = *self;
        self.detach_on_field(entity);
        let ghost s6 = *self;
        self.detach_board_slot(entity);
        let ghost s7 = *self;
        self.detach_on_slot(entity);
        let ghost s8 = *self;
        let ghost mid = *self;
        proof {
            assert(mid.alive(entity));
            assert(mid.rec(entity).unwrap().on_board is None);
            assert(!s2.has_board(entity));
            assert(!s3.has_board(entity));
            assert(!s4.has_board(entity));
            assert(!s5.has_board(entity));
            assert(!s6.has_board(entity));
            assert(!s7.has_board(entity));
            assert(!s8.has_board(entity));
            assert forall|x: Entity|
                x != entity implies #[trigger] s8.alive(x) == s0.alive(x) by {
                assert(s1.alive(x) == s0.alive(x));
                assert(s2.alive(x) == s1.alive(x));
                assert(s3.alive(x) == s2.alive(x));
                assert(s4.alive(x) == s3.alive(x));
                assert(s5.alive(x) == s4.alive(x));
                assert(s6.alive(x) == s5.alive(x));
                assert(s7.alive(x) == s6.alive(x));
                assert(s8.alive(x) == s7.alive(x));
            }
            assert forall|b2: Entity|
                b2 != entity implies #[trigger] s8.has_board(b2) == s0.has_board(b2) by {
                assert(s1.has_board(b2) == s0.has_board(b2));
                assert(s2.has_board(b2) == s1.has_board(b2));
                assert(s3.has_board(b2) == s2.has_board(b2));
                assert(s4.has_board(b2) == s3.has_board(b2));
                assert(s5.has_board(b2) == s4.has_board(b2));
                assert(s6.has_board(b2) == s5.has_board(b2));
                assert(s7.has_board(b2) == s6.has_board(b2));
                assert(s8.has_board(b2) == s7.has_board(b2));
            }
            assert(s1.recs().len() == s0.recs().len());
            assert(s2.recs().len() == s1.recs().len());
            assert(s3.recs().len() == s2.recs().len());
            assert(s4.recs().len() == s3.recs().len());
            assert(s5.recs().len() == s4.recs().len());
            assert(s6.recs().len() == s5.recs().len());
            assert(s7.recs().len() == s6.recs().len());
            assert(s8.recs().len() == s7.recs().len());
            assert(s8.recs().len() == s0.recs().len());
        }
        self.records[entity.0] = None;
        proof {
            let recs2 = self.recs();
            assert forall|x: Entity| #[trigger]
                rec_of(recs2, x) == if x == entity {
                    None
                } else {
                    rec_of(mid.recs(), x)
                } by {}
            assert forall|i: int| 0 <= i < self.boards_seq().len() implies board_consistent(
                recs2,
                self.boards_seq()[i].0,
                (#[trigger] self.boards_seq()[i]).1.lookup@,
            ) && rec_of(recs2, self.boards_seq()[i].0) is Some by {
                let b2 = self.boards_seq()[i].0;
                let lv = self.boards_seq()[i].1.lookup@;
                assert(board_consistent(mid.recs(), b2, lv));
                lemma_consistent_untouched(mid.recs(), b2, lv, entity.0 as int, None);
                assert(rec_of(mid.recs(), b2) is Some);
                assert(b2 != entity) by {
                    if b2 == entity {
                        assert(self.boards_seq()[i].0 == entity);
                        assert(assoc_has_key(mid.boards_seq(), entity));
                    }
                }
            }
            assert forall|x: Entity| #[trigger]
                board_target_ok(recs2, self.boards_seq(), x) by {
                assert(board_target_ok(mid.recs(), mid.boards_seq(), x));
            }
            assert forall|x: Entity| #[trigger] occupancy_target_ok(recs2, x) by {
                assert(occupancy_target_ok(mid.recs(), x));
                if x != entity && rec_of(recs2, x) is Some {
                    let rx = rec_of(recs2, x).unwrap();
                    if rx.on_board is Some && rx.on_slot is Some {
                        assert(rx.on_slot.unwrap().0 != entity) by {
                            if rx.on_slot.unwrap().0 == entity {
                                assert(is_member_rec(mid.recs(), entity, rx.on_board.unwrap().0));
                            }
                        }
                    }
                }
            }
            assert(!self.alive(entity));
            assert(self.recs().len() == old(self).recs().len()) by {
                assert(self.recs().len() == mid.recs().len());
            }
            assert forall|x: Entity|
                x != entity implies #[trigger] self.alive(x) == old(self).alive(x) by {
                assert(rec_of(recs2, x) == rec_of(mid.recs(), x));
                assert(s8.alive(x) == s0.alive(x));
            }
            assert(self.boards_seq() == s8.boards_seq());
            assert(!self.has_board(entity)) by {
                assert(!s8.has_board(entity));
            }
            assert forall|b2: Entity|
                b2 != entity implies #[trigger] self.has_board(b2) == old(self).has_board(b2) by {
                assert(s8.has_board(b2) == s0.has_board(b2));
            }
            assert forall|x: Entity|
                x != entity && old(self).alive(x) implies (#[trigger] self.rec(x) matches Some(
                rx2,
            ) && {
                let rx = old(self).rec(x).unwrap();
                if rx.on_board == Some(OnBoard(entity)) {
                    rx2 == (EntityRecord { agent: rx.agent, ..EntityRecord::spec_empty() })
                } else {
                    &&& rx2.on_board == rx.on_board
                    &&& rx2.on_hand == rx.on_hand
                    &&& rx2.on_field == rx.on_field
                    &&& rx2.slot == rx.slot
                    &&& rx2.agent == rx.agent
                    &&& (rx2.agent_owned == rx.agent_owned || (rx.agent_owned == Some(
                        AgentOwned(entity),
                    ) && rx2.agent_owned is None))
                    &&& (rx2.on_slot == rx.on_slot || rx2.on_slot is None)
                }
            }) by {
                let rx = s0.rec(x).unwrap();
                // departure cleanup: only ownership by this entity may clear
                assert(s1.rec(x) is Some);
                let rx1 = s1.rec(x).unwrap();
                assert({
                    &&& rx1.on_board == rx.on_board
                    &&& rx1.on_hand == rx.on_hand
                    &&& rx1.on_field == rx.on_field
                    &&& rx1.slot == rx.slot
                    &&& rx1.on_slot == rx.on_slot
                    &&& rx1.agent == rx.agent
                    &&& (rx1.agent_owned == rx.agent_owned || (rx.agent_owned == Some(
                        AgentOwned(entity),
                    ) && rx1.agent_owned is None))
                });
                // teardown: members of this entity's board data are stripped,
                // everything else is untouched
                assert(s1.alive(x));
                assert(s2.rec(x) is Some);
                let rx2m = s2.rec(x).unwrap();
                if rx.on_board == Some(OnBoard(entity)) {
                    assert(board_target_ok(s1.recs(), s1.boards_seq(), x));
                    assert(s1.has_board(entity));
                    assert(s2.rec(x) == Some(
                        (EntityRecord { agent: rx.agent, ..EntityRecord::spec_empty() }),
                    ));
                } else {
                    assert(s2.rec(x) == s1.rec(x));
                }
                // the detach cascade on the entity itself touches, among
                // other records, only its slot's occupant (occupancy only)
                assert(s3.alive(x) == s2.alive(x));
                let rx3 = s3.rec(x).unwrap();
                assert({
                    &&& rx3.on_board == rx2m.on_board
                    &&& rx3.agent_owned == rx2m.agent_owned
                    &&& rx3.on_hand == rx2m.on_hand
                    &&& rx3.on_field == rx2m.on_field
                    &&& rx3.slot == rx2m.slot
                    &&& rx3.agent == rx2m.agent
                    &&& (rx3.on_slot == rx2m.on_slot || rx3.on_slot is None)
                });
                assert(rec_of(s4.recs(), x) == rec_of(s3.recs(), x));
                assert(rec_of(s5.recs(), x) == rec_of(s4.recs(), x));
                assert(rec_of(s6.recs(), x) == rec_of(s5.recs(), x));
                let rx7 = s7.rec(x).unwrap();
                assert({
                    &&& rx7.on_board == rx3.on_board
                    &&& rx7.agent_owned == rx3.agent_owned
                    &&& rx7.on_hand == rx3.on_hand
                    &&& rx7.on_field == rx3.on_field
                    &&& rx7.slot == rx3.slot
                    &&& rx7.agent == rx3.agent
                    &&& (rx7.on_slot == rx3.on_slot || rx7.on_slot is None)
                });
                assert(rec_of(s8.recs(), x) == rec_of(s7.recs(), x));
                assert(rec_of(self.recs(), x) == rec_of(s8.recs(), x));
            }
        }
        true
    }


    /// Close the store invariant after one board's lookup index was
    /// replaced by one that states the same thing about the records.
    proof fn lemma_after_board_lookup_update(self, pre: EntityStore, bi: int)
        requires
            pre.wf(),
            0 <= bi < pre.boards_seq().len(),
            self.recs() == pre.recs(),
            self.boards_seq() == pre.boards_seq().remove(bi).insert(
                bi,
                (pre.boards_seq()[bi].0, self.boards_seq()[bi].1),
            ),
            self.boards_seq()[bi].1.state == pre.boards_seq()[bi].1.state,
            self.boards_seq()[bi].1.client_is_on_board == pre.boards_seq()[bi].1.client_is_on_board,
            self.boards_seq()[bi].1.lookup.wf(),
            board_consistent(pre.recs(), pre.boards_seq()[bi].0, self.boards_seq()[bi].1.lookup@),
        ensures
            self.wf(),
            pre.boards_unchanged_except(self, pre.boards_seq()[bi].0),
            pre.board_data_unchanged(self, pre.boards_seq()[bi].0),
            self.board_of(pre.boards_seq()[bi].0) == self.boards_seq()[bi].1,
    {
        let t = self.boards_seq();
        let s = pre.boards_seq();
        let b = s[bi].0;
        assert(t =~= s.update(bi, (b, t[bi].1)));
        lemma_assoc_set_value(s, bi, t[bi].1);
        assert forall|i: int| 0 <= i < t.len() implies (#[trigger] t[i]).1.wf() by {
            if i != bi {
                assert(t[i] == s[i]);
                assert(s[i].1.wf());
            }
        }
        assert forall|i: int| 0 <= i < t.len() implies board_consistent(
            self.recs(),
            t[i].0,
            (#[trigger] t[i]).1.lookup@,
        ) by {
            if i != bi {
                assert(t[i] == s[i]);
                assert(board_consistent(pre.recs(), s[i].0, s[i].1.lookup@));
            }
        }
        assert forall|i: int| 0 <= i < t.len() implies rec_of(self.recs(), (#[trigger] t[i]).0)
            is Some by {
            assert(t[i].0 == s[i].0);
            assert(rec_of(pre.recs(), s[i].0) is Some);
        }
        assert forall|e: Entity| #[trigger] board_target_ok(self.recs(), t, e) by {
            assert(board_target_ok(pre.recs(), s, e));
            match rec_of(pre.recs(), e) {
                Some(r) => match r.on_board {
                    Some(ob) => {
                        assert(assoc_has_key(t, ob.0) == assoc_has_key(s, ob.0));
                    },
                    None => {},
                },
                None => {},
            }
        }
        assert forall|e: Entity| #[trigger] occupancy_target_ok(self.recs(), e) by {
            assert(occupancy_target_ok(pre.recs(), e));
        }
        assert forall|x: Entity| x != b && pre.has_board(x) implies #[trigger] self.board_of(x)
            == pre.board_of(x) by {}
    }

    /// Rebuild a board's lookup index from the relationship components on
    /// the entities, as after a world replication delivered components in
    /// arbitrary order. The rebuilt index states exactly what the records
    /// state, which the maintained one already did: every sub-index comes
    /// back equal, with hands in entity order rather than insertion order.
    /// Hands a created notification back, or nothing for a missing board.
    #[verifier::rlimit(100)]
    pub fn rebuild_lookup(&mut self, board: Entity) -> (r: Option<crate::board::BoardLookupCreated>)
        requires
            old(self).wf(),
        ensures
            final(self).wf(),
            r is Some <==> old(self).has_board(board),
            r is None ==> *final(self) == *old(self),
            r is Some ==> {
                let lvold = old(self).lookup_of(board);
                let lv2 = final(self).lookup_of(board);
                &&& final(self).recs() == old(self).recs()
                &&& old(self).boards_unchanged_except(*final(self), board)
                &&& old(self).board_data_unchanged(*final(self), board)
                &&& lv2.members == lvold.members
                &&& lv2.owned == lvold.owned
                &&& lv2.hand.to_set() == lvold.hand.to_set()
                &&& lv2.slots == lvold.slots
                &&& lv2.occupied == lvold.occupied
                &&& lv2.on_field == lvold.on_field
            },
    {
        let bi = match self.find_board(board) {
            Some(bi) => bi,
            None => {
                return None;
            },
        };
        proof {
            assert(self.boards_seq()[bi as int].1.wf());
            assert(board_consistent(old(self).recs(), board, old(self).lookup_of(board)));
        }
        let ghost recs = self.recs();
        let mut nl = crate::lookup::BoardLookup::new();
        let n = self.records.len();
        let mut i: usize = 0;
        while i < n
            invariant
                n == self.records.len(),
                i <= n,
                *self == *old(self),
                self.wf(),
                recs == self.recs(),
                board_consistent(recs, board, old(self).lookup_of(board)),
                nl.wf(),
                forall|e: Entity| #[trigger]
                    nl@.members.contains(e) <==> (e.0 as int) < i && is_member_rec(recs, e, board),
                forall|a: Entity, e: Entity| #[trigger]
                    nl@.owned.contains((a, e)) <==> (e.0 as int) < i && is_member_rec(
                        recs,
                        e,
                        board,
                    ) && has_owner(recs, e, a),
                forall|a: Entity, e: Entity| #[trigger]
                    nl@.hand.contains((a, e)) <==> (e.0 as int) < i && is_member_rec(
                        recs,
                        e,
                        board,
                    ) && has_owner(recs, e, a) && has_hand_marker(recs, e),
                forall|e: Entity| #[trigger]
                    nl@.on_field.contains(e) <==> (e.0 as int) < i && is_member_rec(
                        recs,
                        e,
                        board,
                    ) && has_field_marker(recs, e),
                forall|s2: Entity, p: IVec3| #[trigger]
                    is_slot_at(recs, s2, board, p) && (s2.0 as int) < i ==> nl@.slots.contains_key(
                        p,
                    ) && nl@.slots[p] == s2,
                forall|p: IVec3| #[trigger]
                    nl@.slots.contains_key(p) ==> is_slot_at(recs, nl@.slots[p], board, p) && (
                    nl@.slots[p].0 as int) < i,
                forall|e: Entity, p: IVec3| #[trigger]
                    occupies(recs, e, board, p) && (e.0 as int) < i ==> nl@.occupied.contains_key(
                        p,
                    ) && nl@.occupied[p] == e,
                forall|p: IVec3| #[trigger]
                    nl@.occupied.contains_key(p) ==> occupies(recs, nl@.occupied[p], board, p) && (
                    nl@.occupied[p].0 as int) < i,
            decreases n - i,
        {
            let e = Entity(i);
            let rec0 = self.records[i];
            match rec0 {
                Some(rc) => {
                    if match rc.on_board {
                        Some(ob) => ob.0.0 == board.0,
                        None => false,
                    } {
                        proof {
                            assert(is_member_rec(recs, e, board));
                        }
                        nl.insert_on_board(e);
                        match rc.agent_owned {
                            Some(ao) => {
                                nl.insert_by_agent(ao.0, e);
                                if rc.on_hand {
                                    let ghost hand_before = nl@.hand;
                                    proof {
                                        if nl@.hand.contains((ao.0, e)) {
                                            assert((e.0 as int) < i);
                                        }
                                    }
                                    nl.insert_on_hand(ao.0, e);
                                    proof {
                                        crate::assoc::lemma_push_contains(
                                            hand_before,
                                            (ao.0, e),
                                        );
                                    }
                                }
                            },
                            None => {},
                        }
                        if rc.on_field {
                            nl.insert_on_field(e);
                        }
                        match rc.slot {
                            Some(bs) => {
                                proof {
                                    assert(is_slot_at(recs, e, board, bs.0));
                                    if nl@.slots.contains_key(bs.0) {
                                        let s2 = nl@.slots[bs.0];
                                        assert(is_slot_at(recs, s2, board, bs.0));
                                        assert(old(self).lookup_of(board).slots[bs.0] == s2);
                                        assert(old(self).lookup_of(board).slots[bs.0] == e);
                                    }
                                }
                                nl.insert_slot(bs.0, e);
                            },
                            None => {},
                        }
                        match rc.on_slot {
                            Some(os) => {
                                proof {
                                    assert(occupancy_target_ok(recs, e));
                                }
                                if os.0.0 < self.records.len() {
                                    match self.records[os.0.0] {
                                        Some(rs) => {
                                            match (rs.on_board, rs.slot) {
                                                (Some(ob2), Some(bs2)) => {
                                                    if ob2.0.0 == board.0 {
                                                        proof {
                                                            assert(is_slot_at(
                                                                recs,
                                                                os.0,
                                                                board,
                                                                bs2.0,
                                                            ));
                                                            assert(occupies(
                                                                recs,
                                                                e,
                                                                board,
                                                                bs2.0,
                                                            ));
                                                            if nl@.occupied.contains_key(bs2.0) {
                                                                let e2 = nl@.occupied[bs2.0];
                                                                assert(occupies(
                                                                    recs,
                                                                    e2,
                                                                    board,
                                                                    bs2.0,
                                                                ));
                                                                assert(old(self).lookup_of(
                                                                    board,
                                                                ).occupied[bs2.0] == e2);
                                                                assert(old(self).lookup_of(
                                                                    board,
                                                                ).occupied[bs2.0] == e);
                                                            }
                                                        }
                                                        nl.insert_on_slot(bs2.0, e);
                                                    }
                                                },
                                                _ => {},
                                            }
                                        },
                                        None => {},
                                    }
                                }
                            },
                            None => {},
                        }
                    }
                },
                None => {},
            }
            i += 1;
            proof {
                assert forall|e2: Entity| #[trigger]
                    nl@.members.contains(e2) <==> (e2.0 as int) < i && is_member_rec(
                        recs,
                        e2,
                        board,
                    ) by {}
            }
        }
        proof {
            let lvold = old(self).lookup_of(board);
            assert forall|e2: Entity| #[trigger]
                nl@.members.contains(e2) <==> is_member_rec(recs, e2, board) by {
                if is_member_rec(recs, e2, board) {
                    assert((e2.0 as int) < n);
                }
            }
            assert(board_consistent(recs, board, nl@)) by {
                assert forall|e2: Entity| #[trigger]
                    nl@.members.contains(e2) <==> is_member_rec(recs, e2, board) by {
                    if is_member_rec(recs, e2, board) {
                        assert((e2.0 as int) < n);
                    }
                }
                assert forall|a2: Entity, e2: Entity| #[trigger]
                    nl@.owned.contains((a2, e2)) <==> is_member_rec(recs, e2, board) && has_owner(
                    recs,
                    e2,
                    a2,
                ) by {
                    if is_member_rec(recs, e2, board) {
                        assert((e2.0 as int) < n);
                    }
                }
                assert forall|a2: Entity, e2: Entity| #[trigger]
                    nl@.hand.contains((a2, e2)) <==> is_member_rec(recs, e2, board) && has_owner(
                    recs,
                    e2,
                    a2,
                ) && has_hand_marker(recs, e2) by {
                    if is_member_rec(recs, e2, board) {
                        assert((e2.0 as int) < n);
                    }
                }
                assert forall|e2: Entity| #[trigger]
                    nl@.on_field.contains(e2) <==> is_member_rec(recs, e2, board)
                        && has_field_marker(recs, e2) by {
                    if is_member_rec(recs, e2, board) {
                        assert((e2.0 as int) < n);
                    }
                }
                assert forall|s2: Entity, p: IVec3| #[trigger]
                    is_slot_at(recs, s2, board, p) implies nl@.slots.contains_key(p)
                    && nl@.slots[p] == s2 by {
                    assert((s2.0 as int) < n);
                }
                assert forall|e2: Entity, p: IVec3| #[trigger]
                    occupies(recs, e2, board, p) implies nl@.occupied.contains_key(p)
                    && nl@.occupied[p] == e2 by {
                    assert((e2.0 as int) < n);
                }
            }
            // the rebuilt index equals the maintained one
            assert(nl@.members =~= lvold.members);
            assert forall|pr: (Entity, Entity)| #[trigger]
                nl@.owned.contains(pr) <==> lvold.owned.contains(pr) by {
                assert(nl@.owned.contains((pr.0, pr.1)) <==> is_member_rec(recs, pr.1, board)
                    && has_owner(recs, pr.1, pr.0));
                assert(lvold.owned.contains((pr.0, pr.1)) <==> is_member_rec(recs, pr.1, board)
                    && has_owner(recs, pr.1, pr.0));
            }
            assert(nl@.owned =~= lvold.owned);
            assert(nl@.on_field =~= lvold.on_field);
            assert forall|pr: (Entity, Entity)| #[trigger]
                nl@.hand.to_set().contains(pr) <==> lvold.hand.to_set().contains(pr) by {
                crate::assoc::lemma_to_set_contains(nl@.hand, pr);
                crate::assoc::lemma_to_set_contains(lvold.hand, pr);
                assert(nl@.hand.contains((pr.0, pr.1)) <==> is_member_rec(recs, pr.1, board)
                    && has_owner(recs, pr.1, pr.0) && has_hand_marker(recs, pr.1));
                assert(lvold.hand.contains((pr.0, pr.1)) <==> is_member_rec(recs, pr.1, board)
                    && has_owner(recs, pr.1, pr.0) && has_hand_marker(recs, pr.1));
            }
            assert(nl@.hand.to_set() =~= lvold.hand.to_set());
            assert forall|p: IVec3| #[trigger]
                nl@.slots.contains_key(p) <==> lvold.slots.contains_key(p) by {
                if nl@.slots.contains_key(p) {
                    assert(is_slot_at(recs, nl@.slots[p], board, p));
                }
                if lvold.slots.contains_key(p) {
                    assert(is_slot_at(recs, lvold.slots[p], board, p));
                }
            }
            assert forall|p: IVec3|
                nl@.slots.contains_key(p) implies #[trigger] nl@.slots[p] == lvold.slots[p] by {
                assert(is_slot_at(recs, nl@.slots[p], board, p));
            }
            assert(nl@.slots =~= lvold.slots);
            assert forall|p: IVec3| #[trigger]
                nl@.occupied.contains_key(p) <==> lvold.occupied.contains_key(p) by {
                if nl@.occupied.contains_key(p) {
                    assert(occupies(recs, nl@.occupied[p], board, p));
                }
                if lvold.occupied.contains_key(p) {
                    assert(occupies(recs, lvold.occupied[p], board, p));
                }
            }
            assert forall|p: IVec3|
                nl@.occupied.contains_key(p) implies #[trigger] nl@.occupied[p]
                == lvold.occupied[p] by {
                assert(occupies(recs, nl@.occupied[p], board, p));
            }
            assert(nl@.occupied =~= lvold.occupied);
        }
        let bi2 = match self.find_board(board) {
            Some(bi) => bi,
            None => vstd::pervasive::unreached(),
        };
        let ghost pre_swap = *self;
        let mut entry = self.boards.remove(bi2);
        entry.1.lookup = nl;
        self.boards.insert(bi2, entry);
        proof {
            self.lemma_after_board_lookup_update(pre_swap, bi2 as int);
        }
        Some(crate::board::BoardLookupCreated)
    }

    /// After updating one record and one board entry in place, the store's
    /// book-keeping invariants that do not concern the changed board's
    /// consistency hold again, and the board maps are as expected.
    proof fn lemma_after_record_and_board_update(
        self,
        pre: EntityStore,
        entity: Entity,
        r2: EntityRecord,
        bi: int,
        b: Entity,
    )
        requires
            pre.wf(),
            0 <= bi < pre.boards_seq().len(),
            pre.boards_seq()[bi].0 == b,
            (entity.0 as int) < pre.recs().len(),
            pre.recs()[entity.0 as int] is Some,
            self.recs() == pre.recs().update(entity.0 as int, Some(r2)),
            self.boards_seq() == pre.boards_seq().remove(bi).insert(bi, (b, self.boards_seq()[bi].1)),
            self.boards_seq()[bi].1.state == pre.boards_seq()[bi].1.state,
            self.boards_seq()[bi].1.client_is_on_board == pre.boards_seq()[bi].1.client_is_on_board,
            self.boards_seq()[bi].1.lookup.wf(),
        ensures
            self.boards_seq() == pre.boards_seq().update(bi, (b, self.boards_seq()[bi].1)),
            assoc_unique(self.boards_seq()),
            forall|i: int|
                0 <= i < self.boards_seq().len() ==> (#[trigger] self.boards_seq()[i]).1.wf(),
            forall|i: int|
                0 <= i < self.boards_seq().len() ==> rec_of(
                    self.recs(),
                    (#[trigger] self.boards_seq()[i]).0,
                ) is Some,
            pre.boards_unchanged_except(self, b),
            pre.board_data_unchanged(self, b),
            self.board_of(b) == self.boards_seq()[bi].1,
            self.lookup_of(b) == self.boards_seq()[bi].1.lookup@,
            forall|i: int|
                0 <= i < self.boards_seq().len() && i != bi ==> board_consistent(
                    self.recs(),
                    self.boards_seq()[i].0,
                    (#[trigger] self.boards_seq()[i]).1.lookup@,
                ) || pre.recs()[entity.0 as int].unwrap().on_board == Some(
                    OnBoard(self.boards_seq()[i].0),
                ) || r2.on_board == Some(OnBoard(self.boards_seq()[i].0)),
    {
        let t = self.boards_seq();
        let s = pre.boards_seq();
        assert(t =~= s.update(bi, (b, t[bi].1)));
        lemma_assoc_set_value(s, bi, t[bi].1);
        assert forall|i: int| 0 <= i < t.len() implies (#[trigger] t[i]).1.wf() by {
            if i != bi {
                assert(t[i] == s[i]);
                assert(s[i].1.wf());
            } else {
                assert(s[bi].1.wf());
                assert(t[bi].1.state == s[bi].1.state);
            }
        }
        assert forall|i: int| 0 <= i < t.len() implies rec_of(self.recs(), (#[trigger] t[i]).0)
            is Some by {
            assert(t[i].0 == s[i].0);
            assert(rec_of(pre.recs(), s[i].0) is Some);
        }
        assert forall|x: Entity| #[trigger] self.has_board(x) == pre.has_board(x) by {}
        assert forall|x: Entity| x != b && pre.has_board(x) implies #[trigger] self.board_of(x)
            == pre.board_of(x) by {}
        lemma_assoc_at(t, bi);
        assert forall|i: int|
            0 <= i < t.len() && i != bi && !(pre.recs()[entity.0 as int].unwrap().on_board == Some(
                OnBoard(t[i].0),
            )) && !(r2.on_board == Some(OnBoard(t[i].0))) implies board_consistent(
            self.recs(),
            t[i].0,
            (#[trigger] t[i]).1.lookup@,
        ) by {
            assert(t[i] == s[i]);
            assert(board_consistent(pre.recs(), s[i].0, s[i].1.lookup@));
            lemma_consistent_untouched(
                pre.recs(),
                s[i].0,
                s[i].1.lookup@,
                entity.0 as int,
                Some(r2),
            );
        }
    }

    /// Close the store invariant once the changed board's consistency and
    /// the pointwise structural equalities are at hand.
    proof fn lemma_close_consistency(
        self,
        pre: EntityStore,
        entity: Entity,
        r2: EntityRecord,
        bi: int,
        b: Entity,
    )
        requires
            pre.wf(),
            0 <= bi < self.boards_seq().len(),
            self.boards_seq()[bi].0 == b,
            (entity.0 as int) < pre.recs().len(),
            pre.recs()[entity.0 as int] is Some,
            self.recs() == pre.recs().update(entity.0 as int, Some(r2)),
            r2.on_board == Some(OnBoard(b)) || r2.on_board is None,
            forall|e: Entity| #[trigger] board_target_ok(self.recs(), self.boards_seq(), e),
            forall|e: Entity| #[trigger] occupancy_target_ok(self.recs(), e),
            assoc_unique(self.boards_seq()),
            forall|i: int|
                0 <= i < self.boards_seq().len() ==> (#[trigger] self.boards_seq()[i]).1.wf(),
            forall|i: int|
                0 <= i < self.boards_seq().len() ==> rec_of(
                    self.recs(),
                    (#[trigger] self.boards_seq()[i]).0,
                ) is Some,
            forall|i: int|
                0 <= i < self.boards_seq().len() && i != bi ==> board_consistent(
                    self.recs(),
                    self.boards_seq()[i].0,
                    (#[trigger] self.boards_seq()[i]).1.lookup@,
                ) || pre.recs()[entity.0 as int].unwrap().on_board == Some(
                    OnBoard(self.boards_seq()[i].0),
                ) || r2.on_board == Some(OnBoard(self.boards_seq()[i].0)),
            board_consistent(self.recs(), b, self.boards_seq()[bi].1.lookup@),
            forall|x: Entity| #[trigger]
                assoc_has_key(self.boards_seq(), x) == assoc_has_key(pre.boards_seq(), x),
            pre.recs()[entity.0 as int].unwrap().on_board == Some(OnBoard(b)) || pre.recs()[entity.0
                as int].unwrap().on_board is None,
        ensures
            self.wf(),
    {
        assert forall|i: int| 0 <= i < self.boards_seq().len() implies board_consistent(
            self.recs(),
            self.boards_seq()[i].0,
            (#[trigger] self.boards_seq()[i]).1.lookup@,
        ) by {
            if i != bi {
                if i < bi {
                    assert(self.boards_seq()[i].0 != self.boards_seq()[bi].0);
                } else {
                    assert(self.boards_seq()[bi].0 != self.boards_seq()[i].0);
                }
            }
        }

    }

}

/// A record pushed at the end of the arena with no components does not
/// change what any board's index must say.
proof fn lemma_consistent_fresh(
    records: Seq<Option<EntityRecord>>,
    b: Entity,
    lv: LookupView,
    id: usize,
)
    requires
        board_consistent(records, b, lv),
        id == records.len(),
    ensures
        board_consistent(records.push(Some(EntityRecord::spec_empty())), b, lv),
{
    let r2 = records.push(Some(EntityRecord::spec_empty()));
    assert forall|x: Entity| #[trigger]
        rec_of(r2, x) == if x.0 == id {
            Some(EntityRecord::spec_empty())
        } else {
            rec_of(records, x)
        } by {}
    assert forall|e: Entity| #[trigger] lv.members.contains(e) <==> is_member_rec(r2, e, b) by {
        assert(lv.members.contains(e) <==> is_member_rec(records, e, b));
    }
    assert forall|a: Entity, e: Entity| #[trigger]
        lv.owned.contains((a, e)) <==> is_member_rec(r2, e, b) && has_owner(r2, e, a) by {
        assert(lv.owned.contains((a, e)) <==> is_member_rec(records, e, b) && has_owner(
            records,
            e,
            a,
        ));
    }
    assert forall|a: Entity, e: Entity| #[trigger]
        lv.hand.contains((a, e)) <==> is_member_rec(r2, e, b) && has_owner(r2, e, a)
            && has_hand_marker(r2, e) by {
        assert(lv.hand.contains((a, e)) <==> is_member_rec(records, e, b) && has_owner(
            records,
            e,
            a,
        ) && has_hand_marker(records, e));
    }
    assert forall|e: Entity| #[trigger]
        lv.on_field.contains(e) <==> is_member_rec(r2, e, b) && has_field_marker(r2, e) by {
        assert(lv.on_field.contains(e) <==> is_member_rec(records, e, b) && has_field_marker(
            records,
            e,
        ));
    }
    assert forall|s: Entity, p: IVec3| #[trigger]
        is_slot_at(r2, s, b, p) implies lv.slots.contains_key(p) && lv.slots[p] == s by {
        assert(is_slot_at(records, s, b, p));
    }
    assert forall|p: IVec3| #[trigger]
        lv.slots.contains_key(p) implies is_slot_at(r2, lv.slots[p], b, p) by {
        assert(is_slot_at(records, lv.slots[p], b, p));
    }
    assert forall|e: Entity, p: IVec3| #[trigger]
        occupies(r2, e, b, p) implies lv.occupied.contains_key(p) && lv.occupied[p] == e by {
        assert(occupies(records, e, b, p));
    }
    assert forall|p: IVec3| #[trigger]
        lv.occupied.contains_key(p) implies occupies(r2, lv.occupied[p], b, p) by {
        assert(occupies(records, lv.occupied[p], b, p));
    }
}

/// A dead or out-of-range entity is no board under the invariant.
proof fn lemma_no_board(s: &EntityStore, b: Entity)
    requires
        s.wf(),
        !s.alive(b),
    ensures
        !s.has_board(b),
{
    if s.has_board(b) {
        let i = choose|i: int|
            0 <= i < s.boards_seq().len() && (#[trigger] s.boards_seq()[i]).0 == b;
        assert(rec_of(s.recs(), s.boards_seq()[i].0) is Some);
    }
}

/// Appending a fresh board entry with an empty index keeps the store
/// invariant: nothing can be a member of a board that did not exist.
proof fn lemma_push_board(s: &EntityStore, b: Entity, bd: Board)
    requires
        s.wf(),
        s.alive(b),
        !s.has_board(b),
        bd.wf(),
        bd.lookup@ == LookupView::empty(),
    ensures
        assoc_unique(s.boards_seq().push((b, bd))),
        forall|i: int|
            0 <= i < s.boards_seq().push((b, bd)).len() ==> (#[trigger] s.boards_seq().push(
                (b, bd),
            )[i]).1.wf(),
        forall|i: int|
            0 <= i < s.boards_seq().push((b, bd)).len() ==> board_consistent(
                s.recs(),
                s.boards_seq().push((b, bd))[i].0,
                (#[trigger] s.boards_seq().push((b, bd))[i]).1.lookup@,
            ),
        forall|i: int|
            0 <= i < s.boards_seq().push((b, bd)).len() ==> rec_of(
                s.recs(),
                (#[trigger] s.boards_seq().push((b, bd))[i]).0,
            ) is Some,
        forall|e: Entity| #[trigger] board_target_ok(s.recs(), s.boards_seq().push((b, bd)), e),
        assoc_has_key(s.boards_seq().push((b, bd)), b),
        assoc_at(s.boards_seq().push((b, bd)), b) == bd,
        forall|b2: Entity|
            b2 != b ==> (#[trigger] assoc_has_key(s.boards_seq().push((b, bd)), b2) <==>
            assoc_has_key(s.boards_seq(), b2)),
        forall|b2: Entity|
            b2 != b && assoc_has_key(s.boards_seq(), b2) ==> #[trigger] assoc_at(
                s.boards_seq().push((b, bd)),
                b2,
            ) == assoc_at(s.boards_seq(), b2),
{
    let t = s.boards_seq().push((b, bd));
    assert forall|i: int, j: int| 0 <= i < j < t.len() implies (#[trigger] t[i]).0 != (
    #[trigger] t[j]).0 by {
        if j < s.boards_seq().len() {
            assert(s.boards_seq()[i].0 != s.boards_seq()[j].0);
        } else {
            if t[i].0 == b {
                assert(assoc_has_key(s.boards_seq(), b));
            }
        }
    }
    assert forall|i: int| 0 <= i < t.len() implies board_consistent(
        s.recs(),
        t[i].0,
        (#[trigger] t[i]).1.lookup@,
    ) by {
        if i < s.boards_seq().len() {
            assert(t[i] == s.boards_seq()[i]);
            assert(board_consistent(s.recs(), s.boards_seq()[i].0, s.boards_seq()[i].1.lookup@));
        } else {
            assert(t[i] == (b, bd));
            assert forall|e: Entity| #[trigger]
                bd.lookup@.members.contains(e) <==> is_member_rec(s.recs(), e, b) by {
                if is_member_rec(s.recs(), e, b) {
                    assert(board_target_ok(s.recs(), s.boards_seq(), e));
                }
            }
            assert forall|a: Entity, e: Entity| #[trigger]
                bd.lookup@.owned.contains((a, e)) <==> is_member_rec(s.recs(), e, b) && has_owner(
                s.recs(),
                e,
                a,
            ) by {
                if is_member_rec(s.recs(), e, b) {
                    assert(board_target_ok(s.recs(), s.boards_seq(), e));
                }
            }
            assert forall|a: Entity, e: Entity| #[trigger]
                bd.lookup@.hand.contains((a, e)) <==> is_member_rec(s.recs(), e, b) && has_owner(
                s.recs(),
                e,
                a,
            ) && has_hand_marker(s.recs(), e) by {
                if is_member_rec(s.recs(), e, b) {
                    assert(board_target_ok(s.recs(), s.boards_seq(), e));
                }
                assert(!bd.lookup@.hand.contains((a, e)));
            }
            assert forall|e: Entity| #[trigger]
                bd.lookup@.on_field.contains(e) <==> is_member_rec(s.recs(), e, b)
                    && has_field_marker(s.recs(), e) by {
                if is_member_rec(s.recs(), e, b) {
                    assert(board_target_ok(s.recs(), s.boards_seq(), e));
                }
            }
            assert forall|sl: Entity, p: IVec3| #[trigger]
                is_slot_at(s.recs(), sl, b, p) implies bd.lookup@.slots.contains_key(p)
                && bd.lookup@.slots[p] == sl by {
                assert(board_target_ok(s.recs(), s.boards_seq(), sl));
            }
            assert forall|e: Entity, p: IVec3| #[trigger]
                occupies(s.recs(), e, b, p) implies bd.lookup@.occupied.contains_key(p)
                && bd.lookup@.occupied[p] == e by {
                assert(board_target_ok(s.recs(), s.boards_seq(), e));
            }
        }
    }
    assert forall|e: Entity| #[trigger] board_target_ok(s.recs(), t, e) by {
        assert(board_target_ok(s.recs(), s.boards_seq(), e));
        match rec_of(s.recs(), e) {
            Some(r) => match r.on_board {
                Some(ob) => {
                    if assoc_has_key(s.boards_seq(), ob.0) {
                        let i = choose|i: int|
                            0 <= i < s.boards_seq().len() && (#[trigger] s.boards_seq()[i]).0
                                == ob.0;
                        assert(t[i].0 == ob.0);
                    }
                },
                None => {},
            },
            None => {},
        }
    }
    lemma_assoc_at(t, s.boards_seq().len() as int);
    assert forall|b2: Entity|
        b2 != b implies (#[trigger] assoc_has_key(t, b2) <==> assoc_has_key(
        s.boards_seq(),
        b2,
    )) by {
        if assoc_has_key(t, b2) {
            let i = choose|i: int| 0 <= i < t.len() && (#[trigger] t[i]).0 == b2;
            assert(i < s.boards_seq().len() && s.boards_seq()[i].0 == b2);
        }
        if assoc_has_key(s.boards_seq(), b2) {
            let i = choose|i: int|
                0 <= i < s.boards_seq().len() && (#[trigger] s.boards_seq()[i]).0 == b2;
            assert(t[i].0 == b2);
        }
    }
    assert forall|b2: Entity|
        b2 != b && assoc_has_key(s.boards_seq(), b2) implies #[trigger] assoc_at(t, b2)
        == assoc_at(s.boards_seq(), b2) by {
        let i = choose|i: int|
            0 <= i < s.boards_seq().len() && (#[trigger] s.boards_seq()[i]).0 == b2;
        lemma_assoc_at(s.boards_seq(), i);
        assert(t[i].0 == b2);
        lemma_assoc_at(t, i);
    }
}


/// Updating one record leaves a board's consistency untouched when the
/// entity is a member of that board neither before nor after the update.
proof fn lemma_consistent_untouched(
    records: Seq<Option<EntityRecord>>,
    b: Entity,
    lv: LookupView,
    i: int,
    r2: Option<EntityRecord>,
)
    requires
        board_consistent(records, b, lv),
        0 <= i < records.len(),
        !(records[i] matches Some(r1) && r1.on_board == Some(OnBoard(b))),
        !(r2 matches Some(r) && r.on_board == Some(OnBoard(b))),
    ensures
        board_consistent(records.update(i, r2), b, lv),
{
    let t = records.update(i, r2);
    assert forall|x: Entity| #[trigger]
        rec_of(t, x) == if (x.0 as int) == i {
            r2
        } else {
            rec_of(records, x)
        } by {}
    assert forall|e: Entity| #[trigger] lv.members.contains(e) <==> is_member_rec(t, e, b) by {
        assert(lv.members.contains(e) <==> is_member_rec(records, e, b));
    }
    assert forall|a: Entity, e: Entity| #[trigger]
        lv.owned.contains((a, e)) <==> is_member_rec(t, e, b) && has_owner(t, e, a) by {
        assert(lv.owned.contains((a, e)) <==> is_member_rec(records, e, b) && has_owner(
            records,
            e,
            a,
        ));
    }
    assert forall|a: Entity, e: Entity| #[trigger]
        lv.hand.contains((a, e)) <==> is_member_rec(t, e, b) && has_owner(t, e, a)
            && has_hand_marker(t, e) by {
        assert(lv.hand.contains((a, e)) <==> is_member_rec(records, e, b) && has_owner(
            records,
            e,
            a,
        ) && has_hand_marker(records, e));
    }
    assert forall|e: Entity| #[trigger]
        lv.on_field.contains(e) <==> is_member_rec(t, e, b) && has_field_marker(t, e) by {
        assert(lv.on_field.contains(e) <==> is_member_rec(records, e, b) && has_field_marker(
            records,
            e,
        ));
    }
    assert forall|s2: Entity, p: IVec3| #[trigger]
        is_slot_at(t, s2, b, p) implies lv.slots.contains_key(p) && lv.slots[p] == s2 by {
        assert(is_slot_at(records, s2, b, p));
    }
    assert forall|p: IVec3| #[trigger]
        lv.slots.contains_key(p) implies is_slot_at(t, lv.slots[p], b, p) by {
        assert(is_slot_at(records, lv.slots[p], b, p));
    }
    assert forall|e: Entity, p: IVec3| #[trigger]
        occupies(t, e, b, p) implies lv.occupied.contains_key(p) && lv.occupied[p] == e by {
        assert(occupies(records, e, b, p));
    }
    assert forall|p: IVec3| #[trigger]
        lv.occupied.contains_key(p) implies occupies(t, lv.occupied[p], b, p) by {
        assert(occupies(records, lv.occupied[p], b, p));
    }
}

/// Updating one record without touching its membership, slot identity or
/// slot occupancy leaves every structural predicate as it was.
proof fn lemma_same_membership_fields(
    records: Seq<Option<EntityRecord>>,
    boards: Seq<(Entity, Board)>,
    i: int,
    r2: EntityRecord,
)
    requires
        0 <= i < records.len(),
        records[i] matches Some(r1) && {
            &&& r1.on_board == r2.on_board
            &&& r1.slot == r2.slot
            &&& r1.on_slot == r2.on_slot
        },
        forall|e: Entity| #[trigger] board_target_ok(records, boards, e),
        forall|e: Entity| #[trigger] occupancy_target_ok(records, e),
    ensures
        forall|e: Entity, b: Entity| #[trigger]
            is_member_rec(records.update(i, Some(r2)), e, b) == is_member_rec(records, e, b),
        forall|s: Entity, b: Entity, p: IVec3| #[trigger]
            is_slot_at(records.update(i, Some(r2)), s, b, p) == is_slot_at(records, s, b, p),
        forall|e: Entity, b: Entity, p: IVec3| #[trigger]
            occupies(records.update(i, Some(r2)), e, b, p) == occupies(records, e, b, p),
        forall|e: Entity| #[trigger] board_target_ok(records.update(i, Some(r2)), boards, e),
        forall|e: Entity| #[trigger] occupancy_target_ok(records.update(i, Some(r2)), e),
{
    let t = records.update(i, Some(r2));
    assert forall|x: Entity| #[trigger]
        rec_of(t, x) == if (x.0 as int) == i {
            Some(r2)
        } else {
            rec_of(records, x)
        } by {}
    assert forall|e: Entity, b: Entity| #[trigger]
        is_member_rec(t, e, b) == is_member_rec(records, e, b) by {}
    assert forall|s: Entity, b: Entity, p: IVec3| #[trigger]
        is_slot_at(t, s, b, p) == is_slot_at(records, s, b, p) by {}
    assert forall|e: Entity, b: Entity, p: IVec3| #[trigger]
        occupies(t, e, b, p) == occupies(records, e, b, p) by {
        assert(is_slot_at(t, e, b, p) == is_slot_at(records, e, b, p));
        if rec_of(records, e) is Some && rec_of(records, e).unwrap().on_slot is Some {
            let os = rec_of(records, e).unwrap().on_slot.unwrap();
            assert(is_slot_at(t, os.0, b, p) == is_slot_at(records, os.0, b, p));
        }
        if rec_of(t, e) is Some && rec_of(t, e).unwrap().on_slot is Some {
            let os = rec_of(t, e).unwrap().on_slot.unwrap();
            assert(is_slot_at(t, os.0, b, p) == is_slot_at(records, os.0, b, p));
        }
    }
    assert forall|e: Entity| #[trigger] board_target_ok(t, boards, e) by {
        assert(board_target_ok(records, boards, e));
    }
    assert forall|e: Entity| #[trigger] occupancy_target_ok(t, e) by {
        assert(occupancy_target_ok(records, e));
        if rec_of(t, e) is Some {
            let r = rec_of(t, e).unwrap();
            match (r.on_board, r.on_slot) {
                (Some(ob), Some(os)) => {
                    assert(is_member_rec(t, os.0, ob.0) == is_member_rec(records, os.0, ob.0));
                },
                _ => {},
            }
        }
    }
}

/// Pointwise: ownership is unchanged when the updated record keeps it.
proof fn lemma_same_owner(records: Seq<Option<EntityRecord>>, i: int, r2: EntityRecord)
    requires
        0 <= i < records.len(),
        records[i] matches Some(r1) && r1.agent_owned == r2.agent_owned,
    ensures
        forall|e: Entity, a: Entity| #[trigger]
            has_owner(records.update(i, Some(r2)), e, a) == has_owner(records, e, a),
{
}

/// Pointwise: the hand marker is unchanged when the updated record keeps it.
proof fn lemma_same_hand_marker(records: Seq<Option<EntityRecord>>, i: int, r2: EntityRecord)
    requires
        0 <= i < records.len(),
        records[i] matches Some(r1) && r1.on_hand == r2.on_hand,
    ensures
        forall|e: Entity| #[trigger]
            has_hand_marker(records.update(i, Some(r2)), e) == has_hand_marker(records, e),
{
}

/// Pointwise: the field marker is unchanged when the updated record keeps it.
proof fn lemma_same_field_marker(records: Seq<Option<EntityRecord>>, i: int, r2: EntityRecord)
    requires
        0 <= i < records.len(),
        records[i] matches Some(r1) && r1.on_field == r2.on_field,
    ensures
        forall|e: Entity| #[trigger]
            has_field_marker(records.update(i, Some(r2)), e) == has_field_marker(records, e),
{
}

/// Carry the member/slot/occupancy clauses of consistency when those
/// predicates and sub-views are unchanged.
proof fn lemma_carry_structural(
    records: Seq<Option<EntityRecord>>,
    recs2: Seq<Option<EntityRecord>>,
    b: Entity,
    lv: LookupView,
    lv2: LookupView,
)
    requires
        board_consistent(records, b, lv),
        forall|e: Entity, b2: Entity| #[trigger]
            is_member_rec(recs2, e, b2) == is_member_rec(records, e, b2),
        forall|s: Entity, b2: Entity, p: IVec3| #[trigger]
            is_slot_at(recs2, s, b2, p) == is_slot_at(records, s, b2, p),
        forall|e: Entity, b2: Entity, p: IVec3| #[trigger]
            occupies(recs2, e, b2, p) == occupies(records, e, b2, p),
        lv2.members == lv.members,
        lv2.slots == lv.slots,
        lv2.occupied == lv.occupied,
    ensures
        forall|e: Entity| #[trigger] lv2.members.contains(e) <==> is_member_rec(recs2, e, b),
        forall|s: Entity, p: IVec3| #[trigger]
            is_slot_at(recs2, s, b, p) ==> lv2.slots.contains_key(p) && lv2.slots[p] == s,
        forall|p: IVec3| #[trigger]
            lv2.slots.contains_key(p) ==> is_slot_at(recs2, lv2.slots[p], b, p),
        forall|e: Entity, p: IVec3| #[trigger]
            occupies(recs2, e, b, p) ==> lv2.occupied.contains_key(p) && lv2.occupied[p] == e,
        forall|p: IVec3| #[trigger]
            lv2.occupied.contains_key(p) ==> occupies(recs2, lv2.occupied[p], b, p),
{
    assert forall|e: Entity| #[trigger] lv2.members.contains(e) <==> is_member_rec(
        recs2,
        e,
        b,
    ) by {
        assert(lv.members.contains(e) <==> is_member_rec(records, e, b));
    }
    assert forall|s: Entity, p: IVec3| #[trigger]
        is_slot_at(recs2, s, b, p) implies lv2.slots.contains_key(p) && lv2.slots[p] == s by {
        assert(is_slot_at(records, s, b, p));
    }
    assert forall|p: IVec3| #[trigger]
        lv2.slots.contains_key(p) implies is_slot_at(recs2, lv2.slots[p], b, p) by {
        assert(is_slot_at(records, lv.slots[p], b, p));
    }
    assert forall|e: Entity, p: IVec3| #[trigger]
        occupies(recs2, e, b, p) implies lv2.occupied.contains_key(p) && lv2.occupied[p] == e by {
        assert(occupies(records, e, b, p));
    }
    assert forall|p: IVec3| #[trigger]
        lv2.occupied.contains_key(p) implies occupies(recs2, lv2.occupied[p], b, p) by {
        assert(occupies(records, lv.occupied[p], b, p));
    }
}

/// Pointwise effects of changing only the slot-identity field of one
/// record, when no board member (or membership-carrying entity) occupies
/// that entity as its slot.
proof fn lemma_slot_identity_update(
    records: Seq<Option<EntityRecord>>,
    boards: Seq<(Entity, Board)>,
    e0: Entity,
    r2: EntityRecord,
)
    requires
        (e0.0 as int) < records.len(),
        records[e0.0 as int] matches Some(r1) && {
            &&& r1.on_board == r2.on_board
            &&& r1.agent_owned == r2.agent_owned
            &&& r1.on_hand == r2.on_hand
            &&& r1.on_field == r2.on_field
            &&& r1.on_slot == r2.on_slot
        },
        forall|x: Entity| #[trigger]
            rec_of(records, x) matches Some(rx) ==> (rx.on_board is Some ==> rx.on_slot != Some(
                OnSlot(e0),
            )),
    ensures
        forall|e: Entity, b: Entity| #[trigger]
            is_member_rec(records.update(e0.0 as int, Some(r2)), e, b) == is_member_rec(records, e, b),
        forall|e: Entity, a: Entity| #[trigger]
            has_owner(records.update(e0.0 as int, Some(r2)), e, a) == has_owner(records, e, a),
        forall|e: Entity| #[trigger]
            has_hand_marker(records.update(e0.0 as int, Some(r2)), e) == has_hand_marker(records, e),
        forall|e: Entity| #[trigger]
            has_field_marker(records.update(e0.0 as int, Some(r2)), e) == has_field_marker(records, e),
        forall|s: Entity, b: Entity, p: IVec3|
            s != e0 ==> #[trigger] is_slot_at(records.update(e0.0 as int, Some(r2)), s, b, p) == is_slot_at(
                records,
                s,
                b,
                p,
            ),
        forall|b: Entity, p: IVec3| #[trigger]
            is_slot_at(records.update(e0.0 as int, Some(r2)), e0, b, p) == (r2.on_board
                == Some(OnBoard(b)) && r2.slot == Some(BoardSlot(p))),
        forall|e: Entity, b: Entity, p: IVec3| #[trigger]
            occupies(records.update(e0.0 as int, Some(r2)), e, b, p) == occupies(records, e, b, p),
        forall|e: Entity| #[trigger]
            board_target_ok(records.update(e0.0 as int, Some(r2)), boards, e) == board_target_ok(
                records,
                boards,
                e,
            ),
        forall|e: Entity| #[trigger]
            occupancy_target_ok(records.update(e0.0 as int, Some(r2)), e) == occupancy_target_ok(records, e),
{
    let t = records.update(e0.0 as int, Some(r2));
    assert forall|x: Entity| #[trigger]
        rec_of(t, x) == if x == e0 {
            Some(r2)
        } else {
            rec_of(records, x)
        } by {}
    assert forall|e: Entity, b: Entity, p: IVec3| #[trigger]
        occupies(t, e, b, p) == occupies(records, e, b, p) by {
        if rec_of(records, e) is Some {
            let re = rec_of(records, e).unwrap();
            if re.on_board is Some && re.on_slot is Some {
                let s = re.on_slot.unwrap().0;
                assert(s != e0);
                assert(is_slot_at(t, s, b, p) == is_slot_at(records, s, b, p));
            }
        }
    }
    assert forall|e: Entity| #[trigger]
        occupancy_target_ok(t, e) == occupancy_target_ok(records, e) by {
        if rec_of(records, e) is Some {
            let re = rec_of(records, e).unwrap();
            if re.on_board is Some && re.on_slot is Some {
                let s = re.on_slot.unwrap().0;
                assert(s != e0);
            }
        }
    }
}

/// Pointwise effects of changing only the slot-occupancy field of one
/// record: membership, ownership, markers and slot identities are
/// untouched; only the entity's own occupancy changes, and what it now
/// occupies is read off the unchanged slot identities.
proof fn lemma_on_slot_update(
    records: Seq<Option<EntityRecord>>,
    boards: Seq<(Entity, Board)>,
    e0: Entity,
    r2: EntityRecord,
)
    requires
        (e0.0 as int) < records.len(),
        records[e0.0 as int] matches Some(r1) && {
            &&& r1.on_board == r2.on_board
            &&& r1.agent_owned == r2.agent_owned
            &&& r1.on_hand == r2.on_hand
            &&& r1.on_field == r2.on_field
            &&& r1.slot == r2.slot
        },
    ensures
        forall|e: Entity, b: Entity| #[trigger]
            is_member_rec(records.update(e0.0 as int, Some(r2)), e, b) == is_member_rec(
                records,
                e,
                b,
            ),
        forall|e: Entity, a: Entity| #[trigger]
            has_owner(records.update(e0.0 as int, Some(r2)), e, a) == has_owner(records, e, a),
        forall|e: Entity| #[trigger]
            has_hand_marker(records.update(e0.0 as int, Some(r2)), e) == has_hand_marker(
                records,
                e,
            ),
        forall|e: Entity| #[trigger]
            has_field_marker(records.update(e0.0 as int, Some(r2)), e) == has_field_marker(
                records,
                e,
            ),
        forall|s: Entity, b: Entity, p: IVec3| #[trigger]
            is_slot_at(records.update(e0.0 as int, Some(r2)), s, b, p) == is_slot_at(
                records,
                s,
                b,
                p,
            ),
        forall|e: Entity, b: Entity, p: IVec3|
            e != e0 ==> #[trigger] occupies(records.update(e0.0 as int, Some(r2)), e, b, p)
                == occupies(records, e, b, p),
        forall|b: Entity, p: IVec3| #[trigger]
            occupies(records.update(e0.0 as int, Some(r2)), e0, b, p) == (r2.on_board == Some(
                OnBoard(b),
            ) && (r2.on_slot matches Some(os) && is_slot_at(records, os.0, b, p))),
        forall|e: Entity| #[trigger]
            board_target_ok(records.update(e0.0 as int, Some(r2)), boards, e) == board_target_ok(
                records,
                boards,
                e,
            ),
        forall|e: Entity|
            e != e0 ==> #[trigger] occupancy_target_ok(records.update(e0.0 as int, Some(r2)), e)
                == occupancy_target_ok(records, e),
{
    let t = records.update(e0.0 as int, Some(r2));
    assert forall|x: Entity| #[trigger]
        rec_of(t, x) == if x == e0 {
            Some(r2)
        } else {
            rec_of(records, x)
        } by {}
    assert forall|e: Entity, b: Entity, p: IVec3|
        e != e0 implies #[trigger] occupies(t, e, b, p) == occupies(records, e, b, p) by {
        if rec_of(records, e) is Some {
            let re = rec_of(records, e).unwrap();
            if re.on_board is Some && re.on_slot is Some {
                let s2 = re.on_slot.unwrap().0;
                assert(is_slot_at(t, s2, b, p) == is_slot_at(records, s2, b, p));
            }
        }
    }
    assert forall|b: Entity, p: IVec3| #[trigger]
        occupies(t, e0, b, p) == (r2.on_board == Some(OnBoard(b)) && (r2.on_slot matches Some(os)
            && is_slot_at(records, os.0, b, p))) by {
        if r2.on_slot is Some {
            let s2 = r2.on_slot.unwrap().0;
            assert(is_slot_at(t, s2, b, p) == is_slot_at(records, s2, b, p));
        }
    }
    assert forall|e: Entity|
        e != e0 implies #[trigger] occupancy_target_ok(t, e) == occupancy_target_ok(
        records,
        e,
    ) by {
        if rec_of(records, e) is Some {
            let re = rec_of(records, e).unwrap();
            if re.on_board is Some && re.on_slot is Some {
                let s2 = re.on_slot.unwrap().0;
                assert(is_member_rec(t, s2, re.on_board.unwrap().0) == is_member_rec(
                    records,
                    s2,
                    re.on_board.unwrap().0,
                ));
            }
        }
    }
}

/// Pointwise effects of attaching or detaching board-membership on one
/// record (with the other components kept, except that slot-occupancy may
/// be cleared), when no membership-carrying entity occupies the changed
/// entity as its slot.
proof fn lemma_membership_change(
    records: Seq<Option<EntityRecord>>,
    boards: Seq<(Entity, Board)>,
    e0: Entity,
    r2: EntityRecord,
)
    requires
        (e0.0 as int) < records.len(),
        records[e0.0 as int] matches Some(r1) && {
            &&& r1.agent_owned == r2.agent_owned
            &&& r1.on_hand == r2.on_hand
            &&& r1.on_field == r2.on_field
            &&& r1.slot == r2.slot
            &&& (r1.on_slot == r2.on_slot || r2.on_slot is None)
            &&& (r1.on_board is None || r2.on_board is None)
        },
        forall|x: Entity| #[trigger]
            rec_of(records, x) matches Some(rx) ==> (rx.on_board is Some ==> rx.on_slot != Some(
                OnSlot(e0),
            )),
    ensures
        forall|e: Entity, b: Entity|
            e != e0 ==> #[trigger] is_member_rec(records.update(e0.0 as int, Some(r2)), e, b)
                == is_member_rec(records, e, b),
        forall|b: Entity| #[trigger]
            is_member_rec(records.update(e0.0 as int, Some(r2)), e0, b) == (r2.on_board == Some(
                OnBoard(b),
            )),
        forall|e: Entity, a: Entity| #[trigger]
            has_owner(records.update(e0.0 as int, Some(r2)), e, a) == has_owner(records, e, a),
        forall|e: Entity| #[trigger]
            has_hand_marker(records.update(e0.0 as int, Some(r2)), e) == has_hand_marker(
                records,
                e,
            ),
        forall|e: Entity| #[trigger]
            has_field_marker(records.update(e0.0 as int, Some(r2)), e) == has_field_marker(
                records,
                e,
            ),
        forall|s: Entity, b: Entity, p: IVec3|
            s != e0 ==> #[trigger] is_slot_at(records.update(e0.0 as int, Some(r2)), s, b, p)
                == is_slot_at(records, s, b, p),
        forall|b: Entity, p: IVec3| #[trigger]
            is_slot_at(records.update(e0.0 as int, Some(r2)), e0, b, p) == (r2.on_board == Some(
                OnBoard(b),
            ) && r2.slot == Some(BoardSlot(p))),
        forall|x: Entity, b: Entity, p: IVec3|
            x != e0 ==> #[trigger] occupies(records.update(e0.0 as int, Some(r2)), x, b, p)
                == occupies(records, x, b, p),
        forall|x: Entity|
            x != e0 ==> #[trigger] board_target_ok(records.update(e0.0 as int, Some(r2)), boards, x)
                == board_target_ok(records, boards, x),
        forall|x: Entity|
            x != e0 ==> #[trigger] occupancy_target_ok(records.update(e0.0 as int, Some(r2)), x)
                == occupancy_target_ok(records, x),
{
    let t = records.update(e0.0 as int, Some(r2));
    assert forall|x: Entity| #[trigger]
        rec_of(t, x) == if x == e0 {
            Some(r2)
        } else {
            rec_of(records, x)
        } by {}
    assert forall|x: Entity, b: Entity, p: IVec3|
        x != e0 implies #[trigger] occupies(t, x, b, p) == occupies(records, x, b, p) by {
        if rec_of(records, x) is Some {
            let rx = rec_of(records, x).unwrap();
            if rx.on_board is Some && rx.on_slot is Some {
                let s2 = rx.on_slot.unwrap().0;
                assert(s2 != e0);
                assert(is_slot_at(t, s2, b, p) == is_slot_at(records, s2, b, p));
            }
        }
    }
    assert forall|x: Entity|
        x != e0 implies #[trigger] occupancy_target_ok(t, x) == occupancy_target_ok(
        records,
        x,
    ) by {
        if rec_of(records, x) is Some {
            let rx = rec_of(records, x).unwrap();
            if rx.on_board is Some && rx.on_slot is Some {
                let s2 = rx.on_slot.unwrap().0;
                assert(s2 != e0);
                assert(is_member_rec(t, s2, rx.on_board.unwrap().0) == is_member_rec(
                    records,
                    s2,
                    rx.on_board.unwrap().0,
                ));
            }
        }
    }
}

/// A fresh vector with the same entities.
fn copy_entities(v: &Vec<Entity>) -> (r: Vec<Entity>)
    ensures
        r@ == v@,
{
    let mut r: Vec<Entity> = Vec::new();
    let n = v.len();
    let mut i: usize = 0;
    while i < n
        invariant
            n == v.len(),
            i <= n,
            r@ == v@.subrange(0, i as int),
        decreases n - i,
    {
        let e = v[i];
        r.push(e);
        proof {
            assert(r@ =~= v@.subrange(0, i + 1));
        }
        i += 1;
    }
    proof {
        assert(v@.subrange(0, n as int) =~= v@);
    }
    r
}

/// Membership consistency: an entity is in a board's member set exactly
/// when it currently carries a board-membership component pointing at that
/// board.
pub proof fn lemma_membership_consistency(s: EntityStore, b: Entity, e: Entity)
    requires
        s.wf(),
        s.has_board(b),
    ensures
        s.lookup_of(b).members.contains(e) <==> (s.rec(e) matches Some(r) && r.on_board == Some(
            OnBoard(b),
        )),
{
    s.lemma_board_facts(b);
}

/// Sub-index subset: whatever stands in a board's by-agent, by-hand,
/// on-field or by-occupied-position sub-index is a member of that board.
pub proof fn lemma_subindex_subset(s: EntityStore, b: Entity, a: Entity, e: Entity, p: IVec3)
    requires
        s.wf(),
        s.has_board(b),
    ensures
        s.lookup_of(b).owned.contains((a, e)) ==> s.lookup_of(b).members.contains(e),
        s.lookup_of(b).hand.contains((a, e)) ==> s.lookup_of(b).members.contains(e),
        s.lookup_of(b).on_field.contains(e) ==> s.lookup_of(b).members.contains(e),
        s.lookup_of(b).occupied.contains_key(p) && s.lookup_of(b).occupied[p] == e ==> s.lookup_of(
            b,
        ).members.contains(e),
{
    s.lemma_board_facts(b);
}

/// Occupancy uniqueness: on any board, at most one entity occupies the
/// slot at a given position at any observation point.
pub proof fn lemma_occupancy_uniqueness(
    s: EntityStore,
    b: Entity,
    p: IVec3,
    e1: Entity,
    e2: Entity,
)
    requires
        s.wf(),
        s.has_board(b),
        occupies(s.recs(), e1, b, p),
        occupies(s.recs(), e2, b, p),
    ensures
        e1 == e2,
{
    s.lemma_board_facts(b);
    assert(s.lookup_of(b).occupied[p] == e1);
    assert(s.lookup_of(b).occupied[p] == e2);
}

/// Order independence: attaching agent-ownership and the hand marker to a
/// board member that had neither, in either order, leaves the records and
/// the board's index in the same final state.
pub proof fn lemma_order_independence(
    s0: EntityStore,
    s1a: EntityStore,
    s2a: EntityStore,
    s1b: EntityStore,
    s2b: EntityStore,
    e: Entity,
    a: Entity,
    b: Entity,
)
    requires
        s0.wf(),
        s0.rec(e) matches Some(r) && {
            &&& r.on_board == Some(OnBoard(b))
            &&& r.agent_owned is None
            &&& !r.on_hand
        },
        attach_agent_owned_post(s0, s1a, e, a),
        attach_on_hand_post(s1a, s2a, e),
        attach_on_hand_post(s0, s1b, e),
        attach_agent_owned_post(s1b, s2b, e, a),
    ensures
        s2a.recs() == s2b.recs(),
        s2a.lookup_of(b) == s2b.lookup_of(b),
{
    let r = s0.rec(e).unwrap();
    let rfin = EntityRecord {
        agent_owned: Some(AgentOwned(a)),
        on_hand: true,
        ..r
    };
    assert(s1a.rec(e) == Some(EntityRecord { agent_owned: Some(AgentOwned(a)), ..r }));
    assert(s1b.rec(e) == Some(EntityRecord { on_hand: true, ..r }));
    assert(s2a.recs() =~= s0.recs().update(e.0 as int, Some(rfin)));
    assert(s2b.recs() =~= s0.recs().update(e.0 as int, Some(rfin)));
    let lv0 = s0.lookup_of(b);
    assert(s1a.lookup_of(b) == (LookupView {
        owned: lv0.owned.insert((a, e)),
        hand: lv0.hand,
        ..lv0
    }));
    assert(s2a.lookup_of(b) =~= (LookupView {
        owned: lv0.owned.insert((a, e)),
        hand: lv0.hand.push((a, e)),
        ..lv0
    }));
    assert(s1b.lookup_of(b) == lv0);
    assert(s2b.lookup_of(b) =~= (LookupView {
        owned: lv0.owned.insert((a, e)),
        hand: lv0.hand.push((a, e)),
        ..lv0
    }));
}

} // verus!
