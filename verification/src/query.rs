//! Queries over a board's lookup index.
//!
//! A query names locations on one board — the whole board, a hand, the
//! field, one slot position — and collects the entities found there,
//! without scanning all entities.

use vstd::prelude::*;

use crate::board::Board;
use crate::components::AgentOwned;
use crate::entity::{Entity, IVec3};
use crate::lookup::{hand_of_seq, lemma_hand_of_seq_elems, LookupView};

verus! {

/// One location of a board to collect entities from.
pub enum BoardQueryLoc {
    /// Every entity on the board.
    All,
    /// The deck of an agent. Decks are not indexed by the board, so this
    /// location yields nothing.
    Deck(AgentOwned),
    /// The hand of an agent.
    Hand(AgentOwned),
    /// Every entity on the field.
    Field,
    /// The slot entity standing at a position.
    OnSlot(IVec3),
}

/// Whether an entity stands at a location of the given index.
pub open spec fn loc_matches(lv: LookupView, loc: BoardQueryLoc, e: Entity) -> bool {
    match loc {
        BoardQueryLoc::All => lv.members.contains(e),
        BoardQueryLoc::Deck(_) => false,
        BoardQueryLoc::Hand(agent) => lv.hand.contains((agent.0, e)),
        BoardQueryLoc::Field => lv.on_field.contains(e),
        BoardQueryLoc::OnSlot(pos) => lv.slots.contains_key(pos) && lv.slots[pos] == e,
    }
}

/// Collector for entities at chosen locations of one board.
pub struct BoardQuery;

impl BoardQuery {
    /// The entities standing at any of the given locations. An entity at
    /// several locations appears once per location it is found at.
    pub fn query(board: &Board, locations: &Vec<BoardQueryLoc>) -> (r: Vec<Entity>)
        requires
            board.wf(),
        ensures
            forall|e: Entity| #[trigger]
                r@.contains(e) <==> exists|i: int|
                    0 <= i < locations@.len() && loc_matches(
                        board.lookup@,
                        #[trigger] locations@[i],
                        e,
                    ),
    {
        let mut r: Vec<Entity> = Vec::new();
        let n = locations.len();
        let mut i: usize = 0;
        while i < n
            invariant
                n == locations@.len(),
                i <= n,
                board.wf(),
                forall|e: Entity| #[trigger]
                    r@.contains(e) <==> exists|j: int|
                        0 <= j < i && loc_matches(board.lookup@, #[trigger] locations@[j], e),
            decreases n - i,
        {
            let mut batch: Vec<Entity> = match &locations[i] {
                BoardQueryLoc::All => copy_entities(board.lookup.get_entities()),
                BoardQueryLoc::Deck(_) => Vec::new(),
                BoardQueryLoc::Hand(agent) => board.lookup.get_by_hand(agent.0),
                BoardQueryLoc::Field => copy_entities(board.lookup.get_entities_on_field()),
                BoardQueryLoc::OnSlot(pos) => {
                    let mut v: Vec<Entity> = Vec::new();
                    match board.lookup.get_on_slot(*pos) {
                        Some(s) => {
                            v.push(s);
                        },
                        None => {},
                    }
                    v
                },
            };
            proof {
                let lv = board.lookup@;
                let loc = locations@[i as int];
                assert forall|e: Entity| #[trigger]
                    batch@.contains(e) <==> loc_matches(lv, loc, e) by {
                    match loc {
                        BoardQueryLoc::All => {
                            crate::assoc::lemma_to_set_contains(batch@, e);
                        },
                        BoardQueryLoc::Deck(_) => {},
                        BoardQueryLoc::Hand(agent) => {
                            lemma_hand_of_seq_elems(lv.hand, agent.0);
                            assert(batch@ == hand_of_seq(lv.hand, agent.0));
                        },
                        BoardQueryLoc::Field => {
                            crate::assoc::lemma_to_set_contains(batch@, e);
                        },
                        BoardQueryLoc::OnSlot(pos) => {
                            if batch@.contains(e) {
                                assert(batch@[0] == e);
                            }
                            if loc_matches(lv, loc, e) {
                                assert(batch@[0] == e);
                            }
                        },
                    }
                }
            }
            let ghost r_pre = r@;
            let ghost batch_view = batch@;
            r.append(&mut batch);
            proof {
                assert(r@ == r_pre + batch_view);
                assert forall|e: Entity| #[trigger]
                    r@.contains(e) <==> exists|j: int|
                        0 <= j < i + 1 && loc_matches(
                            board.lookup@,
                            #[trigger] locations@[j],
                            e,
                        ) by {
                    if r@.contains(e) {
                        let k = choose|k: int| 0 <= k < r@.len() && r@[k] == e;
                        if k < r_pre.len() {
                            assert(r_pre.contains(e));
                            let j = choose|j: int|
                                0 <= j < i && loc_matches(
                                    board.lookup@,
                                    #[trigger] locations@[j],
                                    e,
                                );
                            assert(0 <= j < i + 1 && loc_matches(
                                board.lookup@,
                                locations@[j],
                                e,
                            ));
                        } else {
                            assert(batch_view[k - r_pre.len()] == e);
                            assert(batch_view.contains(e));
                            assert(loc_matches(board.lookup@, locations@[i as int], e));
                        }
                    }
                    if exists|j: int|
                        0 <= j < i + 1 && loc_matches(
                            board.lookup@,
                            #[trigger] locations@[j],
                            e,
                        ) {
                        let j = choose|j: int|
                            0 <= j < i + 1 && loc_matches(
                                board.lookup@,
                                #[trigger] locations@[j],
                                e,
                            );
                        if j < i {
                            assert(r_pre.contains(e));
                            let k = choose|k: int| 0 <= k < r_pre.len() && r_pre[k] == e;
                            assert(r@[k] == e);
                        } else {
                            assert(batch_view.contains(e));
                            let k = choose|k: int|
                                0 <= k < batch_view.len() && batch_view[k] == e;
                            assert(r@[r_pre.len() + k] == e);
                        }
                    }
                }
            }
            i += 1;
        }
        r
    }
}

/// A fresh vector with the same entities.
fn copy_entities(v: &Vec<Entity>) -> (r: Vec<Entity>)
    ensures
        r@ == v@,
{
    let mut r: Vec<Entity> = Vec::new();
    let n = v.len();
    let mut i: usize = 0;
    while i < n
        invariant
            n == v.len(),
            i <= n,
            r@ == v@.subrange(0, i as int),
        decreases n - i,
    {
        let e = v[i];
        r.push(e);
        proof {
            assert(r@ =~= v@.subrange(0, i + 1));
        }
        i += 1;
    }
    proof {
        assert(v@.subrange(0, n as int) =~= v@);
    }
    r
}

} // verus!
