//! Cards and per-client card visibility.

use vstd::prelude::*;

use crate::effect::{EffectId, EffectInstance, Effects};

verus! {

/// The identity of a card kind in the card registry.
#[derive(Clone, Copy, PartialEq, Eq, Structural, Hash, Debug)]
pub struct CardId(pub u32);

/// Marker: the entity is a card.
#[derive(Clone, Copy, PartialEq, Eq, Structural, Debug)]
pub struct Card;

/// The card kind an entity is an instance of.
#[derive(Clone, Copy, PartialEq, Eq, Structural, Debug)]
pub struct CardAttribute {
    pub id: CardId,
}

impl CardAttribute {
    pub fn new(id: CardId) -> (r: CardAttribute)
        ensures
            r.id == id,
    {
        CardAttribute { id }
    }
}

/// Which clients may see a card's face. While `visible_to_all` holds, the
/// list still remembers who could see it privately, for when visibility
/// becomes private again.
pub struct CardVisibility {
    pub visible_to: Vec<u64>,
    pub visible_to_all: bool,
}

impl CardVisibility {
    pub fn new(visible_to: Vec<u64>, visible_to_all: bool) -> (r: CardVisibility)
        ensures
            r.visible_to == visible_to,
            r.visible_to_all == visible_to_all,
    {
        CardVisibility { visible_to, visible_to_all }
    }

    /// Whether the given client may see the card's face.
    pub fn can_see(&self, client: u64) -> (r: bool)
        ensures
            r == (self.visible_to_all || self.visible_to@.contains(client)),
    {
        if self.visible_to_all {
            return true;
        }
        let n = self.visible_to.len();
        let mut i: usize = 0;
        while i < n
            invariant
                n == self.visible_to.len(),
                i <= n,
                forall|j: int| 0 <= j < i ==> self.visible_to@[j] != client,
            decreases n - i,
        {
            if self.visible_to[i] == client {
                return true;
            }
            i += 1;
        }
        false
    }
}

/// The registry data of one card kind.
pub struct CardData {
    pub name: String,
    pub description: String,
    pub effects: Vec<EffectId>,
}

impl CardData {
    /// The effect instances a fresh copy of this card carries: one per
    /// registered effect, with no cooldown.
    pub fn create_instance(&self) -> (r: Effects)
        ensures
            r@.len() == self.effects@.len(),
            forall|i: int|
                0 <= i < r@.len() ==> (#[trigger] r@[i]).effect_id == self.effects@[i]
                    && r@[i].cooldown == 0,
    {
        let mut list: Vec<EffectInstance> = Vec::new();
        let n = self.effects.len();
        let mut i: usize = 0;
        while i < n
            invariant
                n == self.effects.len(),
                i <= n,
                list@.len() == i,
                forall|j: int|
                    0 <= j < i ==> (#[trigger] list@[j]).effect_id == self.effects@[j]
                        && list@[j].cooldown == 0,
            decreases n - i,
        {
            let id = self.effects[i];
            list.push(EffectInstance::new(id));
            i += 1;
        }
        Effects::new(list)
    }
}

} // verus!
