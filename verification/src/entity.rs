//! Handles, payloads and slots.

use vstd::prelude::*;

verus! {

/// A handle to an entity: the index of its slot, and the generation the slot
/// had when the entity was stored there.
#[derive(Clone, Copy, PartialEq, Eq, Debug, Structural)]
pub struct EntityId {
    pub id: u32,
    pub gen: u32,
}

/// The payload of a slot.
#[derive(Debug, PartialEq, Eq)]
pub struct Entity {
    pub name: &'static str,
}

/// One slot of the registry: a generation counter and, while the slot is
/// occupied, its payload.
pub struct EntityEntry {
    pub gen: u32,
    pub entity: Option<Entity>,
}

impl EntityEntry {
    /// What the handle `id` finds in this slot: the payload if the slot is
    /// occupied and of the handle's generation, nothing otherwise. The index
    /// of the handle plays no part.
    pub open spec fn resolve(self, id: EntityId) -> Option<Entity> {
        if self.gen == id.gen {
            self.entity
        } else {
            None
        }
    }

    /// The slot with its payload replaced and its generation kept.
    pub open spec fn with_payload(self, payload: Option<Entity>) -> EntityEntry {
        EntityEntry { gen: self.gen, entity: payload }
    }

    /// Mutable access to the payload, granted only to a handle of the slot's
    /// generation. Whatever the caller writes through the result is the
    /// slot's payload afterwards; the generation never changes.
    pub fn get_mut(&mut self, id: EntityId) -> (r: Option<&mut Entity>)
        ensures
            match r {
                Some(e) => old(self).resolve(id) == Some(*e)
                    && *final(self) == old(self).with_payload(Some(*final(e))),
                None => old(self).resolve(id) is None && *final(self) == *old(self),
            },
    {
        if self.gen == id.gen {
            self.entity.as_mut()
        } else {
            None
        }
    }
}

} // verus!
