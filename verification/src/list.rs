//! The registry: a growable sequence of slots that is never reordered.

use vstd::prelude::*;
use crate::entity::{Entity, EntityEntry, EntityId};

verus! {

/// The number of slots a registry can address with a 32-bit index.
pub open spec fn index_space() -> int {
    0x1_0000_0000
}

/// Every slot has an index that a handle can hold.
pub open spec fn addressable(slots: Seq<EntityEntry>) -> bool {
    slots.len() <= index_space()
}

/// What the handle `id` resolves to in `slots`: the payload of the slot at
/// its index, if that slot exists, is occupied and has the handle's
/// generation.
pub open spec fn lookup(slots: Seq<EntityEntry>, id: EntityId) -> Option<Entity> {
    if id.id < slots.len() {
        slots[id.id as int].resolve(id)
    } else {
        None
    }
}

/// The least index at or after `from` whose slot is vacant, or the length of
/// `slots` if there is none.
pub open spec fn first_vacant_from(slots: Seq<EntityEntry>, from: int) -> int
    decreases slots.len() - from,
{
    if from < 0 || from >= slots.len() {
        slots.len() as int
    } else if slots[from].entity is None {
        from
    } else {
        first_vacant_from(slots, from + 1)
    }
}

/// The index of the first vacant slot, or the length of `slots` if every slot
/// is occupied.
pub open spec fn first_vacant(slots: Seq<EntityEntry>) -> int {
    first_vacant_from(slots, 0)
}

/// Whether an insertion can be numbered: the generation of the slot to be
/// reused can still grow, or the index of the slot to be appended fits.
pub open spec fn insertable(slots: Seq<EntityEntry>) -> bool {
    let i = first_vacant(slots);
    if i < slots.len() {
        slots[i].gen < u32::MAX
    } else {
        slots.len() < index_space()
    }
}

/// The handle that the next insertion returns.
pub open spec fn next_id(slots: Seq<EntityEntry>) -> EntityId {
    let i = first_vacant(slots);
    if i < slots.len() {
        EntityId { id: i as u32, gen: (slots[i].gen + 1) as u32 }
    } else {
        EntityId { id: slots.len() as u32, gen: 0 }
    }
}

/// The slots after inserting `entity`: the first vacant slot takes it and
/// moves to its next generation; with no vacant slot, a new slot of
/// generation 0 is appended.
pub open spec fn inserted(slots: Seq<EntityEntry>, entity: Entity) -> Seq<EntityEntry> {
    let i = first_vacant(slots);
    if i < slots.len() {
        slots.update(i, EntityEntry { gen: (slots[i].gen + 1) as u32, entity: Some(entity) })
    } else {
        slots.push(EntityEntry { gen: 0, entity: Some(entity) })
    }
}

/// The slots after removing through `id`: the slot at its index is vacated,
/// whatever its generation, and keeps that generation.
pub open spec fn vacated(slots: Seq<EntityEntry>, id: EntityId) -> Seq<EntityEntry> {
    if id.id < slots.len() {
        slots.update(id.id as int, slots[id.id as int].with_payload(None))
    } else {
        slots
    }
}

/// What `get_pair_mut` grants for the handles `a` and `b`, in that order.
/// Handles of different slots are looked up independently. Two handles of one
/// slot cannot both be served: `a` is served if it has the slot's generation,
/// else `b` is looked up.
pub open spec fn pair_lookup(slots: Seq<EntityEntry>, a: EntityId, b: EntityId) -> (
    Option<Entity>,
    Option<Entity>,
) {
    if a.id != b.id {
        (lookup(slots, a), lookup(slots, b))
    } else if a.id < slots.len() && slots[a.id as int].gen == a.gen {
        (lookup(slots, a), None)
    } else {
        (None, lookup(slots, b))
    }
}

/// The slots after the slot at the index of `id` took the payload `written`;
/// unchanged if nothing was written.
pub open spec fn rewritten(slots: Seq<EntityEntry>, id: EntityId, written: Option<Entity>) -> Seq<
    EntityEntry,
> {
    match written {
        Some(e) => slots.update(id.id as int, slots[id.id as int].with_payload(Some(e))),
        None => slots,
    }
}

/// `first_vacant_from` returns an index in range at which the scan stops:
/// every slot before it, from `from` on, is occupied, and the slot at it is
/// vacant unless the scan ran off the end.
pub proof fn lemma_first_vacant_from(slots: Seq<EntityEntry>, from: int)
    requires
        0 <= from <= slots.len(),
    ensures
        from <= first_vacant_from(slots, from) <= slots.len(),
        forall|j: int| from <= j < first_vacant_from(slots, from) ==> slots[j].entity is Some,
        first_vacant_from(slots, from) < slots.len() ==> slots[first_vacant_from(
            slots,
            from,
        )].entity is None,
    decreases slots.len() - from,
{
    if from < slots.len() && slots[from].entity is Some {
        lemma_first_vacant_from(slots, from + 1);
    }
}

/// The registry of entities.
pub struct EntityList(pub Vec<EntityEntry>);

impl View for EntityList {
    type V = Seq<EntityEntry>;

    open spec fn view(&self) -> Seq<EntityEntry> {
        self.0@
    }
}

impl Default for EntityList {
    fn default() -> (r: EntityList)
        ensures
            r@ == Seq::<EntityEntry>::empty(),
            r.wf(),
    {
        EntityList(Vec::new())
    }
}

impl EntityList {
    /// Every slot has an index that a handle can hold.
    pub open spec fn wf(&self) -> bool {
        addressable(self@)
    }

    /// Stores `entity` in the first vacant slot, or in a new slot at the end,
    /// and returns its handle.
    pub fn add(&mut self, entity: Entity) -> (id: EntityId)
        requires
            old(self).wf(),
            insertable(old(self)@),
        ensures
            final(self).wf(),
            final(self)@ == inserted(old(self)@, entity),
            id == next_id(old(self)@),
            lookup(final(self)@, id) == Some(entity),
    {
        proof {
            lemma_first_vacant_from(self@, 0);
        }
        let n: usize = self.0.len();
        let mut i: usize = 0;
        while i < n
            invariant
                i <= n,
                n == self.0.len(),
                self@ == old(self)@,
                first_vacant_from(self@, i as int) == first_vacant(self@),
                self.wf(),
                insertable(self@),
            decreases n - i,
        {
            if self.0[i].entity.is_none() {
                let entry = &mut self.0[i];
                entry.entity = Some(entity);
                entry.gen += 1;
                return EntityId { id: i as u32, gen: entry.gen };
            }
            i += 1;
        }
        self.0.push(EntityEntry { gen: 0, entity: Some(entity) });
        EntityId { id: n as u32, gen: 0 }
    }

    /// Vacates the slot at the handle's index and returns what it held. The
    /// handle's generation is not looked at.
    pub fn remove(&mut self, id: EntityId) -> (r: Option<Entity>)
        ensures
            final(self)@ == vacated(old(self)@, id),
            r == (if id.id < old(self)@.len() {
                old(self)@[id.id as int].entity
            } else {
                None
            }),
            final(self).wf() == old(self).wf(),
    {
        let i: usize = id.id as usize;
        if i < self.0.len() {
            let r = self.0[i].entity.take();
            assert(self@ =~= vacated(old(self)@, id));
            r
        } else {
            None
        }
    }

    /// The payload that `id` resolves to, if any.
    pub fn get(&self, id: EntityId) -> (r: Option<&Entity>)
        ensures
            match r {
                Some(e) => lookup(self@, id) == Some(*e),
                None => lookup(self@, id) is None,
            },
    {
        let i: usize = id.id as usize;
        if i < self.0.len() {
            let e = &self.0[i];
            if e.gen == id.gen {
                e.entity.as_ref()
            } else {
                None
            }
        } else {
            None
        }
    }

    /// Mutable access to the payload that `id` resolves to, if any. Only the
    /// payload of that one slot can change, by what the caller writes.
    pub fn get_mut(&mut self, id: EntityId) -> (r: Option<&mut Entity>)
        ensures
            match r {
                Some(e) => lookup(old(self)@, id) == Some(*e) && final(self)@ == rewritten(
                    old(self)@,
                    id,
                    Some(*final(e)),
                ),
                None => lookup(old(self)@, id) is None && final(self)@ == old(self)@,
            },
    {
        let i: usize = id.id as usize;
        if i < self.0.len() {
            let e = &mut self.0[i];
            e.get_mut(id)
        } else {
            None
        }
    }

    /// Mutable access to the payloads of two handles at once. What the
    /// caller writes through either result is that slot's payload
    /// afterwards; nothing else changes.
    pub fn get_pair_mut(&mut self, a: EntityId, b: EntityId) -> (r: (
        Option<&mut Entity>,
        Option<&mut Entity>,
    ))
        ensures
            match r.0 {
                Some(e) => pair_lookup(old(self)@, a, b).0 == Some(*e),
                None => pair_lookup(old(self)@, a, b).0 is None,
            },
            match r.1 {
                Some(e) => pair_lookup(old(self)@, a, b).1 == Some(*e),
                None => pair_lookup(old(self)@, a, b).1 is None,
            },
            final(self)@ == rewritten(
                rewritten(
                    old(self)@,
                    a,
                    match r.0 {
                        Some(e) => Some(*final(e)),
                        None => None,
                    },
                ),
                b,
                match r.1 {
                    Some(e) => Some(*final(e)),
                    None => None,
                },
            ),
    {
        let n: usize = self.0.len();
        if a.id < b.id {
            if (b.id as usize) < n {
                let (left, right) = self.0.as_mut_slice().split_at_mut(b.id as usize);
                (left[a.id as usize].get_mut(a), right[0].get_mut(b))
            } else {
                (self.get_mut(a), None)
            }
        } else if b.id < a.id {
            if (a.id as usize) < n {
                let (left, right) = self.0.as_mut_slice().split_at_mut(a.id as usize);
                (right[0].get_mut(a), left[b.id as usize].get_mut(b))
            } else {
                (None, self.get_mut(b))
            }
        } else if (a.id as usize) >= n || a.gen != self.0[a.id as usize].gen {
            (None, self.get_mut(b))
        } else {
            (self.get_mut(a), None)
        }
    }
}

} // verus!
