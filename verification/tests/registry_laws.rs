use entity_list::{Entity, EntityEntry, EntityId, EntityList};

#[test]
fn add_appends_with_generation_zero() {
    let mut el = EntityList::default();
    assert_eq!(el.0.len(), 0);
    assert_eq!(el.add(Entity { name: "a" }), EntityId { id: 0, gen: 0 });
    assert_eq!(el.add(Entity { name: "b" }), EntityId { id: 1, gen: 0 });
    assert_eq!(el.add(Entity { name: "c" }), EntityId { id: 2, gen: 0 });
    assert_eq!(el.0.len(), 3);
    assert_eq!(el.0[2].gen, 0);
    assert_eq!(el.0[2].entity, Some(Entity { name: "c" }));
}

#[test]
fn add_reuses_the_first_vacant_slot() {
    let mut el = EntityList::default();
    let _a = el.add(Entity { name: "a" });
    let b = el.add(Entity { name: "b" });
    let _c = el.add(Entity { name: "c" });
    let d = el.add(Entity { name: "d" });
    el.remove(d);
    el.remove(b);
    assert_eq!(el.add(Entity { name: "x" }), EntityId { id: 1, gen: 1 });
    assert_eq!(el.add(Entity { name: "y" }), EntityId { id: 3, gen: 1 });
    assert_eq!(el.add(Entity { name: "z" }), EntityId { id: 4, gen: 0 });
    assert_eq!(el.0.len(), 5);
}

#[test]
fn generation_counts_the_reuses_of_a_slot() {
    let mut el = EntityList::default();
    let mut id = el.add(Entity { name: "0" });
    for round in 1..=3u32 {
        assert_eq!(el.remove(id), Some(Entity { name: "0" }));
        // Removal alone leaves the generation where it was.
        assert_eq!(el.0[0].gen, round - 1);
        id = el.add(Entity { name: "0" });
        assert_eq!(id, EntityId { id: 0, gen: round });
    }
    assert_eq!(el.0.len(), 1);
}

#[test]
fn remove_returns_the_payload_and_vacates() {
    let mut el = EntityList::default();
    let a = el.add(Entity { name: "a" });
    assert_eq!(el.remove(a), Some(Entity { name: "a" }));
    assert_eq!(el.remove(a), None);
    assert_eq!(el.get(a), None);
    assert_eq!(el.0.len(), 1);
    assert_eq!(el.0[0].gen, 0);
}

#[test]
fn remove_does_not_look_at_the_generation() {
    let mut el = EntityList::default();
    let old = el.add(Entity { name: "old" });
    el.remove(old);
    let new = el.add(Entity { name: "new" });
    assert_eq!(new, EntityId { id: 0, gen: 1 });
    // The stale handle still vacates the slot it points at.
    assert_eq!(el.remove(old), Some(Entity { name: "new" }));
    assert_eq!(el.get(new), None);
}

#[test]
fn remove_out_of_range_is_nothing() {
    let mut el = EntityList::default();
    el.add(Entity { name: "a" });
    assert_eq!(el.remove(EntityId { id: 1, gen: 0 }), None);
    assert_eq!(el.remove(EntityId { id: u32::MAX, gen: 0 }), None);
    assert_eq!(el.0.len(), 1);
    assert_eq!(el.get(EntityId { id: 0, gen: 0 }), Some(&Entity { name: "a" }));
}

#[test]
fn get_fails_on_range_vacancy_and_generation() {
    let mut el = EntityList::default();
    let a = el.add(Entity { name: "a" });
    let b = el.add(Entity { name: "b" });
    assert_eq!(el.get(EntityId { id: 2, gen: 0 }), None);
    assert_eq!(el.get(EntityId { id: 0, gen: 1 }), None);
    el.remove(b);
    assert_eq!(el.get(b), None);
    assert_eq!(el.get(a), Some(&Entity { name: "a" }));
    assert!(el.get_mut(EntityId { id: 2, gen: 0 }).is_none());
    assert!(el.get_mut(EntityId { id: 0, gen: 1 }).is_none());
    assert!(el.get_mut(b).is_none());
}

#[test]
fn get_mut_writes_one_payload() {
    let mut el = EntityList::default();
    let a = el.add(Entity { name: "a" });
    let b = el.add(Entity { name: "b" });
    el.get_mut(b).unwrap().name = "B";
    assert_eq!(el.get(a), Some(&Entity { name: "a" }));
    assert_eq!(el.get(b), Some(&Entity { name: "B" }));
    assert_eq!(el.0[1].gen, 0);
}

#[test]
fn entry_grants_access_to_its_own_generation_only() {
    let mut entry = EntityEntry {
        gen: 4,
        entity: Some(Entity { name: "e" }),
    };
    assert!(entry.get_mut(EntityId { id: 0, gen: 3 }).is_none());
    // The index of the handle is not the entry's business.
    entry.get_mut(EntityId { id: 9, gen: 4 }).unwrap().name = "E";
    assert_eq!(entry.entity, Some(Entity { name: "E" }));
    assert_eq!(entry.gen, 4);
    let mut vacant = EntityEntry {
        gen: 4,
        entity: None,
    };
    assert!(vacant.get_mut(EntityId { id: 0, gen: 4 }).is_none());
}

#[test]
fn a_live_handle_survives_what_happens_elsewhere() {
    let mut el = EntityList::default();
    let a = el.add(Entity { name: "a" });
    let b = el.add(Entity { name: "b" });
    let c = el.add(Entity { name: "c" });
    el.remove(a);
    el.remove(c);
    let d = el.add(Entity { name: "d" });
    let e = el.add(Entity { name: "e" });
    let f = el.add(Entity { name: "f" });
    el.get_mut(d).unwrap().name = "D";
    el.remove(e);
    assert_eq!(el.get(b), Some(&Entity { name: "b" }));
    assert_eq!(el.get(f), Some(&Entity { name: "f" }));
    assert_eq!(f, EntityId { id: 3, gen: 0 });
}

#[test]
fn a_removed_handle_never_resolves_again() {
    let mut el = EntityList::default();
    let a = el.add(Entity { name: "a" });
    let _b = el.add(Entity { name: "b" });
    el.remove(a);
    assert_eq!(el.get(a), None);
    let mut latest = a;
    for _ in 0..5 {
        latest = el.add(Entity { name: "again" });
        assert_eq!(latest.id, a.id);
        assert!(latest.gen > a.gen);
        assert_eq!(el.get(a), None);
        assert!(el.get_mut(a).is_none());
        assert_eq!(el.get(latest), Some(&Entity { name: "again" }));
        el.remove(latest);
        assert_eq!(el.get(a), None);
        assert_eq!(el.get(latest), None);
    }
    assert_eq!(latest, EntityId { id: 0, gen: 5 });
}

#[test]
fn pair_access_is_symmetric() {
    let mut el = EntityList::default();
    let a = el.add(Entity { name: "a" });
    let b = el.add(Entity { name: "b" });
    let c = el.add(Entity { name: "c" });
    el.remove(b);
    {
        let (x, y) = el.get_pair_mut(a, c);
        x.unwrap().name = "first";
        y.unwrap().name = "second";
    }
    {
        let (y, x) = el.get_pair_mut(c, a);
        assert_eq!(x, Some(&mut Entity { name: "first" }));
        assert_eq!(y, Some(&mut Entity { name: "second" }));
    }
    // A handle that resolves to nothing leaves its place empty, on either side.
    assert_eq!(el.get_pair_mut(a, b), (Some(&mut Entity { name: "first" }), None));
    assert_eq!(el.get_pair_mut(b, a), (None, Some(&mut Entity { name: "first" })));
    assert_eq!(el.0.len(), 3);
}

#[test]
fn pair_access_out_of_range_is_empty() {
    let mut el = EntityList::default();
    let a = el.add(Entity { name: "a" });
    let far = EntityId { id: 7, gen: 0 };
    let farther = EntityId { id: 9, gen: 0 };
    assert_eq!(el.get_pair_mut(a, far), (Some(&mut Entity { name: "a" }), None));
    assert_eq!(el.get_pair_mut(far, a), (None, Some(&mut Entity { name: "a" })));
    assert_eq!(el.get_pair_mut(far, farther), (None, None));
    assert_eq!(el.get_pair_mut(far, far), (None, None));
    let next = EntityId { id: 1, gen: 0 };
    assert_eq!(el.get_pair_mut(a, next), (Some(&mut Entity { name: "a" }), None));
    let mut empty = EntityList::default();
    assert_eq!(empty.get_pair_mut(a, next), (None, None));
}

#[test]
fn pair_collision_serves_the_live_handle() {
    let mut el = EntityList::default();
    let old = el.add(Entity { name: "old" });
    el.remove(old);
    let new = el.add(Entity { name: "new" });
    assert_eq!(old.id, new.id);
    assert_eq!(el.get_pair_mut(new, old), (Some(&mut Entity { name: "new" }), None));
    assert_eq!(el.get_pair_mut(old, new), (None, Some(&mut Entity { name: "new" })));
    // The same handle twice is served once, in the first place.
    assert_eq!(el.get_pair_mut(new, new), (Some(&mut Entity { name: "new" }), None));
    // Two stale handles of one slot: neither is served.
    let older = EntityId { id: 0, gen: 7 };
    assert_eq!(el.get_pair_mut(old, older), (None, None));
    // A handle of the slot's generation is not served while the slot is vacant.
    el.remove(new);
    assert_eq!(el.get_pair_mut(new, old), (None, None));
}
