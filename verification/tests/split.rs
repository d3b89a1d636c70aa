use entity_list::{Entity, EntityDynIter, EntityList};

#[test]
fn slice_test() {
    let mut el = EntityList::default();
    let a = el.add(Entity { name: "a" });
    let b = el.add(Entity { name: "b" });
    let c = el.add(Entity { name: "c" });

    let dyn_iter = EntityDynIter::new_all(&mut el);
    // Test repeatability
    for _ in 0..2 {
        let mut iter = dyn_iter.dyn_iter_id().into_iter();
        assert_eq!(iter.next().map(|(id, e)| (id, e.name)), Some((a, "a")));
        assert_eq!(iter.next().map(|(id, e)| (id, e.name)), Some((b, "b")));
        assert_eq!(iter.next().map(|(id, e)| (id, e.name)), Some((c, "c")));
        assert_eq!(iter.next(), None);
    }
}

#[test]
fn slice_split() {
    let mut el = EntityList::default();
    let a = el.add(Entity { name: "a" });
    let b = el.add(Entity { name: "b" });
    let _c = el.add(Entity { name: "c" });
    let d = el.add(Entity { name: "d" });

    let (split_c, dyn_iter) = EntityDynIter::new_split(&mut el, 2).unwrap();
    assert_eq!(split_c.entity.as_ref().map(|e| e.name), Some("c"));
    // Test repeatability
    for _ in 0..2 {
        let mut iter = dyn_iter.dyn_iter_id().into_iter();
        assert_eq!(iter.next().map(|(id, e)| (id, e.name)), Some((a, "a")));
        assert_eq!(iter.next().map(|(id, e)| (id, e.name)), Some((b, "b")));
        assert_eq!(iter.next().map(|(id, e)| (id, e.name)), Some((d, "d")));
        assert_eq!(iter.next(), None);
    }
}

#[test]
fn slice_multi_split() {
    let mut el = EntityList::default();
    let a = el.add(Entity { name: "a" });
    let _b = el.add(Entity { name: "b" });
    let c = el.add(Entity { name: "c" });
    let _d = el.add(Entity { name: "d" });
    let e = el.add(Entity { name: "e" });

    let (split_b, mut dyn_iter) = EntityDynIter::new_split(&mut el, 1).unwrap();
    let split_d = dyn_iter.exclude(3).unwrap();
    assert_eq!(split_b.entity.as_ref().map(|e| e.name), Some("b"));
    assert_eq!(split_d.entity.as_ref().map(|e| e.name), Some("d"));
    // Test repeatability
    for _ in 0..2 {
        let mut iter = dyn_iter.dyn_iter_id().into_iter();
        assert_eq!(iter.next().map(|(id, e)| (id, e.name)), Some((a, "a")));
        assert_eq!(iter.next().map(|(id, e)| (id, e.name)), Some((c, "c")));
        assert_eq!(iter.next().map(|(id, e)| (id, e.name)), Some((e, "e")));
        assert_eq!(iter.next(), None);
    }
}

#[test]
fn exclude_id_returns_the_payload_and_hides_it() {
    let mut el = EntityList::default();
    let a = el.add(Entity { name: "a" });
    let b = el.add(Entity { name: "b" });
    let c = el.add(Entity { name: "c" });

    let mut dyn_iter = EntityDynIter::new_all(&mut el);
    let excluded = dyn_iter.exclude_id(b).unwrap();
    assert_eq!(excluded.name, "b");
    excluded.name = "B";
    let seen: Vec<_> = dyn_iter
        .dyn_iter_id()
        .into_iter()
        .map(|(id, e)| (id, e.name))
        .collect();
    assert_eq!(seen, vec![(a, "a"), (c, "c")]);
    // The same handle cannot be excluded twice.
    assert!(dyn_iter.exclude_id(b).is_none());
    assert_eq!(el.get(b), Some(&Entity { name: "B" }));
}

#[test]
fn fork_leaves_the_parent_whole() {
    let mut el = EntityList::default();
    let a = el.add(Entity { name: "a" });
    let b = el.add(Entity { name: "b" });
    let c = el.add(Entity { name: "c" });

    let mut parent = EntityDynIter::new_all(&mut el);
    {
        let (payload, fork) = parent.exclude_and_fork(b).unwrap();
        assert_eq!(payload.map(|e| e.name), Some("b"));
        let seen: Vec<_> = fork
            .dyn_iter_id()
            .into_iter()
            .map(|(id, e)| (id, e.name))
            .collect();
        assert_eq!(seen, vec![(a, "a"), (c, "c")]);
    }
    let seen: Vec<_> = parent
        .dyn_iter_id()
        .into_iter()
        .map(|(id, e)| (id, e.name))
        .collect();
    assert_eq!(seen, vec![(a, "a"), (b, "b"), (c, "c")]);
    assert_eq!(parent.exclude_id(b).map(|e| e.name), Some("b"));
}
