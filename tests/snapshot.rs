use ecs::{ComponentData, Ecs, Entity};

type HealthEcs = Ecs<ComponentData<i32>>;

fn rebuild(ecs: HealthEcs) -> Option<HealthEcs> {
    let (next_uid, next_idx, free, active, store) = ecs.into_parts();
    let (data, owners, records) = active.into_parts();
    let active = ComponentData::from_parts(data, owners, records)?;
    let (data, owners, records) = store.into_parts();
    let store = ComponentData::from_parts(data, owners, records)?;
    Ecs::from_parts(next_uid, next_idx, free, active, store)
}

#[test]
fn snapshot_round_trip_keeps_behaviour() {
    let mut ecs = HealthEcs::new();
    let a = ecs.make();
    let b = ecs.make();
    let c = ecs.make();
    ecs.store_mut().insert(a, 10);
    ecs.store_mut().insert(c, 30);
    ecs.remove(b);
    let mut copy = rebuild(ecs).expect("a well-formed system rebuilds");
    assert!(copy.contains(a));
    assert!(!copy.contains(b));
    assert!(copy.contains(c));
    assert_eq!(copy.store().get(a), Some(&10));
    assert_eq!(copy.store().get(b), None);
    assert_eq!(copy.store().get(c), Some(&30));
    let d = copy.make();
    assert_eq!(d.idx(), b.idx());
    assert_eq!(d.uid(), 4);
    let e = copy.make();
    assert_eq!(e.idx(), 3);
    assert_eq!(e.uid(), 5);
}

#[test]
fn container_parts_round_trip() {
    let mut ecs = HealthEcs::new();
    let a = ecs.make();
    let b = ecs.make();
    ecs.store_mut().insert(a, 1);
    ecs.store_mut().insert(b, 2);
    let (_, _, _, _, store) = ecs.into_parts();
    let (data, owners, records) = store.into_parts();
    assert_eq!(data, vec![1, 2]);
    assert_eq!(owners, vec![a, b]);
    assert_eq!(records, vec![(a.uid(), 0), (b.uid(), 1)]);
    let back = ComponentData::from_parts(data, owners, records).expect("valid parts");
    assert_eq!(back.get(a), Some(&1));
    assert_eq!(back.get(b), Some(&2));
}

#[test]
fn inconsistent_container_parts_are_refused() {
    let mut ecs = HealthEcs::new();
    let a = ecs.make();
    ecs.store_mut().insert(a, 1);
    let (_, _, _, _, store) = ecs.into_parts();
    let (data, owners, records) = store.into_parts();
    assert!(ComponentData::from_parts(data.clone(), owners.clone(), vec![(a.uid(), 1)]).is_none());
    assert!(ComponentData::from_parts(data.clone(), Vec::<Entity>::new(), records.clone()).is_none());
    assert!(ComponentData::from_parts(data, owners, vec![(0, 0)]).is_none());
}

#[test]
fn inconsistent_system_parts_are_refused() {
    let mut ecs = HealthEcs::new();
    let a = ecs.make();
    let b = ecs.make();
    ecs.remove(b);
    let (next_uid, next_idx, free, active, store) = ecs.into_parts();
    let (ad, ao, ar) = active.into_parts();
    let (sd, so, sr) = store.into_parts();
    let mk = |free: Vec<u32>, next_uid: u32| {
        Ecs::from_parts(
            next_uid,
            next_idx,
            free,
            ComponentData::from_parts(ad.clone(), ao.clone(), ar.clone()).unwrap(),
            ComponentData::<i32>::from_parts(sd.clone(), so.clone(), sr.clone()).unwrap(),
        )
    };
    assert!(mk(free.clone(), next_uid).is_some());
    // a free slot that a live entity occupies
    assert!(mk(vec![a.idx()], next_uid).is_none());
    // a free slot listed twice
    assert!(mk(vec![b.idx(), b.idx()], next_uid).is_none());
    // a free slot beyond the slot count
    assert!(mk(vec![7], next_uid).is_none());
    // a next identity that a live entity already has
    assert!(mk(free.clone(), a.uid()).is_none());
    assert!(mk(free, 0).is_none());
}

#[test]
fn slot_records_are_empty_after_reserve_and_remove() {
    let mut ecs = HealthEcs::new();
    let a = ecs.make();
    let b = ecs.make();
    let c = ecs.make();
    ecs.store_mut().insert(a, 1);
    ecs.store_mut().insert(b, 2);
    ecs.store_mut().insert(c, 3);
    ecs.store_mut().remove(a);
    let (_, _, _, _, store) = ecs.into_parts();
    let (data, owners, records) = store.into_parts();
    assert_eq!(data, vec![3, 2]);
    assert_eq!(owners, vec![c, b]);
    assert_eq!(records, vec![(0, 0), (b.uid(), 1), (c.uid(), 0)]);
    let fresh: ComponentData<i32> = {
        let mut f = ComponentData::new();
        f.reserve_entity_space();
        f
    };
    assert_eq!(fresh.into_parts().2, vec![(0, 0)]);
}

#[test]
fn empty_record_with_a_position_is_refused() {
    assert!(ComponentData::<i32>::from_parts(vec![], vec![], vec![(0, 7)]).is_none());
    assert!(ComponentData::<i32>::from_parts(vec![], vec![], vec![(0, 0)]).is_some());
}

#[test]
fn snapshot_with_shared_identity_is_refused() {
    let owners = vec![Entity::from_parts(1, 0), Entity::from_parts(1, 1)];
    let active = ComponentData::from_parts(vec![true, true], owners, vec![(1, 0), (1, 1)]).unwrap();
    let store = ComponentData::<i32>::from_parts(vec![], vec![], vec![(0, 0), (0, 0)]).unwrap();
    assert!(Ecs::from_parts(2, 2, vec![], active, store).is_none());
}

#[test]
fn snapshot_with_a_leaked_slot_is_refused() {
    let mut ecs = HealthEcs::new();
    let _a = ecs.make();
    let b = ecs.make();
    ecs.remove(b);
    let (next_uid, next_idx, free, active, store) = ecs.into_parts();
    assert_eq!(free, vec![b.idx()]);
    assert!(Ecs::from_parts(next_uid, next_idx, vec![], active, store).is_none());
}
