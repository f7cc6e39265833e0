use ecs::{AnyComponent, ComponentData, Ecs, Entity, Loadout, Store};

type Health = i32;
type HealthEcs = Ecs<ComponentData<Health>>;
type PairEcs = Ecs<(ComponentData<Health>, ComponentData<String>)>;

fn health(ecs: &HealthEcs, e: Entity) -> Option<Health> {
    ecs.store().get(e).copied()
}

#[test]
fn scenario_health_after_destroy() {
    let mut ecs = HealthEcs::new();
    let e1 = ecs.make();
    let e2 = ecs.make();
    let e3 = ecs.make();
    ecs.store_mut().insert(e1, 10);
    ecs.store_mut().insert(e2, 7);
    ecs.store_mut().insert(e3, 3);
    ecs.remove(e2);
    assert_eq!(health(&ecs, e1), Some(10));
    assert_eq!(health(&ecs, e3), Some(3));
    assert_eq!(health(&ecs, e2), None);
    let e4 = ecs.make();
    assert_eq!(e4.idx(), e2.idx());
    assert_ne!(e4.uid(), e2.uid());
    assert!(ecs.contains(e4));
    assert!(!ecs.contains(e2));
    assert_eq!(health(&ecs, e4), None);
}

#[test]
fn make_hands_out_distinct_handles() {
    let mut ecs = HealthEcs::new();
    let mut made = Vec::new();
    for _ in 0..50 {
        made.push(ecs.make());
    }
    for i in 0..made.len() {
        assert_ne!(made[i].uid(), 0);
        for j in (i + 1)..made.len() {
            assert_ne!(made[i].uid(), made[j].uid());
            assert_ne!(made[i].idx(), made[j].idx());
        }
    }
    assert_eq!(made[0].uid(), 1);
    assert_eq!(made[0].idx(), 0);
    assert_eq!(made[49].uid(), 50);
    assert_eq!(made[49].idx(), 49);
}

#[test]
fn uids_are_not_reused_across_cycles() {
    let mut ecs = HealthEcs::new();
    let mut uids = Vec::new();
    for _ in 0..10 {
        let a = ecs.make();
        let b = ecs.make();
        uids.push(a.uid());
        uids.push(b.uid());
        ecs.remove(a);
        ecs.remove(b);
    }
    for i in 0..uids.len() {
        for j in (i + 1)..uids.len() {
            assert!(uids[i] < uids[j]);
        }
    }
}

#[test]
fn insert_then_get_and_remove_then_get() {
    let mut c: ComponentData<Health> = ComponentData::new();
    let mut ecs = HealthEcs::new();
    let e = ecs.make();
    c.reserve_entity_space();
    c.insert(e, 42);
    assert!(c.contains(e));
    assert_eq!(c.get(e), Some(&42));
    c.insert(e, 43);
    assert_eq!(c.get(e), Some(&43));
    assert_eq!(c.iter().count(), 1);
    c.remove(e);
    assert!(!c.contains(e));
    assert_eq!(c.get(e), None);
    assert_eq!(c.iter().count(), 0);
}

#[test]
fn destroyed_handle_stays_stale_after_slot_reuse() {
    let mut ecs = PairEcs::new();
    let e = ecs.make();
    ecs.store_mut().0.insert(e, 5);
    ecs.store_mut().1.insert(e, "five".to_string());
    ecs.remove(e);
    let e2 = ecs.make();
    assert_eq!(e2.idx(), e.idx());
    assert_ne!(e2.uid(), e.uid());
    ecs.store_mut().0.insert(e2, 6);
    ecs.store_mut().1.insert(e2, "six".to_string());
    assert!(!ecs.contains(e));
    assert_eq!(ecs.store().0.get(e), None);
    assert_eq!(ecs.store().1.get(e), None);
    assert_eq!(ecs.store().0.get(e2), Some(&6));
    assert_eq!(ecs.store().1.get(e2).map(|s| s.as_str()), Some("six"));
}

#[test]
fn swap_remove_keeps_other_values() {
    let mut ecs = HealthEcs::new();
    let e1 = ecs.make();
    let e2 = ecs.make();
    let e3 = ecs.make();
    ecs.store_mut().insert(e1, 1);
    ecs.store_mut().insert(e2, 2);
    ecs.store_mut().insert(e3, 3);
    ecs.store_mut().remove(e2);
    assert_eq!(health(&ecs, e1), Some(1));
    assert_eq!(health(&ecs, e2), None);
    assert_eq!(health(&ecs, e3), Some(3));
    let values: Vec<Health> = ecs.store().iter().copied().collect();
    assert_eq!(values, vec![1, 3]);
    let owners: Vec<Entity> = ecs.store().ent_iter().copied().collect();
    assert_eq!(owners, vec![e1, e3]);
}

#[test]
fn removing_the_last_value_needs_no_fix_up() {
    let mut ecs = HealthEcs::new();
    let e1 = ecs.make();
    let e2 = ecs.make();
    ecs.store_mut().insert(e1, 1);
    ecs.store_mut().insert(e2, 2);
    ecs.store_mut().remove(e2);
    assert_eq!(health(&ecs, e1), Some(1));
    assert_eq!(health(&ecs, e2), None);
    ecs.store_mut().insert(e2, 9);
    assert_eq!(health(&ecs, e2), Some(9));
}

#[test]
fn freed_slots_are_reused_last_first() {
    let mut ecs = HealthEcs::new();
    let a = ecs.make();
    let b = ecs.make();
    let c = ecs.make();
    ecs.remove(a);
    ecs.remove(c);
    let r1 = ecs.make();
    let r2 = ecs.make();
    let r3 = ecs.make();
    assert_eq!(r1.idx(), c.idx());
    assert_eq!(r2.idx(), a.idx());
    assert_eq!(r3.idx(), 3);
    assert!(ecs.contains(b));
    assert_eq!(ecs.iter().count(), 4);
}

#[test]
fn removing_twice_frees_the_slot_once() {
    let mut ecs = HealthEcs::new();
    let a = ecs.make();
    ecs.remove(a);
    ecs.remove(a);
    let r1 = ecs.make();
    let r2 = ecs.make();
    assert_eq!(r1.idx(), a.idx());
    assert_ne!(r2.idx(), r1.idx());
}

#[test]
fn iter_lists_live_entities_in_packing_order() {
    let mut ecs = HealthEcs::new();
    let a = ecs.make();
    let b = ecs.make();
    let c = ecs.make();
    let all: Vec<Entity> = ecs.iter().copied().collect();
    assert_eq!(all, vec![a, b, c]);
    ecs.remove(a);
    let rest: Vec<Entity> = ecs.iter().copied().collect();
    assert_eq!(rest, vec![c, b]);
}

#[test]
fn get_mut_changes_one_value() {
    let mut ecs = HealthEcs::new();
    let a = ecs.make();
    let b = ecs.make();
    ecs.store_mut().insert(a, 1);
    ecs.store_mut().insert(b, 2);
    if let Some(v) = ecs.store_mut().get_mut(a) {
        *v += 10;
    }
    assert_eq!(health(&ecs, a), Some(11));
    assert_eq!(health(&ecs, b), Some(2));
    ecs.remove(b);
    assert!(ecs.store_mut().get_mut(b).is_none());
}

#[test]
fn iter_mut_writes_every_value() {
    let mut ecs = HealthEcs::new();
    let a = ecs.make();
    let b = ecs.make();
    ecs.store_mut().insert(a, 1);
    ecs.store_mut().insert(b, 2);
    for v in ecs.store_mut().iter_mut().iter_mut() {
        *v *= 3;
    }
    assert_eq!(health(&ecs, a), Some(3));
    assert_eq!(health(&ecs, b), Some(6));
}

#[test]
fn contains_is_false_for_a_reserved_empty_slot() {
    let mut ecs = HealthEcs::new();
    let a = ecs.make();
    let mut empty: ComponentData<Health> = ComponentData::new();
    empty.reserve_entity_space();
    assert!(!empty.contains(a));
    assert_eq!(empty.get(a), None);
    assert!(!ecs.store().contains(a));
}

#[test]
fn iter_counts_slots_less_free_slots() {
    let mut ecs = HealthEcs::new();
    let a = ecs.make();
    let _b = ecs.make();
    let c = ecs.make();
    ecs.remove(a);
    ecs.remove(c);
    assert_eq!(ecs.iter().count(), 1);
    let (_, next_idx, free, _, _) = ecs.into_parts();
    assert_eq!(next_idx as usize - free.len(), 1);
}

#[test]
fn loadout_get_captures_an_entity() {
    let mut ecs = PairEcs::new();
    let a = ecs.make();
    let b = ecs.make();
    ecs.apply_loadout(a, (Some(3), Some("three".to_string())));
    ecs.apply_loadout(b, (None, Some("bee".to_string())));
    let la = <(Option<Health>, Option<String>) as Loadout<_>>::get(ecs.store(), a);
    let lb = <(Option<Health>, Option<String>) as Loadout<_>>::get(ecs.store(), b);
    assert_eq!(la, (Some(3), Some("three".to_string())));
    assert_eq!(lb, (None, Some("bee".to_string())));
    let c = ecs.make();
    ecs.apply_loadout(c, la);
    assert_eq!(ecs.store().0.get(c), Some(&3));
    assert_eq!(ecs.store().1.get(c).map(|s| s.as_str()), Some("three"));
}

#[test]
fn remove_clears_every_container() {
    let mut ecs = PairEcs::new();
    let a = ecs.make();
    let b = ecs.make();
    ecs.store_mut().0.insert(a, 1);
    ecs.store_mut().1.insert(a, "a".to_string());
    ecs.store_mut().1.insert(b, "b".to_string());
    ecs.remove(a);
    assert!(!ecs.store().0.contains(a));
    assert!(!ecs.store().1.contains(a));
    assert_eq!(ecs.store().1.get(b).map(|s| s.as_str()), Some("b"));
}

#[test]
fn any_component_operations_reach_a_container() {
    let mut ecs = HealthEcs::new();
    let a = ecs.make();
    let mut c: ComponentData<Health> = ComponentData::new();
    AnyComponent::reserve_entity_space(&mut c);
    c.insert(a, 4);
    AnyComponent::remove(&mut c, a);
    assert!(!c.contains(a));
}

#[test]
fn store_new_and_for_each_operations() {
    let mut s: (ComponentData<Health>, ComponentData<Health>) = Store::new();
    s.for_each_reserve();
    let mut ecs = HealthEcs::new();
    let a = ecs.make();
    s.0.insert(a, 1);
    s.1.insert(a, 2);
    s.for_each_remove(a);
    assert!(!s.0.contains(a));
    assert!(!s.1.contains(a));
}

#[test]
fn loadout_attaches_present_values_only() {
    let mut ecs = PairEcs::new();
    let a = ecs.make();
    let b = ecs.make();
    ecs.store_mut().1.insert(a, "old".to_string());
    ecs.apply_loadout(a, (Some(5), None));
    ecs.apply_loadout(b, (None, Some("bee".to_string())));
    assert_eq!(ecs.store().0.get(a), Some(&5));
    assert_eq!(ecs.store().1.get(a).map(|s| s.as_str()), Some("old"));
    assert_eq!(ecs.store().0.get(b), None);
    assert_eq!(ecs.store().1.get(b).map(|s| s.as_str()), Some("bee"));
    ecs.apply_loadout(a, (Some(6), Some("new".to_string())));
    assert_eq!(ecs.store().0.get(a), Some(&6));
    assert_eq!(ecs.store().1.get(a).map(|s| s.as_str()), Some("new"));
    assert_eq!(ecs.store().0.iter().count(), 1);
}

#[test]
fn loadout_applies_to_a_single_container() {
    let mut c: ComponentData<Health> = ComponentData::new();
    c.reserve_entity_space();
    let mut ecs = HealthEcs::new();
    let a = ecs.make();
    Loadout::apply(Some(9), &mut c, a);
    assert_eq!(c.get(a), Some(&9));
    Loadout::apply(None, &mut c, a);
    assert_eq!(c.get(a), Some(&9));
}
