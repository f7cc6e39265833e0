use vstd::prelude::*;

use crate::component::ComponentData;
use crate::entity::Entity;

verus! {

/// Operations that every component container supports, whatever the type of
/// its values.
pub trait AnyComponent {
    /// Number of slots reserved in the container.
    spec fn slot_count(&self) -> nat;

    /// The container's internal records are consistent.
    spec fn well_formed(&self) -> bool;

    /// The container holds a value for `e`.
    spec fn holds(&self, e: Entity) -> bool;

    /// Remove an entity's component.
    fn remove(&mut self, e: Entity)
        requires
            old(self).well_formed(),
            (e.idx() as int) < old(self).slot_count(),
        ensures
            final(self).well_formed(),
            final(self).slot_count() == old(self).slot_count(),
            !final(self).holds(e),
            forall|x: Entity| x != e ==> final(self).holds(x) == old(self).holds(x),
    ;

    /// Increment space for entities by one.
    fn reserve_entity_space(&mut self)
        requires
            old(self).well_formed(),
            old(self).slot_count() < u32::MAX,
        ensures
            final(self).well_formed(),
            final(self).slot_count() == old(self).slot_count() + 1,
            forall|x: Entity| final(self).holds(x) == old(self).holds(x),
    ;
}

impl<C> AnyComponent for ComponentData<C> {
    open spec fn slot_count(&self) -> nat {
        self.slots()
    }

    open spec fn well_formed(&self) -> bool {
        self.wf()
    }

    open spec fn holds(&self, e: Entity) -> bool {
        self.contents().contains_key(e)
    }

    fn remove(&mut self, e: Entity) {
        ComponentData::remove(self, e);
    }

    fn reserve_entity_space(&mut self) {
        ComponentData::reserve_entity_space(self);
    }
}

/// The bundle of all component containers of one configuration, which the
/// entity store keeps in step with the entity lifecycle.
///
/// A single container is a bundle, and a pair of bundles is a bundle whose
/// operations visit the first member and then the second; nesting pairs
/// gives a registry of any number of component types.
pub trait Store: Sized {
    /// Number of slots reserved in every container of the bundle.
    spec fn store_slots(&self) -> nat;

    /// Every container is consistent, and all have the same number of slots.
    spec fn store_wf(&self) -> bool;

    /// Some container of the bundle holds a value for `e`.
    spec fn store_holds(&self, e: Entity) -> bool;

    /// Every container of `self` is the same container of `before` after
    /// the value of `e`, if any, left it.
    spec fn store_removed(&self, before: &Self, e: Entity) -> bool;

    /// Every container of `self` is the same container of `before` with one
    /// more slot, whose record is empty, and the same values in the same
    /// packed order.
    spec fn store_grown(&self, before: &Self) -> bool;

    /// A bundle of empty containers with no slots.
    fn new() -> (r: Self)
        ensures
            r.store_wf(),
            r.store_slots() == 0,
            forall|x: Entity| !r.store_holds(x),
    ;

    /// Reserve one more slot in every container.
    fn for_each_reserve(&mut self)
        requires
            old(self).store_wf(),
            old(self).store_slots() < u32::MAX,
        ensures
            final(self).store_wf(),
            final(self).store_slots() == old(self).store_slots() + 1,
            forall|x: Entity| final(self).store_holds(x) == old(self).store_holds(x),
            final(self).store_grown(old(self)),
    ;

    /// Remove the component of `e` from every container.
    fn for_each_remove(&mut self, e: Entity)
        requires
            old(self).store_wf(),
            (e.idx() as int) < old(self).store_slots(),
        ensures
            final(self).store_wf(),
            final(self).store_slots() == old(self).store_slots(),
            !final(self).store_holds(e),
            forall|x: Entity| x != e ==> final(self).store_holds(x) == old(self).store_holds(x),
            final(self).store_removed(old(self), e),
    ;

    /// Check that the bundle is consistent, has `slots` slots in every
    /// container, and holds values only for entities that `active` holds.
    fn check(&self, slots: usize, active: &ComponentData<bool>) -> (r: bool)
        requires
            active.slots() == slots,
        ensures
            r == (self.store_wf() && self.store_slots() == slots && forall|x: Entity|
                #[trigger] self.store_holds(x) ==> active.contents().contains_key(x)),
    ;
}

impl<C> Store for ComponentData<C> {
    open spec fn store_slots(&self) -> nat {
        self.slots()
    }

    open spec fn store_wf(&self) -> bool {
        self.wf()
    }

    open spec fn store_holds(&self, e: Entity) -> bool {
        self.contents().contains_key(e)
    }

    open spec fn store_removed(&self, before: &Self, e: Entity) -> bool {
        self.removal_of(before, e)
    }

    open spec fn store_grown(&self, before: &Self) -> bool {
        self.growth_of(before)
    }

    fn new() -> (r: Self) {
        ComponentData::new()
    }

    fn for_each_reserve(&mut self) {
        ComponentData::reserve_entity_space(self);
    }

    fn for_each_remove(&mut self, e: Entity) {
        ComponentData::remove(self, e);
    }

    fn check(&self, slots: usize, active: &ComponentData<bool>) -> (r: bool) {
        if !self.is_valid() || self.entity_idx_to_data.len() != slots {
            return false;
        }
        let r = self.owners_held_by(active);
        proof {
            if r {
                assert forall|x: Entity| #[trigger] self.store_holds(x) implies active.contents().contains_key(x) by {
                    assert(self.contents().contains_key(x));
                }
            } else {
                let x = choose|x: Entity| #[trigger] self.contents().contains_key(x) && !active.contents().contains_key(x);
                assert(self.store_holds(x));
            }
        }
        r
    }
}

impl<A: Store, B: Store> Store for (A, B) {
    open spec fn store_slots(&self) -> nat {
        self.0.store_slots()
    }

    open spec fn store_wf(&self) -> bool {
        &&& self.0.store_wf()
        &&& self.1.store_wf()
        &&& self.0.store_slots() == self.1.store_slots()
    }

    open spec fn store_holds(&self, e: Entity) -> bool {
        self.0.store_holds(e) || self.1.store_holds(e)
    }

    open spec fn store_removed(&self, before: &Self, e: Entity) -> bool {
        self.0.store_removed(&before.0, e) && self.1.store_removed(&before.1, e)
    }

    open spec fn store_grown(&self, before: &Self) -> bool {
        self.0.store_grown(&before.0) && self.1.store_grown(&before.1)
    }

    fn new() -> (r: Self) {
        (A::new(), B::new())
    }

    fn for_each_reserve(&mut self) {
        self.0.for_each_reserve();
        self.1.for_each_reserve();
    }

    fn for_each_remove(&mut self, e: Entity) {
        self.0.for_each_remove(e);
        self.1.for_each_remove(e);
    }

    fn check(&self, slots: usize, active: &ComponentData<bool>) -> (r: bool) {
        let r0 = self.0.check(slots, active);
        let r1 = self.1.check(slots, active);
        proof {
            if r0 && r1 {
                assert forall|x: Entity| #[trigger] self.store_holds(x) implies active.contents().contains_key(x) by {
                    if self.0.store_holds(x) {
                    } else {
                        assert(self.1.store_holds(x));
                    }
                }
            } else if !r0 && self.0.store_wf() && self.0.store_slots() == slots {
                let x = choose|x: Entity| #[trigger] self.0.store_holds(x) && !active.contents().contains_key(x);
                assert(self.store_holds(x));
            } else if !r1 && self.1.store_wf() && self.1.store_slots() == slots {
                let x = choose|x: Entity| #[trigger] self.1.store_holds(x) && !active.contents().contains_key(x);
                assert(self.store_holds(x));
            }
        }
        r0 && r1
    }
}

/// A sparse set of component values for the containers of the bundle `ST`:
/// for each container, a value or nothing.
pub trait Loadout<ST: Store>: Sized {
    /// `after` is `before` with every value of the loadout attached to `e`.
    spec fn applied(&self, before: ST, after: ST, e: Entity) -> bool;

    /// The loadout holds a clone of each value that `e` has in `store`, and
    /// nothing for the containers where `e` has none.
    spec fn captures(&self, store: ST, e: Entity) -> bool;

    /// The loadout of the values that `e` has in `store`.
    fn get(store: &ST, e: Entity) -> (r: Self)
        requires
            store.store_wf(),
            (e.idx() as int) < store.store_slots(),
        ensures
            r.captures(*store, e),
    ;

    /// Attach every value of the loadout to `e`, replacing what `e` had in
    /// those containers, and leave the other containers alone.
    fn apply(self, store: &mut ST, e: Entity)
        requires
            old(store).store_wf(),
            e.uid() != 0,
            (e.idx() as int) < old(store).store_slots(),
            forall|x: Entity| #[trigger] old(store).store_holds(x) && x.idx() == e.idx() ==> x == e,
        ensures
            final(store).store_wf(),
            final(store).store_slots() == old(store).store_slots(),
            forall|x: Entity| x != e ==> #[trigger] final(store).store_holds(x) == old(store).store_holds(x),
            self.applied(*old(store), *final(store), e),
    ;
}

impl<C: Clone> Loadout<ComponentData<C>> for Option<C> {
    open spec fn applied(&self, before: ComponentData<C>, after: ComponentData<C>, e: Entity) -> bool {
        match self {
            Some(v) => after.contents() == before.contents().insert(e, *v),
            None => after.contents() == before.contents(),
        }
    }

    open spec fn captures(&self, store: ComponentData<C>, e: Entity) -> bool {
        match self {
            Some(v) => store.contents().contains_key(e) && cloned(store.contents()[e], *v),
            None => !store.contents().contains_key(e),
        }
    }

    fn get(store: &ComponentData<C>, e: Entity) -> (r: Self) {
        match store.get(e) {
            Some(v) => Some(v.clone()),
            None => None,
        }
    }

    fn apply(self, store: &mut ComponentData<C>, e: Entity) {
        match self {
            Some(v) => {
                assert forall|x: Entity| #[trigger] store.contents().contains_key(x) && x.idx == e.idx implies x == e by {
                    assert(store.store_holds(x));
                }
                store.insert(e, v);
            },
            None => {},
        }
    }
}

impl<A: Store, B: Store, LA: Loadout<A>, LB: Loadout<B>> Loadout<(A, B)> for (LA, LB) {
    open spec fn applied(&self, before: (A, B), after: (A, B), e: Entity) -> bool {
        self.0.applied(before.0, after.0, e) && self.1.applied(before.1, after.1, e)
    }

    open spec fn captures(&self, store: (A, B), e: Entity) -> bool {
        self.0.captures(store.0, e) && self.1.captures(store.1, e)
    }

    fn get(store: &(A, B), e: Entity) -> (r: Self) {
        (LA::get(&store.0, e), LB::get(&store.1, e))
    }

    fn apply(self, store: &mut (A, B), e: Entity) {
        let (la, lb) = self;
        assert forall|x: Entity| #[trigger] store.0.store_holds(x) && x.idx() == e.idx() implies x == e by {
            assert(store.store_holds(x));
        }
        assert forall|x: Entity| #[trigger] store.1.store_holds(x) && x.idx() == e.idx() implies x == e by {
            assert(store.store_holds(x));
        }
        la.apply(&mut store.0, e);
        lb.apply(&mut store.1, e);
    }
}

} // verus!
