use vstd::prelude::*;
use vstd::set_lib::{lemma_int_range, lemma_set_disjoint_lens, set_int_range};
use vstd::std_specs::iter::IteratorSpec;

use crate::component::ComponentData;
use crate::entity::Entity;
use crate::registry::{Loadout, Store};

verus! {

/// Generic entity component system container.
///
/// `ST` is the bundle of component containers of one configuration. The
/// system hands out entities, keeps one slot of every container per slot in
/// use, and clears an entity's components when the entity is removed.
pub struct Ecs<ST> {
    pub(crate) next_uid: u32,
    pub(crate) next_idx: u32,
    pub(crate) free_indices: Vec<u32>,
    pub(crate) active: ComponentData<bool>,
    pub(crate) store: ST,
}

impl<ST: Store> Ecs<ST> {
    /// The identity the next new entity gets.
    pub open(crate) spec fn spec_next_uid(&self) -> u32 {
        self.next_uid
    }

    /// The slot count: slots below it have been handed out at least once.
    pub open(crate) spec fn spec_next_idx(&self) -> u32 {
        self.next_idx
    }

    /// Slots of removed entities, waiting to be handed out again; the last
    /// one is handed out first.
    pub open(crate) spec fn free_slots(&self) -> Seq<u32> {
        self.free_indices@
    }

    /// The entities that are alive.
    pub open(crate) spec fn live(&self) -> Set<Entity> {
        self.active.contents().dom()
    }

    /// The live entities in the order that `iter` lists them.
    pub open(crate) spec fn live_order(&self) -> Seq<Entity> {
        self.active.owners()
    }

    /// The bundle of component containers.
    pub open(crate) spec fn registry(&self) -> ST {
        self.store
    }

    /// The system is well formed: the liveness container and every
    /// component container are consistent and have one slot per slot handed
    /// out, components belong to live entities only, identities of live
    /// entities are distinct and lie behind the next one, the free slots are
    /// distinct slots handed out earlier that no live entity occupies, and
    /// every slot handed out is free or occupied by a live entity.
    pub open(crate) spec fn wf(&self) -> bool {
        Self::parts_ok(self.next_uid, self.next_idx, self.free_indices@, self.active, self.store)
    }

    /// The parts of a well-formed system.
    pub open spec fn parts_ok(
        next_uid: u32,
        next_idx: u32,
        free: Seq<u32>,
        active: ComponentData<bool>,
        store: ST,
    ) -> bool {
        &&& active.wf()
        &&& active.slots() == next_idx as nat
        &&& store.store_wf()
        &&& store.store_slots() == next_idx as nat
        &&& 1 <= next_uid
        &&& next_idx < next_uid
        &&& forall|x: Entity| #[trigger] active.contents().dom().contains(x) ==> x.uid() < next_uid
        &&& forall|x: Entity| #[trigger] store.store_holds(x) ==> active.contents().dom().contains(x)
        &&& free.no_duplicates()
        &&& forall|i: int|
            0 <= i < free.len() ==> #[trigger] free[i] < next_idx
        &&& forall|i: int, x: Entity|
            0 <= i < free.len() && #[trigger] active.contents().dom().contains(x)
                ==> #[trigger] free[i] != x.idx()
        &&& forall|x: Entity, y: Entity|
            #![trigger active.contents().dom().contains(x), active.contents().dom().contains(y)]
            active.contents().dom().contains(x) && active.contents().dom().contains(y) && x.uid() == y.uid()
                ==> x == y
        &&& forall|s: int|
            #![trigger active.records()[s]]
            0 <= s < next_idx ==> free.contains(s as u32) || active.records()[s].0 != 0
    }

    /// The liveness container.
    pub open(crate) spec fn active_part(&self) -> ComponentData<bool> {
        self.active
    }

    /// One call of `make` took the system from `pre` to `post` and
    /// returned `r`.
    pub open spec fn made_step(pre: Self, post: Self, r: Entity) -> bool {
        &&& r.uid() == pre.spec_next_uid()
        &&& post.spec_next_uid() == pre.spec_next_uid() + 1
        &&& post.live() == pre.live().insert(r)
        &&& post.live_order() == pre.live_order().push(r)
        &&& forall|x: Entity| #[trigger] pre.live().contains(x) ==> x.uid() < r.uid() && x.idx() != r.idx()
        &&& pre.free_slots().len() > 0 ==> {
            &&& r.idx() == pre.free_slots().last()
            &&& post.free_slots() == pre.free_slots().drop_last()
            &&& post.spec_next_idx() == pre.spec_next_idx()
            &&& post.registry() == pre.registry()
        }
        &&& pre.free_slots().len() == 0 ==> {
            &&& r.idx() == pre.spec_next_idx()
            &&& post.free_slots() == pre.free_slots()
            &&& post.spec_next_idx() == pre.spec_next_idx() + 1
            &&& post.registry().store_grown(&pre.registry())
        }
        &&& forall|x: Entity| #[trigger] post.registry().store_holds(x) == pre.registry().store_holds(x)
    }

    /// One call of `remove(e)` took the system from `pre` to `post`.
    pub open spec fn removed_step(pre: Self, post: Self, e: Entity) -> bool {
        &&& pre.live().contains(e) ==> {
            &&& post.live() == pre.live().remove(e)
            &&& post.free_slots() == pre.free_slots().push(e.idx())
            &&& post.spec_next_uid() == pre.spec_next_uid()
            &&& post.spec_next_idx() == pre.spec_next_idx()
            &&& post.registry().store_removed(&pre.registry(), e)
            &&& !post.registry().store_holds(e)
            &&& forall|x: Entity| x != e ==> #[trigger] post.registry().store_holds(x)
                == pre.registry().store_holds(x)
        }
        &&& !pre.live().contains(e) ==> post == pre
    }

    /// `iter` lists every live entity exactly once.
    pub proof fn lemma_live_order_lists_live(&self)
        requires
            self.wf(),
        ensures
            self.live_order().no_duplicates(),
            forall|x: Entity| #[trigger] self.live().contains(x) <==> self.live_order().contains(x),
    {
        self.active.lemma_layout();
        assert forall|x: Entity| #[trigger] self.live().contains(x) <==> self.live_order().contains(x) by {
            if self.live().contains(x) {
                assert(self.live_order()[self.active.data_index(x)] == x);
            }
            if self.live_order().contains(x) {
                let i = choose|i: int| 0 <= i < self.live_order().len() && self.live_order()[i] == x;
                assert(self.active.contents().contains_key(self.active.owners()[i]));
            }
        }
        assert forall|i: int, j: int|
            0 <= i < self.live_order().len() && 0 <= j < self.live_order().len() && i != j
                implies self.live_order()[i] != self.live_order()[j] by {
            assert(self.active.entities@[i] == self.active.entities@[i]);
            assert(self.active.entities@[j] == self.active.entities@[j]);
        }
    }

    /// Every slot handed out is free or occupied by exactly one live entity,
    /// so `iter` lists as many entities as the slot count less the free
    /// slots.
    pub proof fn lemma_live_count(&self)
        requires
            self.wf(),
        ensures
            self.live_order().len() + self.free_slots().len() == self.spec_next_idx(),
    {
        let act = self.active;
        let free = self.free_indices@.map_values(|f: u32| f as int);
        let held = act.entities@.map_values(|x: Entity| x.idx as int);
        assert(free.no_duplicates()) by {
            assert forall|i: int, j: int| 0 <= i < free.len() && 0 <= j < free.len() && i != j implies free[i]
                != free[j] by {
                assert(self.free_indices@[i] != self.free_indices@[j]);
            }
        }
        assert(held.no_duplicates()) by {
            assert forall|i: int, j: int| 0 <= i < held.len() && 0 <= j < held.len() && i != j implies held[i]
                != held[j] by {
                assert(act.entities@[i] == act.entities@[i]);
                assert(act.entities@[j] == act.entities@[j]);
            }
        }
        free.unique_seq_to_set();
        held.unique_seq_to_set();
        let range = set_int_range(0, self.next_idx as int);
        lemma_int_range(0, self.next_idx as int);
        act.lemma_layout();
        assert(free.to_set().disjoint(held.to_set())) by {
            assert forall|k: int| free.to_set().contains(k) implies !held.to_set().contains(k) by {
                let i = choose|i: int| 0 <= i < free.len() && free[i] == k;
                if held.to_set().contains(k) {
                    let j = choose|j: int| 0 <= j < held.len() && held[j] == k;
                    let x = act.entities@[j];
                    assert(act.contents().dom().contains(act.owners()[j]));
                    assert(self.free_indices@[i] != x.idx);
                }
            }
        }
        assert forall|k: int| (free.to_set() + held.to_set()).contains(k) <==> range.contains(k) by {
            if range.contains(k) {
                assert(self.active.records()[k] == self.active.records()[k]);
                if self.free_indices@.contains(k as u32) {
                    let i = choose|i: int| 0 <= i < self.free_indices@.len() && self.free_indices@[i] == k as u32;
                    assert(free[i] == k);
                } else {
                    assert(act.entity_idx_to_data@[k].uid != 0);
                    let p = act.entity_idx_to_data@[k].data_idx as int;
                    assert(held[p] == k);
                }
            }
            if free.to_set().contains(k) {
                let i = choose|i: int| 0 <= i < free.len() && free[i] == k;
                assert(self.free_indices@[i] < self.next_idx);
            }
            if held.to_set().contains(k) {
                let j = choose|j: int| 0 <= j < held.len() && held[j] == k;
                assert(act.entities@[j] == act.entities@[j]);
            }
        }
        assert(free.to_set() + held.to_set() =~= range);
        lemma_set_disjoint_lens(free.to_set(), held.to_set());
    }

    /// Live entities have distinct identities.
    pub proof fn lemma_live_uids_distinct(&self, x: Entity, y: Entity)
        requires
            self.wf(),
            self.live().contains(x),
            self.live().contains(y),
            x.uid() == y.uid(),
        ensures
            x == y,
    {
    }

    /// Construct a new entity component system.
    pub fn new() -> (r: Ecs<ST>)
        ensures
            r.wf(),
            r.live() == Set::<Entity>::empty(),
            r.live_order() == Seq::<Entity>::empty(),
            r.spec_next_uid() == 1,
            r.spec_next_idx() == 0,
            r.free_slots() == Seq::<u32>::empty(),
    {
        let r = Ecs {
            next_uid: 1,
            next_idx: 0,
            free_indices: Vec::new(),
            active: ComponentData::new(),
            store: ST::new(),
        };
        assert(r.live() =~= Set::<Entity>::empty());
        r
    }

    /// Return whether the system contains an entity. The slot of `e` must
    /// have been handed out by this system: a handle of another store is a
    /// misuse.
    pub fn contains(&self, e: Entity) -> (r: bool)
        requires
            self.wf(),
            e.idx() < self.spec_next_idx(),
        ensures
            r == self.live().contains(e),
    {
        self.active.contains(e)
    }

    /// Iterate through all the active entities.
    pub fn iter(&self) -> (r: std::slice::Iter<'_, Entity>)
        ensures
            r.remaining() == self.live_order().as_ref(),
    {
        self.active.ent_iter()
    }

    /// The bundle of component containers.
    pub fn store(&self) -> (r: &ST)
        ensures
            *r == self.registry(),
    {
        &self.store
    }

    /// The bundle of component containers, open to writes. The system stays
    /// well formed when the writes keep every container consistent, keep the
    /// slot count, and attach values to live entities only.
    pub fn store_mut(&mut self) -> (r: &mut ST)
        ensures
            *r == old(self).registry(),
            final(self).registry() == *final(r),
            final(self).live() == old(self).live(),
            final(self).live_order() == old(self).live_order(),
            final(self).free_slots() == old(self).free_slots(),
            final(self).spec_next_uid() == old(self).spec_next_uid(),
            final(self).spec_next_idx() == old(self).spec_next_idx(),
            old(self).wf() && final(r).store_wf() && final(r).store_slots() == old(self).registry().store_slots()
                && (forall|x: Entity| #[trigger] final(r).store_holds(x) ==> old(self).live().contains(x))
                ==> final(self).wf(),
    {
        &mut self.store
    }

    /// Create a new empty entity.
    ///
    /// The entity gets the next identity, and the slot last freed by `remove`
    /// when there is one; otherwise a fresh slot, which every container
    /// reserves.
    pub fn make(&mut self) -> (r: Entity)
        requires
            old(self).wf(),
            old(self).spec_next_uid() < u32::MAX,
        ensures
            final(self).wf(),
            Self::made_step(*old(self), *final(self), r),
    {
        let uid = self.next_uid;
        self.next_uid = self.next_uid + 1;
        let idx = match self.free_indices.pop() {
            Some(idx) => idx,
            None => {
                self.next_idx = self.next_idx + 1;
                self.store.for_each_reserve();
                self.active.reserve_entity_space();
                self.next_idx - 1
            },
        };
        let ret = Entity::from_parts(uid, idx);
        proof {
            let o = *old(self);
            if o.free_indices@.len() > 0 {
                assert(self.free_indices@ =~= o.free_indices@.drop_last());
                assert forall|x: Entity| #[trigger] self.active.contents().contains_key(x) && x.idx == idx
                    implies x == ret by {
                    assert(o.live().contains(x));
                    assert(o.free_indices@[o.free_indices@.len() - 1] != x.idx);
                }
            } else {
                assert forall|x: Entity| #[trigger] self.active.contents().contains_key(x) && x.idx == idx
                    implies x == ret by {
                    assert(o.live().contains(x));
                }
            }
        }
        self.active.insert(ret, true);
        proof {
            let o = *old(self);
            assert(self.live() =~= o.live().insert(ret));
            assert forall|x: Entity| #[trigger] o.live().contains(x) implies x.uid < ret.uid && x.idx != ret.idx by {
                if o.free_indices@.len() > 0 {
                    assert(o.free_indices@[o.free_indices@.len() - 1] != x.idx);
                }
            }
            assert forall|i: int, x: Entity|
                0 <= i < self.free_indices@.len() && #[trigger] self.live().contains(x)
                    implies #[trigger] self.free_indices@[i] != x.idx by {
                if x != ret {
                    assert(o.live().contains(x));
                    assert(o.free_indices@[i] != x.idx);
                } else {
                    assert(o.free_indices@[i] == self.free_indices@[i]);
                    assert(o.free_indices@[o.free_indices@.len() - 1] == idx);
                }
            }
            assert forall|x: Entity, y: Entity|
                #![trigger self.live().contains(x), self.live().contains(y)]
                self.live().contains(x) && self.live().contains(y) && x.uid() == y.uid() implies x == y by {
                if x != ret {
                    assert(o.live().contains(x));
                }
                if y != ret {
                    assert(o.live().contains(y));
                }
            }
            assert forall|t: int|
                #![trigger self.active.records()[t]]
                0 <= t < self.next_idx implies self.free_indices@.contains(t as u32) || self.active.records()[t].0 != 0 by {
                if t != idx as int {
                    assert(t < o.next_idx);
                    assert(self.active.records()[t] == o.active.records()[t]);
                    if o.free_indices@.contains(t as u32) {
                        let j = choose|j: int| 0 <= j < o.free_indices@.len() && o.free_indices@[j] == t as u32;
                        if o.free_indices@.len() > 0 {
                            assert(j != o.free_indices@.len() - 1);
                            assert(self.free_indices@[j] == t as u32);
                        }
                    }
                }
            }
        }
        ret
    }

    /// Remove an entity from the system and clear its components.
    ///
    /// The entity's slot goes to the end of the free slots. An entity that
    /// is not alive is left alone, so removing an entity twice frees its slot
    /// once.
    pub fn remove(&mut self, e: Entity)
        requires
            old(self).wf(),
            e.idx() < old(self).spec_next_idx(),
        ensures
            final(self).wf(),
            Self::removed_step(*old(self), *final(self), e),
    {
        if self.active.contains(e) {
            self.free_indices.push(e.idx);
            self.active.remove(e);
            self.store.for_each_remove(e);
            proof {
                let o = *old(self);
                assert(self.live() =~= o.live().remove(e));
                assert forall|i: int, x: Entity|
                    0 <= i < self.free_indices@.len() && #[trigger] self.live().contains(x)
                        implies #[trigger] self.free_indices@[i] != x.idx by {
                    assert(o.live().contains(x));
                    if i < o.free_indices@.len() {
                        assert(o.free_indices@[i] != x.idx);
                    } else {
                        assert(o.active.entity_idx_to_data@[x.idx as int].uid == x.uid);
                    }
                }
                assert forall|i: int, j: int|
                    0 <= i < self.free_indices@.len() && 0 <= j < self.free_indices@.len() && i != j
                        implies self.free_indices@[i] != self.free_indices@[j] by {
                    if i == o.free_indices@.len() {
                        assert(o.free_indices@[j] != e.idx);
                    } else if j == o.free_indices@.len() {
                        assert(o.free_indices@[i] != e.idx);
                    }
                }
                assert forall|x: Entity, y: Entity|
                    #![trigger self.live().contains(x), self.live().contains(y)]
                    self.live().contains(x) && self.live().contains(y) && x.uid() == y.uid() implies x == y by {
                    assert(o.live().contains(x));
                    assert(o.live().contains(y));
                }
                assert forall|t: int|
                    #![trigger self.active.records()[t]]
                    0 <= t < self.next_idx implies self.free_indices@.contains(t as u32) || self.active.records()[t].0
                        != 0 by {
                    let n = self.free_indices@.len() - 1;
                    if t == e.idx as int {
                        assert(self.free_indices@[n] == e.idx);
                    } else if o.free_indices@.contains(t as u32) {
                        let j = choose|j: int| 0 <= j < o.free_indices@.len() && o.free_indices@[j] == t as u32;
                        assert(self.free_indices@[j] == t as u32);
                    } else {
                        assert(o.active.records()[t].0 != 0);
                        let last = o.active.owners().last();
                        assert(last == o.active.entities@[o.active.entities@.len() - 1]);
                        assert(last.uid != 0);
                    }
                }
            }
        }
    }


    /// Take the system apart into the next identity, the slot count, the
    /// free slots, the liveness container and the component bundle.
    pub fn into_parts(self) -> (r: (u32, u32, Vec<u32>, ComponentData<bool>, ST))
        ensures
            r.0 == self.spec_next_uid(),
            r.1 == self.spec_next_idx(),
            r.2@ == self.free_slots(),
            r.3 == self.active_part(),
            r.4 == self.registry(),
    {
        (self.next_uid, self.next_idx, self.free_indices, self.active, self.store)
    }

    /// Rebuild a system from parts that `into_parts` produced. Parts that
    /// do not form a well-formed system give `None`.
    pub fn from_parts(
        next_uid: u32,
        next_idx: u32,
        free_indices: Vec<u32>,
        active: ComponentData<bool>,
        store: ST,
    ) -> (r: Option<Ecs<ST>>)
        ensures
            r is Some == Self::parts_ok(next_uid, next_idx, free_indices@, active, store),
            r is Some ==> {
                &&& r.unwrap().wf()
                &&& r.unwrap().spec_next_uid() == next_uid
                &&& r.unwrap().spec_next_idx() == next_idx
                &&& r.unwrap().free_slots() == free_indices@
                &&& r.unwrap().active_part() == active
                &&& r.unwrap().registry() == store
            },
    {
        if next_uid == 0 || next_idx >= next_uid {
            return None;
        }
        if !active.is_valid() || active.entity_idx_to_data.len() != next_idx as usize {
            return None;
        }
        if !store.check(next_idx as usize, &active) {
            return None;
        }
        proof {
            active.lemma_layout();
        }
        let mut i: usize = 0;
        while i < active.entities.len()
            invariant
                active.wf(),
                i <= active.entities@.len(),
                forall|j: int| 0 <= j < i ==> (#[trigger] active.entities@[j]).uid < next_uid,
            decreases active.entities@.len() - i,
        {
            if active.entities[i].uid >= next_uid {
                proof {
                    assert(active.contents().dom().contains(active.owners()[i as int]));
                }
                return None;
            }
            i += 1;
        }
        assert forall|x: Entity| #[trigger] active.contents().dom().contains(x) implies x.uid() < next_uid by {
            assert(active.entities@[active.data_index(x)] == x);
        }
        let mut seen: Vec<bool> = Vec::new();
        let mut t: usize = 0;
        while t < next_idx as usize
            invariant
                t <= next_idx,
                seen@.len() == t,
                forall|u: int| 0 <= u < t ==> !#[trigger] seen@[u],
            decreases next_idx - t,
        {
            seen.push(false);
            t += 1;
        }
        let mut k: usize = 0;
        while k < free_indices.len()
            invariant
                active.wf(),
                active.slots() == next_idx,
                k <= free_indices@.len(),
                seen@.len() == next_idx,
                forall|j: int| 0 <= j < k ==> #[trigger] free_indices@[j] < next_idx,
                forall|j: int| 0 <= j < k ==> active.entity_idx_to_data@[#[trigger] free_indices@[j] as int].uid == 0,
                free_indices@.subrange(0, k as int).no_duplicates(),
                forall|u: int| 0 <= u < next_idx ==> #[trigger] seen@[u] == free_indices@.subrange(0, k as int).contains(u as u32),
            decreases free_indices@.len() - k,
        {
            let f = free_indices[k];
            if f >= next_idx {
                return None;
            }
            if active.entity_idx_to_data[f as usize].uid != 0 {
                proof {
                    let rec = active.entity_idx_to_data@[f as int];
                    let x = active.entities@[rec.data_idx as int];
                    assert(active.contents().dom().contains(x));
                    assert(free_indices@[k as int] == x.idx);
                }
                return None;
            }
            if seen[f as usize] {
                proof {
                    let j = choose|j: int| 0 <= j < k && free_indices@.subrange(0, k as int)[j] == f;
                    assert(free_indices@[j] == free_indices@[k as int]);
                }
                return None;
            }
            proof {
                let pre = free_indices@.subrange(0, k as int);
                let post = free_indices@.subrange(0, k as int + 1);
                assert(post =~= pre.push(f));
                assert(!pre.contains(f));
                assert forall|a: int, b: int| 0 <= a < post.len() && 0 <= b < post.len() && a != b implies post[a] != post[b] by {
                    if a == k as int {
                        assert(pre[b] == post[b]);
                    } else if b == k as int {
                        assert(pre[a] == post[a]);
                    }
                }
            }
            seen.set(f as usize, true);
            k += 1;
            proof {
                let post = free_indices@.subrange(0, k as int);
                assert forall|u: int| 0 <= u < next_idx implies #[trigger] seen@[u] == post.contains(u as u32) by {
                    let pre = free_indices@.subrange(0, k as int - 1);
                    assert(post =~= pre.push(f));
                    if post.contains(u as u32) {
                        let j = choose|j: int| 0 <= j < post.len() && post[j] == u as u32;
                        if j < pre.len() {
                            assert(pre[j] == post[j]);
                        }
                    }
                    if pre.contains(u as u32) {
                        let j = choose|j: int| 0 <= j < pre.len() && pre[j] == u as u32;
                        assert(post[j] == pre[j]);
                    }
                    if u == f as int {
                        assert(post[k as int - 1] == f);
                    }
                }
            }
        }
        assert(free_indices@.subrange(0, k as int) =~= free_indices@);
        assert forall|j: int, x: Entity|
            0 <= j < free_indices@.len() && #[trigger] active.contents().dom().contains(x)
                implies #[trigger] free_indices@[j] != x.idx() by {
            assert(active.entity_idx_to_data@[free_indices@[j] as int].uid == 0);
        }
        let mut t: usize = 0;
        while t < next_idx as usize
            invariant
                active.wf(),
                active.slots() == next_idx,
                seen@.len() == next_idx,
                t <= next_idx,
                forall|u: int| 0 <= u < next_idx ==> #[trigger] seen@[u] == free_indices@.contains(u as u32),
                forall|u: int|
                    #![trigger active.records()[u]]
                    0 <= u < t ==> free_indices@.contains(u as u32) || active.records()[u].0 != 0,
            decreases next_idx - t,
        {
            if !seen[t] && active.entity_idx_to_data[t].uid == 0 {
                proof {
                    assert(active.records()[t as int].0 == 0);
                }
                return None;
            }
            t += 1;
        }
        let n = active.entities.len();
        let mut a: usize = 0;
        while a < n
            invariant
                active.wf(),
                n == active.entities@.len(),
                a <= n,
                forall|p: int, q: int|
                    #![trigger active.entities@[p], active.entities@[q]]
                    0 <= p < a && 0 <= q < n && p != q ==> active.entities@[p].uid != active.entities@[q].uid,
            decreases n - a,
        {
            let mut b: usize = 0;
            while b < n
                invariant
                    active.wf(),
                    n == active.entities@.len(),
                    a < n,
                    b <= n,
                    forall|p: int, q: int|
                        #![trigger active.entities@[p], active.entities@[q]]
                        0 <= p < a && 0 <= q < n && p != q ==> active.entities@[p].uid != active.entities@[q].uid,
                    forall|q: int|
                        #![trigger active.entities@[q]]
                        0 <= q < b && q != a ==> active.entities@[a as int].uid != active.entities@[q].uid,
                decreases n - b,
            {
                if b != a && active.entities[a].uid == active.entities[b].uid {
                    proof {
                        let x = active.owners()[a as int];
                        let y = active.owners()[b as int];
                        assert(active.contents().dom().contains(x));
                        assert(active.contents().dom().contains(y));
                        assert(x != y);
                    }
                    return None;
                }
                b += 1;
            }
            a += 1;
        }
        assert forall|x: Entity, y: Entity|
            #![trigger active.contents().dom().contains(x), active.contents().dom().contains(y)]
            active.contents().dom().contains(x) && active.contents().dom().contains(y) && x.uid() == y.uid()
                implies x == y by {
            let p = active.data_index(x);
            let q = active.data_index(y);
            assert(active.entities@[p] == x);
            assert(active.entities@[q] == y);
        }
        Some(Ecs { next_uid, next_idx, free_indices, active, store })
    }


    /// Attach every value of `loadout` to the live entity `e`, in one call.
    pub fn apply_loadout<L: Loadout<ST>>(&mut self, e: Entity, loadout: L)
        requires
            old(self).wf(),
            old(self).live().contains(e),
        ensures
            final(self).wf(),
            final(self).live() == old(self).live(),
            final(self).live_order() == old(self).live_order(),
            final(self).free_slots() == old(self).free_slots(),
            final(self).spec_next_uid() == old(self).spec_next_uid(),
            final(self).spec_next_idx() == old(self).spec_next_idx(),
            loadout.applied(old(self).registry(), final(self).registry(), e),
            forall|x: Entity| x != e ==> #[trigger] final(self).registry().store_holds(x)
                == old(self).registry().store_holds(x),
    {
        proof {
            assert forall|x: Entity| #[trigger] self.store.store_holds(x) && x.idx() == e.idx() implies x == e by {
                assert(self.live().contains(x));
                assert(self.active.entity_idx_to_data@[x.idx as int].uid == x.uid);
            }
        }
        loadout.apply(&mut self.store, e);
        proof {
            assert forall|x: Entity| #[trigger] self.store.store_holds(x) implies self.live().contains(x) by {
                if x != e {
                    assert(old(self).store.store_holds(x));
                }
            }
        }
    }

}

} // verus!
