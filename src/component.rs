use vstd::prelude::*;
use vstd::set_lib::{lemma_int_range, lemma_len_subset, set_int_range};
use vstd::std_specs::iter::IteratorSpec;

use crate::entity::Entity;

verus! {

/// Record of one slot in one container: which entity owns the slot's value
/// and where that value sits in the dense array. A `uid` of zero marks a slot
/// that holds no value.
#[derive(Copy, Clone, PartialEq, Eq, Structural, Debug)]
pub(crate) struct Index {
    pub(crate) uid: u32,
    pub(crate) data_idx: u32,
}

impl Index {
    pub(crate) fn vacant() -> (r: Index)
        ensures
            r.uid == 0,
            r.data_idx == 0,
    {
        Index { uid: 0, data_idx: 0 }
    }
}

/// Storage for a single component type.
///
/// Values are packed without gaps in `data`; `entities[i]` owns `data[i]`;
/// `entity_idx_to_data` has one record per slot that maps the slot's owner to
/// its position in `data`.
pub struct ComponentData<C> {
    pub(crate) data: Vec<C>,
    pub(crate) entities: Vec<Entity>,
    pub(crate) entity_idx_to_data: Vec<Index>,
}

impl<C> ComponentData<C> {
    /// Number of slots reserved in this container.
    pub open(crate) spec fn slots(&self) -> nat {
        self.entity_idx_to_data@.len()
    }

    /// The record kept for the slot of `e` names `e` as its owner.
    pub open(crate) spec fn has(&self, e: Entity) -> bool {
        &&& e.uid != 0
        &&& (e.idx as int) < self.slots()
        &&& self.entity_idx_to_data@[e.idx as int].uid == e.uid
    }

    /// Position in the dense arrays of the value kept for the slot of `e`.
    pub open(crate) spec fn data_index(&self, e: Entity) -> int {
        self.entity_idx_to_data@[e.idx as int].data_idx as int
    }

    /// The component values of this container, by owning entity.
    pub open(crate) spec fn contents(&self) -> Map<Entity, C> {
        Map::new(|e: Entity| self.has(e), |e: Entity| self.data@[self.data_index(e)])
    }

    /// Owners of the packed values, in packing order.
    pub open(crate) spec fn owners(&self) -> Seq<Entity> {
        self.entities@
    }

    /// The packed values, in packing order.
    pub open(crate) spec fn values(&self) -> Seq<C> {
        self.data@
    }

    /// The slot records as pairs of owner identity and packed position.
    pub open(crate) spec fn records(&self) -> Seq<(u32, u32)> {
        self.entity_idx_to_data@.map_values(|r: Index| (r.uid, r.data_idx))
    }

    /// `self` is what `remove(e)` makes of `before`. A value of `e` leaves
    /// by swap-remove: the last packed value and its owner move into the
    /// freed position, the record of `e` becomes the empty record (0, 0), and
    /// the record of the moved owner follows it. Without a value of `e`,
    /// nothing changes.
    pub open(crate) spec fn removal_of(&self, before: &Self, e: Entity) -> bool {
        &&& self.contents() == before.contents().remove(e)
        &&& !before.contents().contains_key(e) ==> {
            &&& self.owners() == before.owners()
            &&& self.values() == before.values()
            &&& self.records() == before.records()
        }
        &&& before.contents().contains_key(e) ==> {
            let i = before.data_index(e);
            let last = before.owners().last();
            &&& self.owners() == before.owners().update(i, last).drop_last()
            &&& self.values() == before.values().update(i, before.values().last()).drop_last()
            &&& self.records() == if i == before.owners().len() - 1 {
                before.records().update(e.idx as int, (0u32, 0u32))
            } else {
                before.records().update(e.idx as int, (0u32, 0u32)).update(last.idx as int, (last.uid, i as u32))
            }
        }
    }

    /// `self` is `before` with one more slot, whose record is the empty
    /// record (0, 0).
    pub open(crate) spec fn growth_of(&self, before: &Self) -> bool {
        &&& self.owners() == before.owners()
        &&& self.values() == before.values()
        &&& self.records() == before.records().push((0u32, 0u32))
        &&& self.contents() == before.contents()
    }

    /// No value other than that of `e` occupies the slot of `e`.
    pub open(crate) spec fn slot_open_for(&self, e: Entity) -> bool {
        forall|x: Entity| #[trigger] self.contents().contains_key(x) && x.idx == e.idx ==> x == e
    }

    /// The dense arrays and the slot records describe each other, and a
    /// record that names no owner is the empty record (0, 0).
    pub open(crate) spec fn wf(&self) -> bool {
        &&& self.data@.len() == self.entities@.len()
        &&& self.slots() <= u32::MAX
        &&& forall|i: int|
            0 <= i < self.entities@.len() ==> {
                let e = #[trigger] self.entities@[i];
                &&& e.uid != 0
                &&& (e.idx as int) < self.slots()
                &&& self.entity_idx_to_data@[e.idx as int].uid == e.uid
                &&& self.entity_idx_to_data@[e.idx as int].data_idx as int == i
            }
        &&& forall|s: int|
            0 <= s < self.slots() && #[trigger] self.entity_idx_to_data@[s].uid != 0 ==> {
                let r = self.entity_idx_to_data@[s];
                &&& (r.data_idx as int) < self.entities@.len()
                &&& self.entities@[r.data_idx as int] == Entity { uid: r.uid, idx: s as u32 }
            }
        &&& forall|s: int|
            0 <= s < self.slots() && #[trigger] self.entity_idx_to_data@[s].uid == 0
                ==> self.entity_idx_to_data@[s].data_idx == 0
    }

    /// Every packed value is the value of its owner, and every held entity
    /// owns exactly one packed position.
    pub proof fn lemma_layout(&self)
        requires
            self.wf(),
        ensures
            forall|i: int|
                0 <= i < self.owners().len() ==> {
                    &&& self.contents().contains_key(#[trigger] self.owners()[i])
                    &&& self.contents()[self.owners()[i]] == self.values()[i]
                },
            forall|e: Entity|
                #[trigger] self.contents().contains_key(e) ==> {
                    &&& 0 <= self.data_index(e) < self.owners().len()
                    &&& self.owners()[self.data_index(e)] == e
                },
    {
        assert forall|e: Entity| #[trigger] self.contents().contains_key(e) implies {
            &&& 0 <= self.data_index(e) < self.owners().len()
            &&& self.owners()[self.data_index(e)] == e
        } by {
            assert(self.entity_idx_to_data@[e.idx as int].uid != 0);
        }
    }

    /// In a container whose slot `s` holds nothing, fewer values are held
    /// than slots are reserved.
    proof fn lemma_free_slot_bounds_len(&self, s: int)
        requires
            self.wf(),
            0 <= s < self.slots(),
            self.entity_idx_to_data@[s].uid == 0,
        ensures
            self.entities@.len() < self.slots(),
    {
        let idxs = self.entities@.map_values(|e: Entity| e.idx as int);
        assert forall|i: int, j: int|
            0 <= i < idxs.len() && 0 <= j < idxs.len() && i != j implies idxs[i] != idxs[j] by {
            assert(self.entities@[i] == self.entities@[i]);
            assert(self.entities@[j] == self.entities@[j]);
        }
        assert(idxs.no_duplicates());
        idxs.unique_seq_to_set();
        let range = set_int_range(0, self.slots() as int).remove(s);
        lemma_int_range(0, self.slots() as int);
        assert forall|k: int| idxs.to_set().contains(k) implies range.contains(k) by {
            let i = choose|i: int| 0 <= i < idxs.len() && idxs[i] == k;
            assert(self.entities@[i] == self.entities@[i]);
        }
        lemma_len_subset(idxs.to_set(), range);
    }

    /// Construct a new, empty container with no slots reserved.
    pub fn new() -> (r: ComponentData<C>)
        ensures
            r.wf(),
            r.slots() == 0,
            r.contents() == Map::<Entity, C>::empty(),
            r.owners() == Seq::<Entity>::empty(),
    {
        let r = ComponentData { data: Vec::new(), entities: Vec::new(), entity_idx_to_data: Vec::new() };
        assert(r.contents() =~= Map::<Entity, C>::empty());
        r
    }

    /// Return whether `e` has a value in this container.
    ///
    /// The slot of `e` must be reserved here: a handle of another store, or
    /// of a slot never reserved, is a misuse. A handle with identity zero has
    /// no value.
    pub fn contains(&self, e: Entity) -> (r: bool)
        requires
            (e.idx() as int) < self.slots(),
        ensures
            r == self.contents().contains_key(e),
    {
        e.uid != 0 && self.entity_idx_to_data[e.idx as usize].uid == e.uid
    }

    /// Attach `comp` to `e`, replacing the value `e` already has here.
    ///
    /// A new value is appended to the dense arrays; a replaced one keeps its
    /// position.
    pub fn insert(&mut self, e: Entity, comp: C)
        requires
            old(self).wf(),
            e.uid() != 0,
            (e.idx() as int) < old(self).slots(),
            old(self).slot_open_for(e),
        ensures
            final(self).wf(),
            final(self).slots() == old(self).slots(),
            final(self).contents() == old(self).contents().insert(e, comp),
            old(self).contents().contains_key(e) ==> {
                &&& final(self).owners() == old(self).owners()
                &&& final(self).values() == old(self).values().update(old(self).data_index(e), comp)
                &&& final(self).records() == old(self).records()
            },
            !old(self).contents().contains_key(e) ==> {
                &&& final(self).owners() == old(self).owners().push(e)
                &&& final(self).values() == old(self).values().push(comp)
                &&& final(self).records() == old(self).records().update(
                    e.idx() as int,
                    (e.uid(), old(self).values().len() as u32),
                )
            },
    {
        if self.contains(e) {
            let data_idx = self.entity_idx_to_data[e.idx as usize].data_idx as usize;
            proof {
                assert(self.entity_idx_to_data@[e.idx as int].uid != 0);
            }
            self.data.set(data_idx, comp);
            proof {
                assert forall|x: Entity| #[trigger] self.contents().contains_key(x) implies
                    self.contents()[x] == old(self).contents().insert(e, comp)[x] by {
                    if x != e {
                        assert(old(self).entity_idx_to_data@[x.idx as int].uid != 0);
                        assert(old(self).entities@[old(self).data_index(x)] == x);
                    }
                }
                assert(self.contents() =~= old(self).contents().insert(e, comp));
                assert(self.records() =~= old(self).records());
            }
        } else {
            proof {
                let x = Entity { uid: self.entity_idx_to_data@[e.idx as int].uid, idx: e.idx };
                if x.uid != 0 {
                    assert(self.contents().contains_key(x));
                }
                self.lemma_free_slot_bounds_len(e.idx as int);
            }
            let data_idx = self.data.len() as u32;
            self.data.push(comp);
            self.entities.push(e);
            self.entity_idx_to_data.set(e.idx as usize, Index { uid: e.uid, data_idx });
            proof {
                assert forall|s: int|
                    0 <= s < self.slots() && #[trigger] self.entity_idx_to_data@[s].uid != 0 implies {
                        let r = self.entity_idx_to_data@[s];
                        &&& (r.data_idx as int) < self.entities@.len()
                        &&& self.entities@[r.data_idx as int] == Entity { uid: r.uid, idx: s as u32 }
                    } by {
                    if s != e.idx as int {
                        assert(old(self).entity_idx_to_data@[s].uid != 0);
                    }
                }
                assert forall|i: int| 0 <= i < self.entities@.len() implies {
                        let x = #[trigger] self.entities@[i];
                        &&& x.uid != 0
                        &&& (x.idx as int) < self.slots()
                        &&& self.entity_idx_to_data@[x.idx as int].uid == x.uid
                        &&& self.entity_idx_to_data@[x.idx as int].data_idx as int == i
                    } by {
                    if i < old(self).entities@.len() {
                        let x = old(self).entities@[i];
                        assert(old(self).entity_idx_to_data@[x.idx as int].uid == x.uid);
                    }
                }
                assert forall|x: Entity| #[trigger] self.contents().contains_key(x) implies
                    self.contents()[x] == old(self).contents().insert(e, comp)[x] by {
                    if x != e {
                        assert(old(self).entity_idx_to_data@[x.idx as int].uid != 0);
                    }
                }
                assert(self.contents() =~= old(self).contents().insert(e, comp));
                assert(self.records() =~= old(self).records().update(
                    e.idx as int,
                    (e.uid, old(self).values().len() as u32),
                ));
            }
        }
    }

    /// A reference to the value of `e`, if `e` has one here.
    pub fn get(&self, e: Entity) -> (r: Option<&C>)
        requires
            self.wf(),
            (e.idx() as int) < self.slots(),
        ensures
            r is Some == self.contents().contains_key(e),
            r is Some ==> *r.unwrap() == self.contents()[e],
    {
        if self.contains(e) {
            proof {
                assert(self.entity_idx_to_data@[e.idx as int].uid != 0);
            }
            Some(&self.data[self.entity_idx_to_data[e.idx as usize].data_idx as usize])
        } else {
            None
        }
    }

    /// A mutable reference to the value of `e`, if `e` has one here. A write
    /// through it changes that value and nothing else.
    pub fn get_mut(&mut self, e: Entity) -> (r: Option<&mut C>)
        requires
            old(self).wf(),
            (e.idx() as int) < old(self).slots(),
        ensures
            r is Some == old(self).contents().contains_key(e),
            r is Some ==> *r.unwrap() == old(self).contents()[e],
            r is Some ==> final(self).contents() == old(self).contents().insert(e, *final(r.unwrap())),
            r is Some ==> final(self).values() == old(self).values().update(
                old(self).data_index(e),
                *final(r.unwrap()),
            ),
            r is None ==> final(self).contents() == old(self).contents(),
            r is None ==> final(self).values() == old(self).values(),
            final(self).wf(),
            final(self).slots() == old(self).slots(),
            final(self).owners() == old(self).owners(),
            final(self).records() == old(self).records(),
    {
        if self.contains(e) {
            proof {
                assert(self.entity_idx_to_data@[e.idx as int].uid != 0);
            }
            let data_idx = self.entity_idx_to_data[e.idx as usize].data_idx as usize;
            Some(&mut self.data[data_idx])
        } else {
            None
        }
    }

    /// The owners of the values held here, in packing order.
    pub fn ent_iter(&self) -> (r: std::slice::Iter<'_, Entity>)
        ensures
            r.remaining() == self.owners().as_ref(),
    {
        self.entities.iter()
    }


    /// The values held here, in packing order.
    pub fn iter(&self) -> (r: std::slice::Iter<'_, C>)
        ensures
            r.remaining() == self.values().as_ref(),
    {
        self.data.iter()
    }

    /// The values held here, in packing order, open to writes. Writes change
    /// the values and neither their owners nor the slot records; a slice
    /// cannot change its length, and with the length kept the container stays
    /// well formed and holds values for the same entities.
    pub fn iter_mut(&mut self) -> (r: &mut [C])
        ensures
            r@ == old(self).values(),
            final(self).values() == final(r)@,
            final(self).owners() == old(self).owners(),
            final(self).slots() == old(self).slots(),
            final(self).records() == old(self).records(),
            old(self).wf() && final(r)@.len() == r@.len() ==> {
                &&& final(self).wf()
                &&& final(self).contents().dom() == old(self).contents().dom()
            },
    {
        self.data.as_mut_slice()
    }

    /// Drop the value of `e`, if it has one here.
    ///
    /// The last packed value moves into the freed position, so the packing
    /// order changes; the slot record of the moved value follows it.
    pub fn remove(&mut self, e: Entity)
        requires
            old(self).wf(),
            (e.idx() as int) < old(self).slots(),
        ensures
            final(self).wf(),
            final(self).slots() == old(self).slots(),
            final(self).removal_of(old(self), e),
    {
        if self.contains(e) {
            let removed = self.entity_idx_to_data[e.idx as usize];
            proof {
                assert(self.entity_idx_to_data@[e.idx as int].uid != 0);
            }
            self.entity_idx_to_data.set(e.idx as usize, Index::vacant());
            let last = self.entities.len() - 1;
            if removed.data_idx as usize != last {
                let last_entity = self.entities[last];
                self.entities.swap_remove(removed.data_idx as usize);
                self.entity_idx_to_data.set(
                    last_entity.idx as usize,
                    Index { uid: last_entity.uid, data_idx: removed.data_idx },
                );
            } else {
                self.entities.swap_remove(removed.data_idx as usize);
            }
            self.data.swap_remove(removed.data_idx as usize);
            proof {
                let o = *old(self);
                let di = removed.data_idx as int;
                let n = o.entities@.len() - 1;
                let le = o.entities@[n];
                assert(o.entity_idx_to_data@[le.idx as int].data_idx as int == n);
                assert forall|i: int| 0 <= i < self.entities@.len() implies {
                        let x = #[trigger] self.entities@[i];
                        &&& x.uid != 0
                        &&& (x.idx as int) < self.slots()
                        &&& self.entity_idx_to_data@[x.idx as int].uid == x.uid
                        &&& self.entity_idx_to_data@[x.idx as int].data_idx as int == i
                    } by {
                    let y = o.entities@[i];
                    assert(o.entity_idx_to_data@[y.idx as int].uid == y.uid);
                }
                assert forall|s: int|
                    0 <= s < self.slots() && #[trigger] self.entity_idx_to_data@[s].uid != 0 implies {
                        let r = self.entity_idx_to_data@[s];
                        &&& (r.data_idx as int) < self.entities@.len()
                        &&& self.entities@[r.data_idx as int] == Entity { uid: r.uid, idx: s as u32 }
                    } by {
                    if s != le.idx as int {
                        assert(o.entity_idx_to_data@[s].uid != 0);
                        let r = o.entity_idx_to_data@[s];
                        assert(o.entities@[r.data_idx as int] == Entity { uid: r.uid, idx: s as u32 });
                    }
                }
                assert forall|x: Entity| #[trigger] self.contents().contains_key(x) implies
                    o.contents().remove(e).contains_key(x) && self.contents()[x] == o.contents().remove(e)[x] by {
                    if x.idx != le.idx {
                        assert(o.entity_idx_to_data@[x.idx as int].uid != 0);
                    } else {
                        assert(o.entity_idx_to_data@[le.idx as int].uid != 0);
                    }
                }
                assert forall|x: Entity| #[trigger] o.contents().remove(e).contains_key(x) implies
                    self.contents().contains_key(x) by {
                    assert(o.entity_idx_to_data@[x.idx as int].uid != 0);
                    assert(o.entities@[o.data_index(x)] == x);
                }
                assert(self.contents() =~= o.contents().remove(e));
                assert(self.entities@ =~= o.entities@.update(di, le).drop_last());
                assert(self.data@ =~= o.data@.update(di, o.data@.last()).drop_last());
                if di == n {
                    assert(self.records() =~= o.records().update(e.idx as int, (0u32, 0u32)));
                } else {
                    assert(self.records() =~= o.records().update(e.idx as int, (0u32, 0u32)).update(
                        le.idx as int,
                        (le.uid, di as u32),
                    ));
                }
            }
        } else {
            proof {
                assert(self.contents() =~= old(self).contents().remove(e));
            }
        }
    }

    /// Reserve one more slot, which holds nothing.
    pub fn reserve_entity_space(&mut self)
        requires
            old(self).wf(),
            old(self).slots() < u32::MAX,
        ensures
            final(self).wf(),
            final(self).slots() == old(self).slots() + 1,
            final(self).growth_of(old(self)),
    {
        self.entity_idx_to_data.push(Index::vacant());
        proof {
            let o = *old(self);
            assert forall|i: int| 0 <= i < self.entities@.len() implies {
                    let x = #[trigger] self.entities@[i];
                    &&& x.uid != 0
                    &&& (x.idx as int) < self.slots()
                    &&& self.entity_idx_to_data@[x.idx as int].uid == x.uid
                    &&& self.entity_idx_to_data@[x.idx as int].data_idx as int == i
                } by {
                assert(o.entities@[i] == self.entities@[i]);
            }
            assert forall|s: int|
                0 <= s < self.slots() && #[trigger] self.entity_idx_to_data@[s].uid != 0 implies {
                    let r = self.entity_idx_to_data@[s];
                    &&& (r.data_idx as int) < self.entities@.len()
                    &&& self.entities@[r.data_idx as int] == Entity { uid: r.uid, idx: s as u32 }
                } by {
                assert(o.entity_idx_to_data@[s].uid != 0);
            }
            assert forall|x: Entity| #[trigger] self.contents().contains_key(x) implies
                o.contents().contains_key(x) by {
                if (x.idx as int) == o.slots() {
                    assert(self.entity_idx_to_data@[x.idx as int].uid == 0);
                }
            }
            assert(self.contents() =~= o.contents());
            assert(self.records() =~= o.records().push((0u32, 0u32)));
        }
    }


    /// Packed values, their owners and the slot records describe each other:
    /// the layout that every container keeps.
    pub open spec fn layout_ok(data: Seq<C>, entities: Seq<Entity>, records: Seq<(u32, u32)>) -> bool {
        &&& data.len() == entities.len()
        &&& records.len() <= u32::MAX
        &&& forall|i: int|
            0 <= i < entities.len() ==> {
                let e = #[trigger] entities[i];
                &&& e.uid() != 0
                &&& (e.idx() as int) < records.len()
                &&& records[e.idx() as int].0 == e.uid()
                &&& records[e.idx() as int].1 as int == i
            }
        &&& forall|s: int|
            0 <= s < records.len() && #[trigger] records[s].0 != 0 ==> {
                &&& (records[s].1 as int) < entities.len()
                &&& entities[records[s].1 as int].uid() == records[s].0
                &&& entities[records[s].1 as int].idx() as int == s
            }
        &&& forall|s: int| 0 <= s < records.len() && #[trigger] records[s].0 == 0 ==> records[s].1 == 0
    }

    /// A container is well formed exactly when its parts have the layout.
    pub proof fn lemma_wf_is_layout(&self)
        ensures
            self.wf() == Self::layout_ok(self.values(), self.owners(), self.records()),
    {
        if Self::layout_ok(self.values(), self.owners(), self.records()) {
            assert forall|s: int|
                0 <= s < self.slots() && #[trigger] self.entity_idx_to_data@[s].uid != 0 implies {
                    let r = self.entity_idx_to_data@[s];
                    &&& (r.data_idx as int) < self.entities@.len()
                    &&& self.entities@[r.data_idx as int] == Entity { uid: r.uid, idx: s as u32 }
                } by {
                assert(self.records()[s].0 != 0);
            }
            assert forall|s: int| 0 <= s < self.slots() && #[trigger] self.entity_idx_to_data@[s].uid == 0 implies
                self.entity_idx_to_data@[s].data_idx == 0 by {
                assert(self.records()[s].0 == 0);
            }
        }
        if self.wf() {
            assert forall|s: int| 0 <= s < self.records().len() && #[trigger] self.records()[s].0 != 0 implies {
                &&& (self.records()[s].1 as int) < self.owners().len()
                &&& self.owners()[self.records()[s].1 as int].uid() == self.records()[s].0
                &&& self.owners()[self.records()[s].1 as int].idx() as int == s
            } by {
                assert(self.entity_idx_to_data@[s].uid != 0);
            }
            assert forall|s: int| 0 <= s < self.records().len() && #[trigger] self.records()[s].0 == 0 implies
                self.records()[s].1 == 0 by {
                assert(self.entity_idx_to_data@[s].uid == 0);
            }
        }
    }

    /// Take the container apart into its packed values, their owners, and
    /// the slot records as pairs of owner identity and packed position.
    pub fn into_parts(self) -> (r: (Vec<C>, Vec<Entity>, Vec<(u32, u32)>))
        ensures
            r.0@ == self.values(),
            r.1@ == self.owners(),
            r.2@ == self.records(),
    {
        let ComponentData { data, entities, entity_idx_to_data } = self;
        let mut records: Vec<(u32, u32)> = Vec::new();
        let mut s: usize = 0;
        while s < entity_idx_to_data.len()
            invariant
                s <= entity_idx_to_data@.len(),
                records@ == entity_idx_to_data@.subrange(0, s as int).map_values(|r: Index| (r.uid, r.data_idx)),
            decreases entity_idx_to_data@.len() - s,
        {
            let rec = entity_idx_to_data[s];
            records.push((rec.uid, rec.data_idx));
            s += 1;
            assert(records@ =~= entity_idx_to_data@.subrange(0, s as int).map_values(|r: Index| (r.uid, r.data_idx)));
        }
        assert(entity_idx_to_data@.subrange(0, s as int) =~= entity_idx_to_data@);
        (data, entities, records)
    }

    /// Rebuild a container from parts that `into_parts` produced. Parts that
    /// do not have the layout of a container give `None`.
    pub fn from_parts(data: Vec<C>, entities: Vec<Entity>, records: Vec<(u32, u32)>) -> (r: Option<ComponentData<C>>)
        ensures
            r is Some == Self::layout_ok(data@, entities@, records@),
            r is Some ==> {
                &&& r.unwrap().wf()
                &&& r.unwrap().values() == data@
                &&& r.unwrap().owners() == entities@
                &&& r.unwrap().records() == records@
            },
    {
        let mut idx: Vec<Index> = Vec::new();
        let mut s: usize = 0;
        while s < records.len()
            invariant
                s <= records@.len(),
                idx@.len() == s,
                forall|t: int| 0 <= t < s ==> (#[trigger] idx@[t]).uid == records@[t].0 && idx@[t].data_idx == records@[t].1,
            decreases records@.len() - s,
        {
            let (uid, data_idx) = records[s];
            idx.push(Index { uid, data_idx });
            s += 1;
        }
        let c = ComponentData { data, entities, entity_idx_to_data: idx };
        assert(c.records() =~= records@);
        proof {
            c.lemma_wf_is_layout();
        }
        if c.is_valid() {
            Some(c)
        } else {
            None
        }
    }

    spec fn owner_ok(&self, i: int) -> bool {
        let e = self.entities@[i];
        &&& e.uid != 0
        &&& (e.idx as int) < self.slots()
        &&& self.entity_idx_to_data@[e.idx as int].uid == e.uid
        &&& self.entity_idx_to_data@[e.idx as int].data_idx as int == i
    }

    spec fn record_ok(&self, s: int) -> bool {
        let r = self.entity_idx_to_data@[s];
        &&& r.uid != 0 ==> {
            &&& (r.data_idx as int) < self.entities@.len()
            &&& self.entities@[r.data_idx as int] == Entity { uid: r.uid, idx: s as u32 }
        }
        &&& r.uid == 0 ==> r.data_idx == 0
    }

    /// Check that the container is well formed.
    pub fn is_valid(&self) -> (r: bool)
        ensures
            r == self.wf(),
    {
        let n = self.entities.len();
        let slots = self.entity_idx_to_data.len();
        if self.data.len() != n || slots > u32::MAX as usize {
            return false;
        }
        let mut i: usize = 0;
        while i < n
            invariant
                n == self.entities@.len(),
                slots == self.slots(),
                i <= n,
                forall|j: int| 0 <= j < i ==> #[trigger] self.owner_ok(j),
            decreases n - i,
        {
            let e = self.entities[i];
            if e.uid == 0 || e.idx as usize >= slots {
                assert(!self.owner_ok(i as int));
                return false;
            }
            let rec = self.entity_idx_to_data[e.idx as usize];
            if rec.uid != e.uid || rec.data_idx as usize != i {
                assert(!self.owner_ok(i as int));
                return false;
            }
            assert(self.owner_ok(i as int));
            i += 1;
        }
        let mut s: usize = 0;
        while s < slots
            invariant
                n == self.entities@.len(),
                slots == self.slots(),
                slots <= u32::MAX,
                s <= slots,
                forall|t: int| 0 <= t < s ==> #[trigger] self.record_ok(t),
            decreases slots - s,
        {
            let rec = self.entity_idx_to_data[s];
            if rec.uid != 0 {
                if rec.data_idx as usize >= n {
                    assert(!self.record_ok(s as int));
                    return false;
                }
                let e = self.entities[rec.data_idx as usize];
                if e.uid != rec.uid || e.idx as usize != s {
                    assert(!self.record_ok(s as int));
                    return false;
                }
            } else if rec.data_idx != 0 {
                assert(!self.record_ok(s as int));
                return false;
            }
            assert(self.record_ok(s as int));
            s += 1;
        }
        assert forall|j: int| 0 <= j < self.entities@.len() implies {
            let e = #[trigger] self.entities@[j];
            &&& e.uid != 0
            &&& (e.idx as int) < self.slots()
            &&& self.entity_idx_to_data@[e.idx as int].uid == e.uid
            &&& self.entity_idx_to_data@[e.idx as int].data_idx as int == j
        } by {
            assert(self.owner_ok(j));
        }
        assert forall|t: int| 0 <= t < self.slots() && #[trigger] self.entity_idx_to_data@[t].uid != 0 implies {
            let r = self.entity_idx_to_data@[t];
            &&& (r.data_idx as int) < self.entities@.len()
            &&& self.entities@[r.data_idx as int] == Entity { uid: r.uid, idx: t as u32 }
        } by {
            assert(self.record_ok(t));
        }
        assert forall|t: int| 0 <= t < self.slots() && #[trigger] self.entity_idx_to_data@[t].uid == 0 implies
            self.entity_idx_to_data@[t].data_idx == 0 by {
            assert(self.record_ok(t));
        }
        true
    }


    /// Whether every entity that holds a value here holds one in `other`.
    pub fn owners_held_by<D>(&self, other: &ComponentData<D>) -> (r: bool)
        requires
            self.wf(),
            other.slots() == self.slots(),
        ensures
            r == forall|x: Entity| #[trigger] self.contents().contains_key(x) ==> other.contents().contains_key(x),
    {
        proof {
            self.lemma_layout();
        }
        let mut i: usize = 0;
        while i < self.entities.len()
            invariant
                self.wf(),
                other.slots() == self.slots(),
                i <= self.entities@.len(),
                forall|j: int| 0 <= j < i ==> other.contents().contains_key(#[trigger] self.entities@[j]),
            decreases self.entities@.len() - i,
        {
            proof {
                assert(self.entities@[i as int] == self.entities@[i as int]);
            }
            if !other.contains(self.entities[i]) {
                assert(self.contents().contains_key(self.owners()[i as int]));
                return false;
            }
            i += 1;
        }
        assert forall|x: Entity| #[trigger] self.contents().contains_key(x) implies other.contents().contains_key(x) by {
            assert(self.owners()[self.data_index(x)] == x);
        }
        true
    }

}

} // verus!
