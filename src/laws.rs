//! Properties of the component containers and the entity store that hold
//! over several calls.

use vstd::prelude::*;

use crate::component::ComponentData;
use crate::ecs::Ecs;
use crate::entity::Entity;
use crate::registry::Store;

verus! {

/// After `insert(e, v)` the container holds `v` for `e`, so `get(e)` returns
/// `v`.
pub proof fn lemma_insert_then_get<C>(before: ComponentData<C>, after: ComponentData<C>, e: Entity, v: C)
    requires
        after.contents() == before.contents().insert(e, v),
    ensures
        after.contents().contains_key(e),
        after.contents()[e] == v,
{
}

/// After `remove(e)` the container holds nothing for `e`, so `get(e)`
/// returns `None`.
pub proof fn lemma_remove_then_get<C>(before: ComponentData<C>, after: ComponentData<C>, e: Entity)
    requires
        after.contents() == before.contents().remove(e),
    ensures
        !after.contents().contains_key(e),
{
}

/// Removing the value of one entity leaves the value of every other entity
/// where `get` finds it, although the packed order changes.
pub proof fn lemma_remove_keeps_others<C>(
    before: ComponentData<C>,
    after: ComponentData<C>,
    e: Entity,
    x: Entity,
)
    requires
        after.contents() == before.contents().remove(e),
        x != e,
    ensures
        after.contents().contains_key(x) == before.contents().contains_key(x),
        before.contents().contains_key(x) ==> after.contents()[x] == before.contents()[x],
{
}

/// Along a run of `make` calls with no `remove` in between, every handle
/// stays alive until the end of the run.
proof fn lemma_made_stay_live<ST: Store>(states: Seq<Ecs<ST>>, made: Seq<Entity>, k: int)
    requires
        states.len() == made.len() + 1,
        forall|i: int| 0 <= i < made.len() ==> Ecs::made_step(#[trigger] states[i], states[i + 1], made[i]),
        0 <= k <= made.len(),
    ensures
        forall|i: int| 0 <= i < k ==> #[trigger] states[k].live().contains(made[i]),
    decreases k,
{
    if k > 0 {
        lemma_made_stay_live(states, made, k - 1);
        assert(Ecs::made_step(states[k - 1], states[k], made[k - 1]));
    }
}

/// A run of `make` calls with no `remove` in between hands out handles that
/// differ pairwise in identity and in slot.
pub proof fn lemma_made_handles_distinct<ST: Store>(states: Seq<Ecs<ST>>, made: Seq<Entity>)
    requires
        states.len() == made.len() + 1,
        forall|i: int| 0 <= i < made.len() ==> Ecs::made_step(#[trigger] states[i], states[i + 1], made[i]),
    ensures
        forall|i: int, j: int|
            #![trigger made[i], made[j]]
            0 <= i < j < made.len() ==> made[i].uid() != made[j].uid() && made[i].idx() != made[j].idx(),
{
    assert forall|i: int, j: int|
        #![trigger made[i], made[j]]
        0 <= i < j < made.len() implies made[i].uid() != made[j].uid() && made[i].idx() != made[j].idx() by {
        lemma_made_stay_live(states, made, j);
        assert(states[j].live().contains(made[i]));
        assert(Ecs::made_step(states[j], states[j + 1], made[j]));
    }
}

/// One step of a run: a call of `make` that returned the handle in `made`,
/// or, where `made` is `None`, a call of `remove(target)`.
pub open spec fn run_step<ST: Store>(pre: Ecs<ST>, post: Ecs<ST>, made: Option<Entity>, target: Entity) -> bool {
    match made {
        Some(r) => Ecs::made_step(pre, post, r),
        None => Ecs::removed_step(pre, post, target),
    }
}

/// `states` is a run of `make` and `remove` calls, one per step.
pub open spec fn is_run<ST: Store>(states: Seq<Ecs<ST>>, made: Seq<Option<Entity>>, targets: Seq<Entity>) -> bool {
    &&& states.len() == made.len() + 1
    &&& targets.len() == made.len()
    &&& forall|i: int| 0 <= i < made.len() ==> run_step(#[trigger] states[i], states[i + 1], made[i], targets[i])
}

/// The next identity never decreases along a run.
proof fn lemma_next_uid_grows<ST: Store>(
    states: Seq<Ecs<ST>>,
    made: Seq<Option<Entity>>,
    targets: Seq<Entity>,
    i: int,
    j: int,
)
    requires
        is_run(states, made, targets),
        0 <= i <= j < states.len(),
    ensures
        states[i].spec_next_uid() <= states[j].spec_next_uid(),
    decreases j - i,
{
    if i < j {
        lemma_next_uid_grows(states, made, targets, i, j - 1);
        assert(run_step(states[j - 1], states[j], made[j - 1], targets[j - 1]));
    }
}

/// Identities are never handed out twice: along any run of `make` and
/// `remove` calls, each `make` returns a larger identity than every earlier
/// one.
pub proof fn lemma_uids_never_reused<ST: Store>(
    states: Seq<Ecs<ST>>,
    made: Seq<Option<Entity>>,
    targets: Seq<Entity>,
)
    requires
        is_run(states, made, targets),
    ensures
        forall|i: int, j: int|
            0 <= i < j < made.len() && #[trigger] made[i] is Some && #[trigger] made[j] is Some
                ==> made[i].unwrap().uid() < made[j].unwrap().uid(),
{
    assert forall|i: int, j: int|
        0 <= i < j < made.len() && #[trigger] made[i] is Some && #[trigger] made[j] is Some implies made[i].unwrap().uid()
            < made[j].unwrap().uid() by {
        assert(run_step(states[i], states[i + 1], made[i], targets[i]));
        assert(run_step(states[j], states[j + 1], made[j], targets[j]));
        lemma_next_uid_grows(states, made, targets, i + 1, j);
    }
}

/// The handle `e` is stale in `s`: it is not alive, no container holds a
/// value for it, and its identity lies behind the next one.
pub open spec fn stale<ST: Store>(s: Ecs<ST>, e: Entity) -> bool {
    &&& !s.live().contains(e)
    &&& !s.registry().store_holds(e)
    &&& e.uid() < s.spec_next_uid()
}

/// Staleness of a handle at each state of a run that starts where it is
/// stale.
proof fn lemma_stale_along<ST: Store>(
    states: Seq<Ecs<ST>>,
    made: Seq<Option<Entity>>,
    targets: Seq<Entity>,
    e: Entity,
    k: int,
)
    requires
        is_run(states, made, targets),
        stale(states[0], e),
        0 <= k < states.len(),
    ensures
        stale(states[k], e),
    decreases k,
{
    if k > 0 {
        lemma_stale_along(states, made, targets, e, k - 1);
        assert(run_step(states[k - 1], states[k], made[k - 1], targets[k - 1]));
    }
}

/// A removed handle stays dead: after `remove(e)` of a live `e`, along any
/// run of `make` and `remove` calls `contains(e)` stays false, no container
/// holds a value for `e`, and no `make` hands out the identity of `e`, even
/// where it hands out the slot of `e` again.
pub proof fn lemma_removed_stays_stale<ST: Store>(
    pre: Ecs<ST>,
    e: Entity,
    states: Seq<Ecs<ST>>,
    made: Seq<Option<Entity>>,
    targets: Seq<Entity>,
)
    requires
        pre.wf(),
        pre.live().contains(e),
        Ecs::removed_step(pre, states[0], e),
        is_run(states, made, targets),
    ensures
        forall|k: int| 0 <= k < states.len() ==> !#[trigger] states[k].live().contains(e),
        forall|k: int| 0 <= k < states.len() ==> !#[trigger] states[k].registry().store_holds(e),
        forall|k: int| 0 <= k < made.len() && #[trigger] made[k] is Some ==> made[k].unwrap().uid() != e.uid(),
{
    assert(stale(states[0], e));
    assert forall|k: int| 0 <= k < states.len() implies !#[trigger] states[k].live().contains(e) by {
        lemma_stale_along(states, made, targets, e, k);
    }
    assert forall|k: int| 0 <= k < states.len() implies !#[trigger] states[k].registry().store_holds(e) by {
        lemma_stale_along(states, made, targets, e, k);
    }
    assert forall|k: int| 0 <= k < made.len() && #[trigger] made[k] is Some implies made[k].unwrap().uid()
        != e.uid() by {
        lemma_stale_along(states, made, targets, e, k);
        assert(run_step(states[k], states[k + 1], made[k], targets[k]));
    }
}

/// Freed slots are reused last freed, first reused, and before any fresh
/// slot: after removing `a` and then `b`, the next `make` gets the slot of
/// `b` and the one after it the slot of `a`, and neither reserves a slot.
pub proof fn lemma_last_freed_first_reused<ST: Store>(
    s0: Ecs<ST>,
    a: Entity,
    s1: Ecs<ST>,
    b: Entity,
    s2: Ecs<ST>,
    r1: Entity,
    s3: Ecs<ST>,
    r2: Entity,
    s4: Ecs<ST>,
)
    requires
        s0.live().contains(a),
        s0.live().contains(b),
        a != b,
        Ecs::removed_step(s0, s1, a),
        Ecs::removed_step(s1, s2, b),
        Ecs::made_step(s2, s3, r1),
        Ecs::made_step(s3, s4, r2),
    ensures
        r1.idx() == b.idx(),
        r2.idx() == a.idx(),
        s4.spec_next_idx() == s0.spec_next_idx(),
        s4.free_slots() == s0.free_slots(),
{
    assert(s1.live().contains(b));
    assert(s2.free_slots() == s0.free_slots().push(a.idx()).push(b.idx()));
    assert(s3.free_slots() =~= s0.free_slots().push(a.idx()));
    assert(s4.free_slots() =~= s0.free_slots());
}

/// Taking a container apart with `into_parts` and rebuilding it with
/// `from_parts` succeeds, and the rebuilt container has the same slots and
/// holds the same values for the same entities in the same packed order.
pub proof fn lemma_container_round_trip<C>(c: ComponentData<C>, d: ComponentData<C>)
    requires
        c.wf(),
        d.values() == c.values(),
        d.owners() == c.owners(),
        d.records() == c.records(),
    ensures
        ComponentData::layout_ok(c.values(), c.owners(), c.records()),
        d.wf(),
        d.slots() == c.slots(),
        d.contents() == c.contents(),
{
    c.lemma_wf_is_layout();
    d.lemma_wf_is_layout();
    assert forall|k: int| 0 <= k < c.slots() implies d.entity_idx_to_data@[k] == c.entity_idx_to_data@[k] by {
        assert(d.records()[k] == c.records()[k]);
    }
    assert(d.entity_idx_to_data@ =~= c.entity_idx_to_data@);
    assert(d.contents() =~= c.contents());
}

/// Taking a system apart with `into_parts`, passing its liveness container
/// through `into_parts` and `from_parts`, and rebuilding the system with
/// `from_parts` succeeds. The rebuilt system has the same live entities in
/// the same order, the same next identity, slot count and free slots, and
/// the same components, so every later call behaves as on the original.
pub proof fn lemma_ecs_round_trip<ST: Store>(s: Ecs<ST>, d: ComponentData<bool>, t: Ecs<ST>)
    requires
        s.wf(),
        d.values() == s.active_part().values(),
        d.owners() == s.active_part().owners(),
        d.records() == s.active_part().records(),
        t.spec_next_uid() == s.spec_next_uid(),
        t.spec_next_idx() == s.spec_next_idx(),
        t.free_slots() == s.free_slots(),
        t.active_part() == d,
        t.registry() == s.registry(),
    ensures
        Ecs::parts_ok(s.spec_next_uid(), s.spec_next_idx(), s.free_slots(), d, s.registry()),
        t.wf(),
        t.live() == s.live(),
        t.live_order() == s.live_order(),
{
    lemma_container_round_trip(s.active_part(), d);
}

} // verus!
