//! What holds of every world, stated over the abstract model.
//!
//! Every operation of a world is one step of the model: `spawn` is
//! `Op::Spawn`, `destroy` is `Op::Destroy`, `add_component` and a write
//! through `get_mut` are `Op::Attach`, `remove` is `Op::Detach`, and the
//! writes through `query_mut` are `Op::Rewrite`. The laws below speak of
//! single steps and of whole sequences of them.

use vstd::prelude::*;
use std::any::TypeId;
use crate::ecs::component::{type_key, type_of, Component, Payload};
use crate::ecs::entity::Entity;
use crate::ecs::model::{next_generation, slot_limit, Model, Op};
use crate::ecs::rows::{holds, lemma_holds, lookup, position};

verus! {

/// Every operation keeps the invariant of the state.
pub proof fn law_step_keeps_invariant(model: Model, op: Op)
    requires
        model.wf(),
        model.admits(op),
    ensures
        model.step(op).wf(),
{
    match op {
        Op::Spawn => model.lemma_spawned(),
        Op::Destroy(entity) => model.lemma_destroyed(entity),
        Op::Attach(entity, key, payload) => model.lemma_with_component(entity, key, payload),
        Op::Detach(entity, key) => model.lemma_without_component(entity, key),
        Op::Rewrite(key, payloads) => model.lemma_rewritten(key, payloads),
    }
}

/// The invariant holds after every sequence of operations on a new world.
pub proof fn law_invariant_always(ops: Seq<Op>)
    requires
        Model::empty().admits_all(ops),
    ensures
        Model::empty().run(ops).wf(),
{
    law_run_keeps_invariant(Model::empty(), ops);
}

/// Every sequence of operations keeps the invariant of the state.
pub proof fn law_run_keeps_invariant(model: Model, ops: Seq<Op>)
    requires
        model.wf(),
        model.admits_all(ops),
    ensures
        model.run(ops).wf(),
    decreases ops.len(),
{
    if ops.len() > 0 {
        law_step_keeps_invariant(model, ops[0]);
        law_run_keeps_invariant(model.step(ops[0]), ops.drop_first());
    }
}

/// Slots grow monotonically: no operation takes a slot away, and only
/// creation adds one, at most one at a time.
pub proof fn law_slots_grow(model: Model, op: Op)
    requires
        model.wf(),
    ensures
        model.slots.len() <= model.step(op).slots.len() <= model.slots.len() + 1,
        op != Op::Spawn ==> model.step(op).slots.len() == model.slots.len(),
{
}

/// A live entity stays alive through every operation but its own
/// destruction.
pub proof fn law_alive_until_destroyed(model: Model, op: Op, entity: Entity)
    requires
        model.wf(),
        model.admits(op),
        model.is_alive(entity),
        !op.destroys(entity),
    ensures
        model.step(op).is_alive(entity),
{
    match op {
        Op::Spawn => model.lemma_spawned(),
        Op::Destroy(other) => model.lemma_destroyed(other),
        _ => {},
    }
}

/// A handle that is not alive stays so through every operation, but for the
/// creation that yields it.
pub proof fn law_dead_until_spawned(model: Model, op: Op, entity: Entity)
    requires
        model.wf(),
        model.admits(op),
        !model.is_alive(entity),
        !(op == Op::Spawn && model.next_entity() == entity),
    ensures
        !model.step(op).is_alive(entity),
{
    match op {
        Op::Spawn => model.lemma_spawned(),
        Op::Destroy(other) => model.lemma_destroyed(other),
        _ => {},
    }
}

/// Creation yields a handle that was not alive and is alive afterwards.
pub proof fn law_spawn_yields_live_entity(model: Model)
    requires
        model.wf(),
        model.has_room(),
    ensures
        !model.is_alive(model.next_entity()),
        model.spawned().is_alive(model.next_entity()),
{
    model.lemma_spawned();
}

/// A live entity stays alive through every sequence of operations that does
/// not destroy it.
pub proof fn law_alive_through(model: Model, ops: Seq<Op>, entity: Entity)
    requires
        model.wf(),
        model.admits_all(ops),
        model.is_alive(entity),
        forall|i: int| 0 <= i < ops.len() ==> !(#[trigger] ops[i]).destroys(entity),
    ensures
        model.run(ops).is_alive(entity),
    decreases ops.len(),
{
    if ops.len() > 0 {
        law_step_keeps_invariant(model, ops[0]);
        law_alive_until_destroyed(model, ops[0], entity);
        let rest = ops.drop_first();
        assert forall|i: int| 0 <= i < rest.len() implies !(#[trigger] rest[i]).destroys(entity) by {
            assert(rest[i] == ops[i + 1]);
        }
        law_alive_through(model.step(ops[0]), rest, entity);
    }
}

/// The component of type `C` of an entity is the same after every operation
/// that does not write or remove it, and does not destroy the entity.
pub proof fn law_component_persists<C: Component>(model: Model, op: Op, entity: Entity)
    requires
        model.wf(),
        model.admits(op),
        !op.touches(entity, type_key::<C>()),
    ensures
        model.step(op).component::<C>(entity) == model.component::<C>(entity),
{
    let key = type_key::<C>();
    match op {
        Op::Spawn => {},
        Op::Destroy(other) => model.lemma_destroyed(other),
        Op::Attach(other, k, payload) => model.lemma_with_component(other, k, payload),
        Op::Detach(other, k) => model.lemma_without_component(other, k),
        Op::Rewrite(k, payloads) => model.lemma_rewritten(k, payloads),
    }
}

/// A component that was added is the entity's component after every sequence
/// of operations that neither writes nor removes it, nor destroys the entity.
pub proof fn law_component_through<C: Component>(model: Model, ops: Seq<Op>, entity: Entity)
    requires
        model.wf(),
        model.admits_all(ops),
        forall|i: int| 0 <= i < ops.len() ==> !(#[trigger] ops[i]).touches(entity, type_key::<C>()),
    ensures
        model.run(ops).component::<C>(entity) == model.component::<C>(entity),
    decreases ops.len(),
{
    if ops.len() > 0 {
        law_step_keeps_invariant(model, ops[0]);
        law_component_persists::<C>(model, ops[0], entity);
        let rest = ops.drop_first();
        assert forall|i: int| 0 <= i < rest.len() implies !(#[trigger] rest[i]).touches(
            entity,
            type_key::<C>(),
        ) by {
            assert(rest[i] == ops[i + 1]);
        }
        law_component_through::<C>(model.step(ops[0]), rest, entity);
    }
}

/// A query for `C` lists an entity with a component exactly if that is the
/// entity's component of type `C`, and lists no entity twice.
pub proof fn law_query_lists_components<C: Component>(model: Model, entity: Entity, component: C)
    requires
        model.wf(),
    ensures
        model.query::<C>().contains((entity, component)) <==> model.component::<C>(entity) == Some(
            component,
        ),
        forall|i: int, j: int|
            0 <= i < model.query::<C>().len() && 0 <= j < model.query::<C>().len() && i != j
                ==> model.query::<C>()[i].0 != model.query::<C>()[j].0,
{
    let key = type_key::<C>();
    let rows = model.table(key);
    let listed = model.query::<C>();
    model.lemma_table(key);
    if listed.contains((entity, component)) {
        let d = choose|d: int| 0 <= d < listed.len() && listed[d] == (entity, component);
        lemma_holds(rows, d);
    }
    if model.component::<C>(entity) == Some(component) {
        let d = position(rows, entity.index);
        assert(listed[d] == (entity, component));
    }
}

/// A row is among the first `n` joined rows exactly if it joins one of the
/// first `n` rows of `A` with the entity's `B`.
proof fn lemma_joined<A: Component, B: Component>(
    model: Model,
    n: nat,
    entity: Entity,
    a: A,
    b: B,
)
    requires
        n <= model.query::<A>().len(),
    ensures
        model.joined::<A, B>(n).contains((entity, (a, b))) <==> model.component::<B>(entity)
            == Some(b) && exists|d: int| 0 <= d < n && #[trigger] model.query::<A>()[d] == (entity, a),
    decreases n,
{
    if n > 0 {
        let rest = model.joined::<A, B>((n - 1) as nat);
        let row = model.query::<A>()[n - 1];
        let all = model.joined::<A, B>(n);
        let wanted = (entity, (a, b));
        lemma_joined::<A, B>(model, (n - 1) as nat, entity, a, b);
        if all.contains(wanted) {
            let i = choose|i: int| 0 <= i < all.len() && all[i] == wanted;
            if i < rest.len() {
                assert(rest[i] == wanted);
                assert(rest.contains(wanted));
            } else {
                assert(model.query::<A>()[n - 1] == (entity, a));
            }
        }
        if model.component::<B>(entity) == Some(b) && exists|d: int|
            0 <= d < n && #[trigger] model.query::<A>()[d] == (entity, a) {
            let d = choose|d: int| 0 <= d < n && #[trigger] model.query::<A>()[d] == (entity, a);
            if d < n - 1 {
                assert(rest.contains(wanted));
                let i = choose|i: int| 0 <= i < rest.len() && rest[i] == wanted;
                assert(all[i] == wanted);
            } else {
                assert(all[rest.len() as int] == wanted);
            }
        }
    }
}

/// A query for `A` and `B` lists an entity with two components exactly if
/// they are the entity's components of those types.
pub proof fn law_query2_lists_both<A: Component, B: Component>(
    model: Model,
    entity: Entity,
    a: A,
    b: B,
)
    requires
        model.wf(),
    ensures
        model.query2::<A, B>().contains((entity, (a, b))) <==> model.component::<A>(entity)
            == Some(a) && model.component::<B>(entity) == Some(b),
{
    let listed = model.query::<A>();
    lemma_joined::<A, B>(model, listed.len(), entity, a, b);
    law_query_lists_components::<A>(model, entity, a);
    if listed.contains((entity, a)) {
        let d = choose|d: int| 0 <= d < listed.len() && listed[d] == (entity, a);
        assert(model.query::<A>()[d] == (entity, a));
    }
}

/// What is not alive has no component and is in no query.
pub proof fn law_dead_has_nothing<C: Component>(model: Model, entity: Entity)
    requires
        model.wf(),
        !model.is_alive(entity),
    ensures
        model.component::<C>(entity) is None,
        forall|d: int| 0 <= d < model.query::<C>().len() ==> (#[trigger] model.query::<C>()[d]).0
            != entity,
{
    let rows = model.table(type_key::<C>());
    model.lemma_table(type_key::<C>());
    if holds(rows, entity) {
        assert(model.is_alive(rows[position(rows, entity.index)].0));
    }
    assert forall|d: int| 0 <= d < model.query::<C>().len() implies (#[trigger] model.query::<C>()[d]).0
        != entity by {
        assert(model.is_alive(rows[d].0));
    }
}

/// After an entity is destroyed it is not alive, it has no component of any
/// type, and no query lists it.
pub proof fn law_destroy_clears<C: Component>(model: Model, entity: Entity)
    requires
        model.wf(),
    ensures
        !model.destroyed(entity).is_alive(entity),
        model.destroyed(entity).component::<C>(entity) is None,
        forall|d: int|
            0 <= d < model.destroyed(entity).query::<C>().len() ==> (#[trigger] model.destroyed(
                entity,
            ).query::<C>()[d]).0 != entity,
{
    model.lemma_destroyed(entity);
    law_dead_has_nothing::<C>(model.destroyed(entity), entity);
}

/// Destroying what is not alive changes nothing: a second destruction of the
/// same handle finds it not alive and leaves the state as it is.
pub proof fn law_destroy_twice(model: Model, entity: Entity)
    requires
        model.wf(),
    ensures
        !model.destroyed(entity).is_alive(entity),
        model.destroyed(entity).destroyed(entity) == model.destroyed(entity),
{
    model.lemma_destroyed(entity);
}

/// The creation that follows a destruction reuses the slot at the next
/// generation: the new handle has the index of the destroyed one and differs
/// from it.
pub proof fn law_reuse_advances_generation(model: Model, entity: Entity)
    requires
        model.wf(),
        model.is_alive(entity),
    ensures
        model.destroyed(entity).has_room(),
        model.destroyed(entity).next_entity().index == entity.index,
        model.destroyed(entity).next_entity().generation == next_generation(entity.generation),
        model.destroyed(entity).next_entity() != entity,
{
}

/// How many creations of the sequence yield a handle of slot `index`.
pub open spec fn reuses(model: Model, ops: Seq<Op>, index: u32) -> nat
    decreases ops.len(),
{
    if ops.len() == 0 {
        0
    } else {
        let here: nat = if ops[0] == Op::Spawn && model.next_entity().index == index {
            1
        } else {
            0
        };
        here + reuses(model.step(ops[0]), ops.drop_first(), index)
    }
}

/// A slot whose generation is `count` steps past that of a handle, and which
/// is dead if `count` is zero, does not make the handle alive again while
/// the counter has not wrapped.
proof fn lemma_generation_after(model: Model, ops: Seq<Op>, entity: Entity, count: nat)
    requires
        model.wf(),
        model.admits_all(ops),
        entity.index < model.slots.len(),
        model.slots[entity.index as int].generation == (entity.generation + count) % slot_limit(),
        count == 0 ==> !model.slots[entity.index as int].alive,
        count + reuses(model, ops, entity.index) < slot_limit(),
    ensures
        !model.run(ops).is_alive(entity),
    decreases ops.len(),
{
    if ops.len() > 0 {
        let op = ops[0];
        let next = model.step(op);
        law_step_keeps_invariant(model, op);
        match op {
            Op::Spawn => {
                model.lemma_spawned();
                if model.next_entity().index == entity.index {
                    assert(model.free.len() > 0);
                    lemma_generation_after(next, ops.drop_first(), entity, count + 1);
                } else {
                    lemma_generation_after(next, ops.drop_first(), entity, count);
                }
            },
            Op::Destroy(other) => {
                model.lemma_destroyed(other);
                lemma_generation_after(next, ops.drop_first(), entity, count);
            },
            _ => {
                lemma_generation_after(next, ops.drop_first(), entity, count);
            },
        }
    }
}

/// Generation discipline: once an entity is destroyed, its handle is never
/// alive again and never has a component, whatever is done to later
/// occupants of its slot, as long as the slot is reused fewer times than the
/// generation counter has values.
pub proof fn law_generation_discipline<C: Component>(model: Model, entity: Entity, ops: Seq<Op>)
    requires
        model.wf(),
        model.is_alive(entity),
        model.destroyed(entity).admits_all(ops),
        reuses(model.destroyed(entity), ops, entity.index) < slot_limit(),
    ensures
        !model.destroyed(entity).run(ops).is_alive(entity),
        model.destroyed(entity).run(ops).component::<C>(entity) is None,
{
    let dead = model.destroyed(entity);
    model.lemma_destroyed(entity);
    lemma_generation_after(dead, ops, entity, 0);
    law_run_keeps_invariant(dead, ops);
    law_dead_has_nothing::<C>(dead.run(ops), entity);
}

/// At most one generation of a slot is alive: beside a live entity, every
/// other handle of its index is stale. It is not alive and has no component,
/// whatever the live entity has.
pub proof fn law_stale_handle<C: Component>(model: Model, live: Entity, stale: Entity)
    requires
        model.wf(),
        model.is_alive(live),
        stale.index == live.index,
        stale != live,
    ensures
        !model.is_alive(stale),
        model.component::<C>(stale) is None,
{
    law_dead_has_nothing::<C>(model, stale);
}

/// A handle whose index no creation has issued is not alive and has no
/// component.
pub proof fn law_unseen_index<C: Component>(model: Model, entity: Entity)
    requires
        model.wf(),
        entity.index >= model.slots.len(),
    ensures
        !model.is_alive(entity),
        model.component::<C>(entity) is None,
{
    law_dead_has_nothing::<C>(model, entity);
}

/// After a component is attached it is found under its entity.
pub proof fn law_attach_then_lookup(model: Model, entity: Entity, key: TypeId, payload: Payload)
    requires
        model.wf(),
        model.is_alive(entity),
        type_of(payload) == key,
    ensures
        lookup(model.with_component(entity, key, payload).table(key), entity) == Some(payload),
{
    model.lemma_with_component(entity, key, payload);
}

/// After the component of a type is detached from a live entity, the entity
/// has none of that type.
pub proof fn law_detach_clears<C: Component>(model: Model, entity: Entity)
    requires
        model.wf(),
        model.is_alive(entity),
    ensures
        model.without_component(entity, type_key::<C>()).component::<C>(entity) is None,
{
    model.lemma_without_component(entity, type_key::<C>());
}

/// Detaching a component that the entity does not have changes nothing.
pub proof fn law_detach_absent<C: Component>(model: Model, entity: Entity)
    requires
        model.component::<C>(entity) is None,
    ensures
        model.without_component(entity, type_key::<C>()) == model,
{
    model.lemma_without_absent(entity, type_key::<C>());
}

/// A query for a type that was never registered yields nothing.
pub proof fn law_unregistered_query_empty<C: Component>(model: Model)
    requires
        !model.tables.dom().contains(type_key::<C>()),
    ensures
        model.query::<C>().len() == 0,
{
}

/// Only attaching registers a type: a type that is not registered stays so
/// through every other operation.
pub proof fn law_registered_by_attach(model: Model, op: Op, key: TypeId)
    requires
        !model.tables.dom().contains(key),
        !(op matches Op::Attach(_, k, _) && k == key),
    ensures
        !model.step(op).tables.dom().contains(key),
{
}

} // verus!
