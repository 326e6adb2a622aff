//! The abstract state of an entity-component system, and its transitions.
//!
//! A world is modelled by its slot table, its free list and, for every
//! registered component type, the rows of that type in dense order, each
//! component in erased form. Every operation of a backend is stated as one
//! transition of this model.

use vstd::prelude::*;
use std::any::TypeId;
use crate::ecs::component::{inner, type_key, type_of, Component, Payload};
use crate::ecs::entity::Entity;
use crate::ecs::rows::{
    distinct_indices, holds, lemma_position, lemma_swap_removed, lemma_upsert_other, lookup,
    occupies, position, swap_removed, upsert,
};

verus! {

/// The state of one entity slot: the generation of its current or last
/// occupant, and whether that occupant is alive.
#[derive(Debug, Copy, Clone)]
pub struct Slot {
    pub generation: u32,
    pub alive: bool,
}

/// The abstract state of a world.
pub ghost struct Model {
    /// One slot per index ever issued.
    pub slots: Seq<Slot>,
    /// Indices of dead slots, the next one to reuse last.
    pub free: Seq<u32>,
    /// The rows of every registered component type, in dense order.
    pub tables: Map<TypeId, Seq<(Entity, Payload)>>,
}

/// The generation that follows `generation`; the counter wraps.
pub open spec fn next_generation(generation: u32) -> u32 {
    if generation == u32::MAX {
        0
    } else {
        (generation + 1) as u32
    }
}

/// The number of slots that an index of 32 bits can address.
pub open spec fn slot_limit() -> int {
    0x1_0000_0000
}

/// One state-changing operation of a world.
pub ghost enum Op {
    /// Create an entity.
    Spawn,
    /// Destroy an entity.
    Destroy(Entity),
    /// Attach a component, erased, of the type that the key identifies:
    /// adding a component, or writing one through a mutable reference.
    Attach(Entity, TypeId, Payload),
    /// Detach the component of the type that the key identifies.
    Detach(Entity, TypeId),
    /// Rewrite the components of the type that the key identifies, row by
    /// row: what writing through a mutable query does.
    Rewrite(TypeId, Seq<Payload>),
}

impl Op {
    /// The operation is the destruction of `entity`.
    pub open spec fn destroys(self, entity: Entity) -> bool {
        self == Op::Destroy(entity)
    }

    /// The operation writes or removes the component of type `key` of
    /// `entity`.
    pub open spec fn touches(self, entity: Entity, key: TypeId) -> bool {
        match self {
            Op::Spawn => false,
            Op::Destroy(e) => e == entity,
            Op::Attach(e, k, _) => e == entity && k == key,
            Op::Detach(e, k) => e == entity && k == key,
            Op::Rewrite(k, _) => k == key,
        }
    }
}

/// The slot `index` is on the free list.
pub open spec fn on_free_list(free: Seq<u32>, index: int) -> bool {
    exists|i: int| 0 <= i < free.len() && #[trigger] free[i] == index
}

/// What holds of the slot table and the free list: there are at most as many
/// slots as an index can address, and the free list holds exactly the dead
/// slots, each once.
pub open spec fn slots_wf(slots: Seq<Slot>, free: Seq<u32>) -> bool {
    &&& slots.len() <= slot_limit()
    &&& forall|i: int|
        0 <= i < free.len() ==> (#[trigger] free[i]) < slots.len() && !slots[free[i] as int].alive
    &&& forall|i: int, j: int|
        0 <= i < free.len() && 0 <= j < free.len() && i != j ==> free[i] != free[j]
    &&& forall|index: int|
        0 <= index < slots.len() && !(#[trigger] slots[index]).alive ==> on_free_list(free, index)
}

impl Model {
    /// The state of a new world: no slot, no registered type.
    pub open spec fn empty() -> Model {
        Model { slots: Seq::empty(), free: Seq::empty(), tables: Map::empty() }
    }

    /// The single source of truth for aliveness: the slot exists, is alive,
    /// and has the generation of the handle.
    pub open spec fn is_alive(self, entity: Entity) -> bool {
        &&& entity.index < self.slots.len()
        &&& self.slots[entity.index as int].alive
        &&& self.slots[entity.index as int].generation == entity.generation
    }

    /// The rows of the type `key`; none if the type is not registered.
    pub open spec fn table(self, key: TypeId) -> Seq<(Entity, Payload)> {
        if self.tables.dom().contains(key) {
            self.tables[key]
        } else {
            Seq::empty()
        }
    }

    /// What holds of the rows of one registered type: no index twice, every
    /// row belongs to a live entity, every component is of the type.
    pub open spec fn table_wf(self, key: TypeId) -> bool {
        &&& distinct_indices(self.tables[key])
        &&& forall|d: int|
            0 <= d < self.tables[key].len() ==> self.is_alive((#[trigger] self.tables[key][d]).0)
                && type_of(self.tables[key][d].1) == key
    }

    /// The invariant of the state: the slot table and the free list agree,
    /// and every table is well-formed.
    pub open spec fn wf(self) -> bool {
        &&& slots_wf(self.slots, self.free)
        &&& forall|key: TypeId| #[trigger] self.tables.dom().contains(key) ==> self.table_wf(key)
    }

    /// An entity can be created: a slot is free, or an index is left.
    pub open spec fn has_room(self) -> bool {
        self.free.len() > 0 || self.slots.len() < slot_limit()
    }

    /// The handle that the next creation yields: the most recently freed slot
    /// with its generation advanced, or else a fresh slot at generation 0.
    pub open spec fn next_entity(self) -> Entity {
        if self.free.len() > 0 {
            Entity {
                index: self.free.last(),
                generation: next_generation(self.slots[self.free.last() as int].generation),
            }
        } else {
            Entity { index: self.slots.len() as u32, generation: 0 }
        }
    }

    /// The state after creating an entity.
    pub open spec fn spawned(self) -> Model {
        let entity = self.next_entity();
        let slot = Slot { generation: entity.generation, alive: true };
        if self.free.len() > 0 {
            Model {
                slots: self.slots.update(entity.index as int, slot),
                free: self.free.drop_last(),
                tables: self.tables,
            }
        } else {
            Model { slots: self.slots.push(slot), free: self.free, tables: self.tables }
        }
    }

    /// The state after destroying `entity`: its rows are removed from every
    /// table, its slot is marked dead at the same generation, and its index
    /// is pushed on the free list. A handle that is not alive changes
    /// nothing.
    pub open spec fn destroyed(self, entity: Entity) -> Model {
        if self.is_alive(entity) {
            Model {
                slots: self.slots.update(
                    entity.index as int,
                    Slot { generation: entity.generation, alive: false },
                ),
                free: self.free.push(entity.index),
                tables: self.tables.map_values(
                    |rows: Seq<(Entity, Payload)>| swap_removed(rows, entity),
                ),
            }
        } else {
            self
        }
    }

    /// The state after attaching `payload`, of type `key`, to `entity`. The
    /// type is registered on first use. A handle that is not alive changes
    /// nothing.
    pub open spec fn with_component(self, entity: Entity, key: TypeId, payload: Payload) -> Model {
        if self.is_alive(entity) {
            Model {
                tables: self.tables.insert(key, upsert(self.table(key), entity, payload)),
                ..self
            }
        } else {
            self
        }
    }

    /// The state after detaching the component of type `key` from `entity`.
    /// A handle that is not alive, or a type that is not registered, changes
    /// nothing.
    pub open spec fn without_component(self, entity: Entity, key: TypeId) -> Model {
        if self.is_alive(entity) && self.tables.dom().contains(key) {
            Model {
                tables: self.tables.insert(key, swap_removed(self.tables[key], entity)),
                ..self
            }
        } else {
            self
        }
    }

    /// The operation can be performed: there is room for a new entity, and a
    /// component that gets attached is of the type it is attached as.
    pub open spec fn admits(self, op: Op) -> bool {
        match op {
            Op::Spawn => self.has_room(),
            Op::Attach(entity, key, payload) => self.is_alive(entity) ==> type_of(payload) == key,
            Op::Rewrite(key, payloads) => forall|d: int|
                0 <= d < payloads.len() ==> type_of(#[trigger] payloads[d]) == key,
            _ => true,
        }
    }

    /// The state after one operation.
    pub open spec fn step(self, op: Op) -> Model {
        match op {
            Op::Spawn => self.spawned(),
            Op::Destroy(entity) => self.destroyed(entity),
            Op::Attach(entity, key, payload) => self.with_component(entity, key, payload),
            Op::Detach(entity, key) => self.without_component(entity, key),
            Op::Rewrite(key, payloads) => self.rewritten(key, payloads),
        }
    }

    /// Every operation of the sequence can be performed in its turn.
    pub open spec fn admits_all(self, ops: Seq<Op>) -> bool
        decreases ops.len(),
    {
        if ops.len() == 0 {
            true
        } else {
            self.admits(ops[0]) && self.step(ops[0]).admits_all(ops.drop_first())
        }
    }

    /// The state after a sequence of operations.
    pub open spec fn run(self, ops: Seq<Op>) -> Model
        decreases ops.len(),
    {
        if ops.len() == 0 {
            self
        } else {
            self.step(ops[0]).run(ops.drop_first())
        }
    }

    /// The component of type `C` attached to `entity`, if any.
    pub open spec fn component<C: Component>(self, entity: Entity) -> Option<C> {
        match lookup(self.table(type_key::<C>()), entity) {
            Some(payload) => Some(inner::<C>(payload)),
            None => None,
        }
    }

    /// What a query for `C` yields: every row of the type, in dense order.
    pub open spec fn query<C: Component>(self) -> Seq<(Entity, C)> {
        let rows = self.table(type_key::<C>());
        Seq::new(rows.len(), |d: int| (rows[d].0, inner::<C>(rows[d].1)))
    }

    /// The first `n` rows of a query for `A`, each joined with the entity's
    /// component of type `B`; rows of entities without a `B` are left out.
    pub open spec fn joined<A: Component, B: Component>(self, n: nat) -> Seq<(Entity, (A, B))>
        decreases n,
    {
        if n == 0 {
            Seq::empty()
        } else {
            let rest = self.joined::<A, B>((n - 1) as nat);
            let row = self.query::<A>()[n - 1];
            match self.component::<B>(row.0) {
                Some(b) => rest.push((row.0, (row.1, b))),
                None => rest,
            }
        }
    }

    /// What a query for `A` and `B` yields: the rows of `A`, in dense order,
    /// of the entities that also have a `B`.
    pub open spec fn query2<A: Component, B: Component>(self) -> Seq<(Entity, (A, B))> {
        self.joined::<A, B>(self.query::<A>().len())
    }

    /// The rows of every type are well-formed, registered or not.
    pub proof fn lemma_table(self, key: TypeId)
        requires
            self.wf(),
        ensures
            distinct_indices(self.table(key)),
            forall|d: int|
                0 <= d < self.table(key).len() ==> self.is_alive((#[trigger] self.table(key)[d]).0)
                    && type_of(self.table(key)[d].1) == key,
    {
        if self.tables.dom().contains(key) {
            assert(self.table_wf(key));
        }
    }

    /// A live entity at an index is the only handle that any table holds at
    /// that index.
    pub proof fn lemma_row_of_alive(self, key: TypeId, entity: Entity)
        requires
            self.wf(),
            self.is_alive(entity),
        ensures
            occupies(self.table(key), entity.index) == holds(self.table(key), entity),
    {
        self.lemma_table(key);
        if occupies(self.table(key), entity.index) {
            let d = position(self.table(key), entity.index);
            assert(self.is_alive(self.table(key)[d].0));
        }
    }

    /// Creation keeps the invariant; the handle it yields was not alive
    /// before and is alive after.
    pub proof fn lemma_spawned(self)
        requires
            self.wf(),
            self.has_room(),
        ensures
            self.spawned().wf(),
            !self.is_alive(self.next_entity()),
            self.spawned().is_alive(self.next_entity()),
            forall|other: Entity|
                other != self.next_entity() ==> self.spawned().is_alive(other) == self.is_alive(
                    other,
                ),
    {
        let entity = self.next_entity();
        let after = self.spawned();
        if self.free.len() > 0 {
            let last = self.free.len() - 1;
            assert(self.free[last] == entity.index);
            assert forall|i: int| 0 <= i < after.free.len() implies (#[trigger] after.free[i])
                < after.slots.len() && !after.slots[after.free[i] as int].alive by {
                assert(after.free[i] == self.free[i]);
                assert(self.free[i] != self.free[last]);
            }
            assert forall|i: int, j: int|
                0 <= i < after.free.len() && 0 <= j < after.free.len() && i != j implies after.free[i]
                != after.free[j] by {
                assert(after.free[i] == self.free[i] && after.free[j] == self.free[j]);
            }
        }
        assert forall|index: int|
            0 <= index < after.slots.len() && !(#[trigger] after.slots[index]).alive
            implies on_free_list(after.free, index) by {
            assert(!self.slots[index].alive);
            let i = choose|i: int| 0 <= i < self.free.len() && #[trigger] self.free[i] == index;
            assert(after.free[i] == index);
        }
        assert forall|key: TypeId| #[trigger] after.tables.dom().contains(key) implies after.table_wf(
            key,
        ) by {
            assert(self.table_wf(key));
            assert forall|d: int| 0 <= d < after.tables[key].len() implies after.is_alive(
                (#[trigger] after.tables[key][d]).0,
            ) by {
                assert(self.is_alive(self.tables[key][d].0));
            }
        }
    }

    /// Destruction keeps the invariant; the handle is not alive after, no
    /// table holds it, and every other handle is as alive as before.
    pub proof fn lemma_destroyed(self, entity: Entity)
        requires
            self.wf(),
        ensures
            self.destroyed(entity).wf(),
            !self.destroyed(entity).is_alive(entity),
            forall|other: Entity|
                other != entity ==> self.destroyed(entity).is_alive(other) == self.is_alive(other),
            forall|key: TypeId| !holds(#[trigger] self.destroyed(entity).table(key), entity),
            forall|key: TypeId, other: Entity|
                other != entity ==> #[trigger] lookup(self.destroyed(entity).table(key), other)
                    == lookup(self.table(key), other),
    {
        let after = self.destroyed(entity);
        if self.is_alive(entity) {
            assert forall|i: int| 0 <= i < after.free.len() implies (#[trigger] after.free[i])
                < after.slots.len() && !after.slots[after.free[i] as int].alive by {
                if i < self.free.len() {
                    assert(after.free[i] == self.free[i]);
                }
            }
            assert forall|i: int, j: int|
                0 <= i < after.free.len() && 0 <= j < after.free.len() && i != j implies after.free[i]
                != after.free[j] by {
                if i < self.free.len() {
                    assert(after.free[i] == self.free[i]);
                }
                if j < self.free.len() {
                    assert(after.free[j] == self.free[j]);
                }
            }
            assert forall|index: int|
                0 <= index < after.slots.len() && !(#[trigger] after.slots[index]).alive
                implies on_free_list(after.free, index) by {
                if index == entity.index {
                    assert(after.free[self.free.len() as int] == index);
                } else {
                    let i = choose|i: int|
                        0 <= i < self.free.len() && #[trigger] self.free[i] == index;
                    assert(after.free[i] == index);
                }
            }
            assert forall|key: TypeId| #[trigger] after.tables.dom().contains(key) implies after.table_wf(
                key,
            ) by {
                assert(self.tables.dom().contains(key));
                assert(self.table_wf(key));
                let before = self.tables[key];
                let rows = after.tables[key];
                assert(rows == swap_removed(before, entity));
                lemma_swap_removed(before, entity);
                self.lemma_row_of_alive(key, entity);
                assert forall|d: int| 0 <= d < rows.len() implies after.is_alive(
                    (#[trigger] rows[d]).0,
                ) && type_of(rows[d].1) == key by {
                    if holds(before, entity) {
                        let p = position(before, entity.index);
                        let last = before.len() - 1;
                        let source = if d == p { last } else { d };
                        assert(rows[d] == before[source]);
                        assert(self.is_alive(before[source].0));
                        if before[source].0.index == entity.index {
                            lemma_position(before, source);
                            lemma_position(rows, d);
                            assert(occupies(rows, entity.index));
                        }
                    } else {
                        assert(rows[d] == before[d]);
                        assert(self.is_alive(before[d].0));
                        if before[d].0.index == entity.index {
                            lemma_position(before, d);
                        }
                    }
                }
            }
        }
        assert forall|key: TypeId| !holds(#[trigger] after.table(key), entity) by {
            self.lemma_table(key);
            lemma_swap_removed(self.table(key), entity);
            if self.is_alive(entity) {
                if self.tables.dom().contains(key) {
                    assert(after.table(key) == swap_removed(self.table(key), entity));
                }
            } else {
                if holds(self.table(key), entity) {
                    let d = position(self.table(key), entity.index);
                    assert(self.is_alive(self.table(key)[d].0));
                }
            }
        }
        assert forall|key: TypeId, other: Entity| other != entity implies #[trigger] lookup(
            after.table(key),
            other,
        ) == lookup(self.table(key), other) by {
            self.lemma_table(key);
            lemma_swap_removed(self.table(key), entity);
            if self.is_alive(entity) && self.tables.dom().contains(key) {
                assert(after.table(key) == swap_removed(self.table(key), entity));
            }
        }
    }

    /// Attaching keeps the invariant; the payload is found under the entity,
    /// and every other row of every table is as before.
    pub proof fn lemma_with_component(self, entity: Entity, key: TypeId, payload: Payload)
        requires
            self.wf(),
            self.is_alive(entity) ==> type_of(payload) == key,
        ensures
            self.with_component(entity, key, payload).wf(),
            self.is_alive(entity) ==> lookup(
                self.with_component(entity, key, payload).table(key),
                entity,
            ) == Some(payload),
            forall|other: Entity|
                other != entity ==> #[trigger] lookup(
                    self.with_component(entity, key, payload).table(key),
                    other,
                ) == lookup(self.table(key), other),
            forall|other: TypeId|
                other != key ==> #[trigger] self.with_component(entity, key, payload).table(other)
                    == self.table(other),
    {
        let after = self.with_component(entity, key, payload);
        self.lemma_table(key);
        if self.is_alive(entity) {
            let before = self.table(key);
            let rows = upsert(before, entity, payload);
            assert(after.tables[key] == rows);
            crate::ecs::rows::lemma_upsert(before, entity, payload);
            self.lemma_row_of_alive(key, entity);
            assert forall|other: Entity| other != entity implies #[trigger] lookup(
                after.table(key),
                other,
            ) == lookup(before, other) by {
                if other.index != entity.index {
                    lemma_upsert_other(before, entity, payload, other);
                } else {
                    if holds(before, other) {
                        let d = position(before, other.index);
                        assert(self.is_alive(before[d].0));
                    }
                    if holds(rows, other) {
                        let d = position(rows, other.index);
                        if occupies(before, entity.index) {
                            let q = position(before, entity.index);
                            assert(rows[q].0 == entity);
                            lemma_position(rows, q);
                        } else {
                            assert(rows[before.len() as int].0 == entity);
                            lemma_position(rows, before.len() as int);
                        }
                    }
                }
            }
            assert forall|k: TypeId| #[trigger] after.tables.dom().contains(k) implies after.table_wf(
                k,
            ) by {
                if k == key {
                    assert forall|d: int| 0 <= d < rows.len() implies after.is_alive(
                        (#[trigger] rows[d]).0,
                    ) && type_of(rows[d].1) == key by {
                        if occupies(before, entity.index) {
                            if d != position(before, entity.index) {
                                assert(rows[d] == before[d]);
                            }
                        } else {
                            if d < before.len() {
                                assert(rows[d] == before[d]);
                            }
                        }
                    }
                } else {
                    assert(self.tables.dom().contains(k));
                    assert(self.table_wf(k));
                }
            }
        }
    }

    /// Detaching keeps the invariant; the entity has no row of the type
    /// after, and every other row of every table is as before.
    pub proof fn lemma_without_component(self, entity: Entity, key: TypeId)
        requires
            self.wf(),
        ensures
            self.without_component(entity, key).wf(),
            self.is_alive(entity) ==> lookup(self.without_component(entity, key).table(key), entity)
                is None,
            forall|other: Entity|
                other != entity ==> #[trigger] lookup(
                    self.without_component(entity, key).table(key),
                    other,
                ) == lookup(self.table(key), other),
            forall|other: TypeId|
                other != key ==> #[trigger] self.without_component(entity, key).table(other)
                    == self.table(other),
    {
        let after = self.without_component(entity, key);
        self.lemma_table(key);
        lemma_swap_removed(self.table(key), entity);
        if self.is_alive(entity) && self.tables.dom().contains(key) {
            let before = self.tables[key];
            let rows = swap_removed(before, entity);
            assert(after.tables[key] == rows);
            assert forall|k: TypeId| #[trigger] after.tables.dom().contains(k) implies after.table_wf(
                k,
            ) by {
                assert(self.tables.dom().contains(k));
                assert(self.table_wf(k));
                if k == key {
                    assert forall|d: int| 0 <= d < rows.len() implies after.is_alive(
                        (#[trigger] rows[d]).0,
                    ) && type_of(rows[d].1) == key by {
                        if holds(before, entity) {
                            let p = position(before, entity.index);
                            let source = if d == p { before.len() - 1 } else { d };
                            assert(rows[d] == before[source]);
                        } else {
                            assert(rows[d] == before[d]);
                        }
                    }
                }
            }
        }
    }

    /// The state after the components of one registered type are rewritten
    /// in place: row `d` gets `payloads[d]`; handles and order stay. A type
    /// that is not registered, or a sequence of another length, changes
    /// nothing.
    pub open spec fn rewritten(self, key: TypeId, payloads: Seq<Payload>) -> Model {
        if self.tables.dom().contains(key) && payloads.len() == self.tables[key].len() {
            Model {
                tables: self.tables.insert(
                    key,
                    Seq::new(payloads.len(), |d: int| (self.tables[key][d].0, payloads[d])),
                ),
                ..self
            }
        } else {
            self
        }
    }

    /// Detaching a component that the entity does not have changes nothing.
    pub proof fn lemma_without_absent(self, entity: Entity, key: TypeId)
        requires
            lookup(self.table(key), entity) is None,
        ensures
            self.without_component(entity, key) == self,
    {
        assert(self.without_component(entity, key).tables =~= self.tables);
    }

    /// Rewriting the components of one type by others of the same type keeps
    /// the invariant, the aliveness of every handle, and every other table.
    pub proof fn lemma_rewritten(self, key: TypeId, payloads: Seq<Payload>)
        requires
            self.wf(),
            forall|d: int| 0 <= d < payloads.len() ==> type_of(#[trigger] payloads[d]) == key,
        ensures
            self.rewritten(key, payloads).wf(),
            forall|other: TypeId|
                other != key ==> #[trigger] self.rewritten(key, payloads).table(other) == self.table(
                    other,
                ),
    {
        let after = self.rewritten(key, payloads);
        if self.tables.dom().contains(key) && payloads.len() == self.tables[key].len() {
            assert forall|k: TypeId| #[trigger] after.tables.dom().contains(k) implies after.table_wf(
                k,
            ) by {
                assert(self.tables.dom().contains(k));
                assert(self.table_wf(k));
                if k == key {
                    let rows = after.tables[key];
                    assert forall|d: int| 0 <= d < rows.len() implies after.is_alive(
                        (#[trigger] rows[d]).0,
                    ) && type_of(rows[d].1) == key by {
                        assert(self.is_alive(self.tables[key][d].0));
                    }
                }
            }
        }
    }
}

} // verus!
