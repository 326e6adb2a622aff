//! The sparse-set backend.
//!
//! Entity slots live in a vector, freed indices on a stack, and the
//! components of each registered type in a sparse set of their own, found by
//! the identifier of the type.

use vstd::prelude::*;
use std::any::TypeId;
use crate::ecs::backend::EcsBackend;
use crate::ecs::component::{
    component_type, erased, is_inner, is_key_of, lemma_inner, lemma_key_unique, payload, same_type,
    type_key, type_of, Component, ErasedComponent, Payload,
};
use crate::ecs::entity::Entity;
use crate::ecs::model::{next_generation, Model, Slot};
use crate::ecs::rows::{
    holds, lemma_map_rows, lookup, map_rows, position, swap_removed, upsert,
};
use crate::ecs::sparse_set::SparseSet;
use crate::error::EcsError;

verus! {

/// The rows of a sparse set of erased components as the model sees them:
/// each component by its payload.
spec fn payload_rows(rows: Seq<(Entity, ErasedComponent)>) -> Seq<(Entity, Payload)> {
    map_rows(rows, |e: ErasedComponent| payload(e))
}

/// The storage of one registered component type, with the type erased.
///
/// Destroying an entity must clear every storage uniformly, without knowing
/// the component type; this is the interface for that.
struct ComponentStorage {
    /// The identifier of the type.
    key: TypeId,
    /// The components, erased, by entity.
    set: SparseSet<ErasedComponent>,
}

impl ComponentStorage {
    /// The storage holds well-formed rows.
    spec fn wf(&self) -> bool {
        self.set.wf()
    }

    /// The identifier of the component type, as contracts speak of it.
    spec fn key(&self) -> TypeId {
        self.key
    }

    /// The rows, each component by its payload.
    spec fn rows(&self) -> Seq<(Entity, Payload)> {
        payload_rows(self.set@)
    }

    /// An empty storage for the type that `key` identifies.
    fn new(key: TypeId) -> (r: Self)
        ensures
            r.wf(),
            r.key() == key,
            r.rows() == Seq::<(Entity, Payload)>::empty(),
    {
        let r = ComponentStorage { key, set: SparseSet::new() };
        assert(r.rows() =~= Seq::<(Entity, Payload)>::empty());
        r
    }

    /// Removes the component of an entity and says whether there was one.
    fn remove(&mut self, entity: Entity) -> (r: bool)
        requires
            old(self).wf(),
        ensures
            final(self).wf(),
            final(self).key() == old(self).key(),
            r == holds(old(self).rows(), entity),
            final(self).rows() == swap_removed(old(self).rows(), entity),
    {
        proof {
            self.set.lemma_wf();
            lemma_map_rows(self.set@, |e: ErasedComponent| payload(e), entity);
        }
        self.set.remove(entity)
    }

    /// Clears whatever the storage holds for an entity.
    fn clear_for_entity(&mut self, entity: Entity)
        requires
            old(self).wf(),
        ensures
            final(self).wf(),
            final(self).key() == old(self).key(),
            final(self).rows() == swap_removed(old(self).rows(), entity),
    {
        self.remove(entity);
    }

    /// The identifier of the component type.
    fn type_id(&self) -> (r: TypeId)
        ensures
            r == self.key(),
    {
        self.key
    }
}

/// Some storage is keyed by `key`.
spec fn registered(storages: Seq<ComponentStorage>, key: TypeId) -> bool {
    exists|i: int| 0 <= i < storages.len() && (#[trigger] storages[i]).key == key
}

/// The position of the storage keyed by `key`.
spec fn column_of(storages: Seq<ComponentStorage>, key: TypeId) -> int {
    choose|i: int| 0 <= i < storages.len() && (#[trigger] storages[i]).key == key
}

/// The storages are well-formed and their keys distinct: the registry maps
/// each type to one storage.
spec fn columns_wf(storages: Seq<ComponentStorage>) -> bool {
    &&& forall|i: int| 0 <= i < storages.len() ==> (#[trigger] storages[i]).wf()
    &&& forall|i: int, j: int|
        0 <= i < storages.len() && 0 <= j < storages.len() && i != j ==> storages[i].key
            != storages[j].key
}

/// The tables that the storages stand for: the rows of each, under its key.
spec fn tables_of(storages: Seq<ComponentStorage>) -> Map<TypeId, Seq<(Entity, Payload)>> {
    Map::new(
        |key: TypeId| registered(storages, key),
        |key: TypeId| storages[column_of(storages, key)].rows(),
    )
}

/// With distinct keys, the table of a storage's key is the rows of that
/// storage, and every table is some storage's.
proof fn lemma_tables(storages: Seq<ComponentStorage>)
    requires
        columns_wf(storages),
    ensures
        forall|i: int|
            0 <= i < storages.len() ==> registered(storages, (#[trigger] storages[i]).key)
                && column_of(storages, storages[i].key) == i && tables_of(storages).dom().contains(
                storages[i].key,
            ) && tables_of(storages)[storages[i].key] == storages[i].rows(),
        forall|key: TypeId| #[trigger]
            tables_of(storages).dom().contains(key) ==> registered(storages, key) && 0
                <= column_of(storages, key) < storages.len() && storages[column_of(
                storages,
                key,
            )].key == key,
        forall|key: TypeId|
            !registered(storages, key) ==> !(#[trigger] tables_of(storages).dom().contains(key)),
{
    assert forall|i: int| 0 <= i < storages.len() implies registered(
        storages,
        (#[trigger] storages[i]).key,
    ) && column_of(storages, storages[i].key) == i by {
        let key = storages[i].key;
        assert(registered(storages, key));
    }
}

/// Replacing a storage by a well-formed one of the same key replaces its
/// table and no other.
proof fn lemma_replaced(storages: Seq<ComponentStorage>, i: int, storage: ComponentStorage)
    requires
        columns_wf(storages),
        0 <= i < storages.len(),
        storage.key == storages[i].key,
    ensures
        storage.wf() ==> columns_wf(storages.update(i, storage)) && tables_of(
            storages.update(i, storage),
        ) == tables_of(storages).insert(storage.key, storage.rows()),
{
    if !storage.wf() {
        return ;
    }
    let updated = storages.update(i, storage);
    lemma_tables(storages);
    assert(columns_wf(updated));
    lemma_tables(updated);
    assert(tables_of(updated) =~= tables_of(storages).insert(storage.key, storage.rows())) by {
        assert forall|key: TypeId| #[trigger]
            tables_of(updated).dom().contains(key) implies registered(storages, key) && tables_of(
            updated,
        )[key] == tables_of(storages).insert(storage.key, storage.rows())[key] by {
            let j = column_of(updated, key);
            assert(storages[j].key == key);
        }
        assert forall|key: TypeId| registered(storages, key) implies #[trigger] tables_of(
            updated,
        ).dom().contains(key) by {
            let j = column_of(storages, key);
            assert(updated[j].key == key);
        }
    }
}

/// Appending a well-formed storage of a key that is not registered adds its
/// table and changes no other.
proof fn lemma_appended(storages: Seq<ComponentStorage>, storage: ComponentStorage)
    requires
        columns_wf(storages),
        storage.wf(),
        !registered(storages, storage.key),
    ensures
        columns_wf(storages.push(storage)),
        tables_of(storages.push(storage)) == tables_of(storages).insert(
            storage.key,
            storage.rows(),
        ),
{
    let pushed = storages.push(storage);
    lemma_tables(storages);
    assert(columns_wf(pushed));
    lemma_tables(pushed);
    assert(tables_of(pushed) =~= tables_of(storages).insert(storage.key, storage.rows())) by {
        assert forall|key: TypeId| #[trigger]
            tables_of(pushed).dom().contains(key) implies (registered(storages, key) || key
            == storage.key) && tables_of(pushed)[key] == tables_of(storages).insert(
            storage.key,
            storage.rows(),
        )[key] by {
            let j = column_of(pushed, key);
            if j < storages.len() {
                assert(storages[j].key == key);
            }
        }
        assert forall|key: TypeId| registered(storages, key) || key
            == storage.key implies #[trigger] tables_of(pushed).dom().contains(key) by {
            if key == storage.key {
                assert(pushed[storages.len() as int].key == key);
            } else {
                let j = column_of(storages, key);
                assert(pushed[j].key == key);
            }
        }
    }
}

/// Clearing an entity from every storage clears it from every table.
proof fn lemma_cleared(
    before: Seq<ComponentStorage>,
    after: Seq<ComponentStorage>,
    entity: Entity,
)
    requires
        columns_wf(before),
        after.len() == before.len(),
        forall|i: int|
            0 <= i < after.len() ==> (#[trigger] after[i]).wf() && after[i].key == before[i].key
                && after[i].rows() == swap_removed(before[i].rows(), entity),
    ensures
        columns_wf(after),
        tables_of(after) == tables_of(before).map_values(
            |rows: Seq<(Entity, Payload)>| swap_removed(rows, entity),
        ),
{
    lemma_tables(before);
    assert(columns_wf(after));
    lemma_tables(after);
    let cleared = tables_of(before).map_values(
        |rows: Seq<(Entity, Payload)>| swap_removed(rows, entity),
    );
    assert(tables_of(after) =~= cleared) by {
        assert forall|key: TypeId| #[trigger]
            tables_of(after).dom().contains(key) implies cleared.dom().contains(key) && tables_of(
            after,
        )[key] == cleared[key] by {
            let j = column_of(after, key);
            assert(before[j].key == key);
        }
        assert forall|key: TypeId| #[trigger] cleared.dom().contains(key) implies tables_of(
            after,
        ).dom().contains(key) by {
            let j = column_of(before, key);
            assert(after[j].key == key);
        }
    }
}

/// Sparse-set backend for ECS storage.
pub struct SparseSetBackend {
    /// Entity slots by index.
    entities: Vec<Slot>,
    /// Freed indices, the next one to reuse last.
    free_list: Vec<u32>,
    /// The registry: one storage per registered component type.
    storages: Vec<ComponentStorage>,
}

impl SparseSetBackend {
    /// The position of the storage keyed by `key`, if the type is registered.
    fn find_storage(&self, key: &TypeId) -> (r: Option<usize>)
        ensures
            match r {
                Some(i) => i < self.storages@.len() && self.storages@[i as int].key == *key,
                None => !registered(self.storages@, *key),
            },
    {
        let mut i: usize = 0;
        while i < self.storages.len()
            invariant
                i <= self.storages@.len(),
                forall|j: int| 0 <= j < i ==> (#[trigger] self.storages@[j]).key != *key,
            decreases self.storages@.len() - i,
        {
            if same_type(&self.storages[i].type_id(), key) {
                return Some(i);
            }
            i += 1;
        }
        None
    }

    /// The storage of the component type `C`, created empty if the type is
    /// not registered yet. Whatever well-formed set the caller leaves in it
    /// becomes the table of `C`; nothing else changes.
    fn get_or_create_storage<C: Component>(&mut self) -> (r: &mut SparseSet<ErasedComponent>)
        requires
            columns_wf(old(self).storages@),
        ensures
            is_key_of::<C>(type_key::<C>()),
            r.wf(),
            payload_rows(r@) == old(self).model().table(type_key::<C>()),
            final(self).entities == old(self).entities,
            final(self).free_list == old(self).free_list,
            final(r).wf() ==> columns_wf(final(self).storages@) && final(self).model().tables
                == old(self).model().tables.insert(type_key::<C>(), payload_rows(final(r)@)),
    {
        let key = component_type::<C>();
        let ghost before = self.storages@;
        proof {
            lemma_key_unique::<C>(key);
            lemma_tables(before);
        }
        let index = match self.find_storage(&key) {
            Some(i) => i,
            None => {
                let created = ComponentStorage::new(key);
                proof {
                    lemma_appended(before, created);
                }
                self.storages.push(created);
                self.storages.len() - 1
            },
        };
        let ghost found = self.storages@;
        let r = &mut self.storages[index].set;
        proof {
            let left = ComponentStorage { key, set: *final(r) };
            lemma_replaced(found, index as int, left);
            assert(tables_of(found).insert(key, left.rows()) =~= tables_of(before).insert(
                key,
                left.rows(),
            ));
        }
        r
    }

    /// The storage of the component type `C`, if the type is registered.
    fn get_storage<C: Component>(&self) -> (r: Option<&SparseSet<ErasedComponent>>)
        requires
            columns_wf(self.storages@),
        ensures
            is_key_of::<C>(type_key::<C>()),
            match r {
                Some(set) => {
                    &&& self.model().tables.dom().contains(type_key::<C>())
                    &&& set.wf()
                    &&& payload_rows(set@) == self.model().tables[type_key::<C>()]
                },
                None => !self.model().tables.dom().contains(type_key::<C>()),
            },
    {
        let key = component_type::<C>();
        proof {
            lemma_key_unique::<C>(key);
            lemma_tables(self.storages@);
        }
        match self.find_storage(&key) {
            Some(i) => Some(&self.storages[i].set),
            None => None,
        }
    }

    /// The storage of the component type `C`, mutably, if the type is
    /// registered. Whatever well-formed set the caller leaves in it becomes
    /// the table of `C`; nothing else changes.
    fn get_storage_mut<C: Component>(&mut self) -> (r: Option<&mut SparseSet<ErasedComponent>>)
        requires
            columns_wf(old(self).storages@),
        ensures
            is_key_of::<C>(type_key::<C>()),
            final(self).entities == old(self).entities,
            final(self).free_list == old(self).free_list,
            match r {
                Some(set) => {
                    &&& old(self).model().tables.dom().contains(type_key::<C>())
                    &&& set.wf()
                    &&& payload_rows(set@) == old(self).model().tables[type_key::<C>()]
                    &&& final(set).wf() ==> columns_wf(final(self).storages@)
                        && final(self).model().tables == old(self).model().tables.insert(
                        type_key::<C>(),
                        payload_rows(final(set)@),
                    )
                },
                None => {
                    &&& !old(self).model().tables.dom().contains(type_key::<C>())
                    &&& final(self).storages == old(self).storages
                },
            },
    {
        let key = component_type::<C>();
        let ghost before = self.storages@;
        proof {
            lemma_key_unique::<C>(key);
            lemma_tables(before);
        }
        match self.find_storage(&key) {
            Some(i) => {
                let set = &mut self.storages[i].set;
                proof {
                    lemma_replaced(before, i as int, ComponentStorage { key, set: *final(set) });
                }
                Some(set)
            },
            None => None,
        }
    }
}

impl Default for SparseSetBackend {
    fn default() -> (r: Self)
        ensures
            r.wf(),
            r.model() == Model::empty(),
    {
        let r = SparseSetBackend {
            entities: Vec::new(),
            free_list: Vec::new(),
            storages: Vec::new(),
        };
        assert(r.model().tables =~= Map::empty());
        r
    }
}

impl EcsBackend for SparseSetBackend {
    closed spec fn wf(&self) -> bool {
        &&& columns_wf(self.storages@)
        &&& self.model().wf()
    }

    closed spec fn model(&self) -> Model {
        Model { slots: self.entities@, free: self.free_list@, tables: tables_of(self.storages@) }
    }

    proof fn lemma_model_wf(&self) {
    }

    proof fn lemma_default(fresh: &Self) {
    }

    fn has_room(&self) -> (r: bool) {
        self.free_list.len() > 0 || self.entities.len() <= u32::MAX as usize
    }

    fn create_entity(&mut self) -> (r: Entity) {
        let ghost before = self.model();
        proof {
            before.lemma_spawned();
        }
        match self.free_list.pop() {
            Some(id) => {
                // Reuse the slot at the next generation.
                assert(before.free[before.free.len() - 1] == id);
                let generation = self.entities[id as usize].generation.wrapping_add(1);
                assert(generation == next_generation(before.slots[id as int].generation));
                self.entities[id as usize] = Slot { generation, alive: true };
                Entity::from_raw_parts(id, generation)
            },
            None => {
                // Append a fresh slot.
                let id = self.entities.len() as u32;
                self.entities.push(Slot { generation: 0, alive: true });
                Entity::from_raw_parts(id, 0)
            },
        }
    }

    fn destroy_entity(&mut self, entity: Entity) -> (r: Result<(), EcsError>) {
        let index = entity.index() as usize;
        if index >= self.entities.len() {
            return Err(EcsError::EntityNotFound(entity));
        }
        let meta = self.entities[index];
        if !meta.alive || meta.generation != entity.generation() {
            return Err(EcsError::EntityNotFound(entity));
        }
        let ghost before = self.model();
        proof {
            before.lemma_destroyed(entity);
        }
        self.entities[index] = Slot { generation: meta.generation, alive: false };
        let mut i: usize = 0;
        while i < self.storages.len()
            invariant
                i <= self.storages@.len(),
                self.storages@.len() == old(self).storages@.len(),
                self.free_list == old(self).free_list,
                self.entities@ == before.destroyed(entity).slots,
                forall|j: int|
                    0 <= j < self.storages@.len() ==> (#[trigger] self.storages@[j]).wf()
                        && self.storages@[j].key == old(self).storages@[j].key,
                forall|j: int|
                    0 <= j < i ==> (#[trigger] self.storages@[j]).rows() == swap_removed(
                        old(self).storages@[j].rows(),
                        entity,
                    ),
                forall|j: int|
                    i <= j < self.storages@.len() ==> (#[trigger] self.storages@[j]).rows() == old(
                        self,
                    ).storages@[j].rows(),
            decreases self.storages@.len() - i,
        {
            self.storages[i].clear_for_entity(entity);
            i += 1;
        }
        self.free_list.push(entity.index());
        proof {
            lemma_cleared(old(self).storages@, self.storages@, entity);
            assert(self.model().tables =~= before.destroyed(entity).tables);
        }
        Ok(())
    }

    fn is_alive(&self, entity: Entity) -> (r: bool) {
        let index = entity.index() as usize;
        if index < self.entities.len() {
            let meta = self.entities[index];
            meta.alive && meta.generation == entity.generation()
        } else {
            false
        }
    }

    fn add_component<C: Component>(&mut self, entity: Entity, component: C) -> (r: Result<
        (),
        EcsError,
    >) {
        if !self.is_alive(entity) {
            return Err(EcsError::EntityNotFound(entity));
        }
        let ghost before = self.model();
        let value = ErasedComponent::new(component);
        proof {
            assert(self.entities.len() <= usize::MAX);
            before.lemma_table(type_key::<C>());
        }
        let storage = self.get_or_create_storage::<C>();
        let ghost set = storage@;
        proof {
            storage.lemma_wf();
            lemma_map_rows(set, |e: ErasedComponent| payload(e), entity);
            before.lemma_with_component(entity, type_key::<C>(), erased(component));
            lemma_inner(erased(component), component);
        }
        storage.insert(entity, value);
        assert(payload_rows(storage@) == upsert(payload_rows(set), entity, payload(value)));
        Ok(())
    }

    fn get_component<C: Component>(&self, entity: Entity) -> (r: Option<&C>) {
        let ghost key = type_key::<C>();
        let ghost rows = self.model().table(key);
        proof {
            self.model().lemma_table(key);
        }
        if !self.is_alive(entity) {
            proof {
                if holds(rows, entity) {
                    assert(self.model().is_alive(rows[position(rows, entity.index)].0));
                }
            }
            return None;
        }
        match self.get_storage::<C>() {
            Some(storage) => {
                proof {
                    storage.lemma_wf();
                    lemma_map_rows(storage@, |e: ErasedComponent| payload(e), entity);
                }
                match storage.get(entity) {
                    Some(value) => {
                        let r = value.downcast_ref::<C>();
                        proof {
                            assert(rows[position(rows, entity.index)].1 == payload(*value));
                            lemma_inner(payload(*value), *r.unwrap());
                        }
                        r
                    },
                    None => None,
                }
            },
            None => None,
        }
    }

    fn get_component_mut<C: Component>(&mut self, entity: Entity) -> (r: Option<&mut C>) {
        let ghost before = self.model();
        let ghost key = type_key::<C>();
        let ghost rows = before.table(key);
        proof {
            before.lemma_table(key);
        }
        if !self.is_alive(entity) {
            proof {
                if holds(rows, entity) {
                    assert(before.is_alive(rows[position(rows, entity.index)].0));
                }
            }
            return None;
        }
        match self.get_storage_mut::<C>() {
            Some(storage) => {
                let ghost set = storage@;
                let ghost left = final(storage)@;
                proof {
                    storage.lemma_wf();
                    lemma_map_rows(set, |e: ErasedComponent| payload(e), entity);
                }
                match storage.get_mut(entity) {
                    Some(value) => {
                        let ghost stored = *value;
                        let ghost written = *final(value);
                        let r = value.downcast_mut::<C>();
                        proof {
                            assert(lookup(set, entity) == Some(stored));
                            assert(rows[position(rows, entity.index)].1 == payload(stored));
                            let c = r.unwrap();
                            lemma_inner(payload(stored), *c);
                            lemma_inner(erased(*final(c)), *final(c));
                            before.lemma_with_component(entity, key, erased(*final(c)));
                            assert(payload_rows(left) == upsert(rows, entity, payload(written)));
                        }
                        r
                    },
                    None => {
                        assert(before.tables.insert(key, rows) =~= before.tables);
                        None
                    },
                }
            },
            None => None,
        }
    }

    fn remove_component<C: Component>(&mut self, entity: Entity) -> (r: Result<(), EcsError>) {
        if !self.is_alive(entity) {
            return Err(EcsError::EntityNotFound(entity));
        }
        let ghost before = self.model();
        proof {
            before.lemma_table(type_key::<C>());
            before.lemma_without_component(entity, type_key::<C>());
            if before.component::<C>(entity) is None {
                before.lemma_without_absent(entity, type_key::<C>());
            }
        }
        match self.get_storage_mut::<C>() {
            Some(storage) => {
                proof {
                    storage.lemma_wf();
                    lemma_map_rows(storage@, |e: ErasedComponent| payload(e), entity);
                }
                storage.remove(entity);
            },
            None => {},
        }
        Ok(())
    }

    fn query_component<C: Component>(&self) -> (r: Vec<(Entity, &C)>) {
        let ghost table = self.model().table(type_key::<C>());
        proof {
            self.model().lemma_table(type_key::<C>());
        }
        match self.get_storage::<C>() {
            Some(storage) => {
                let rows = storage.iter();
                let mut out: Vec<(Entity, &C)> = Vec::new();
                let mut d: usize = 0;
                while d < rows.len()
                    invariant
                        d <= rows@.len(),
                        out@.len() == d,
                        is_key_of::<C>(type_key::<C>()),
                        table == self.model().table(type_key::<C>()),
                        rows@.len() == table.len(),
                        forall|k: int|
                            0 <= k < rows@.len() ==> (#[trigger] rows@[k]).0 == table[k].0
                                && payload(*rows@[k].1) == table[k].1 && type_of(table[k].1)
                                == type_key::<C>(),
                        forall|k: int|
                            0 <= k < d ==> (#[trigger] out@[k]).0 == self.model().query::<C>()[k].0
                                && *out@[k].1 == self.model().query::<C>()[k].1,
                    decreases rows@.len() - d,
                {
                    let (entity, value) = rows[d];
                    match value.downcast_ref::<C>() {
                        Some(c) => {
                            proof {
                                lemma_inner(payload(*value), *c);
                            }
                            out.push((entity, c));
                        },
                        None => {},
                    }
                    d += 1;
                }
                out
            },
            None => Vec::new(),
        }
    }

    #[verifier::loop_isolation(false)]
    fn query_component_mut<C: Component>(&mut self) -> (r: Vec<(Entity, &mut C)>) {
        let ghost before = self.model();
        let ghost key = type_key::<C>();
        let ghost table = before.table(key);
        proof {
            before.lemma_table(key);
        }
        match self.get_storage_mut::<C>() {
            Some(storage) => {
                let ghost set = storage@;
                let ghost left = final(storage)@;
                let rows = storage.iter_mut();
                let ghost handed = rows@;
                proof {
                    assert forall|k: int| 0 <= k < handed.len() implies type_of(
                        payload(*(#[trigger] handed[k]).1),
                    ) == key by {
                        assert(table[k].1 == payload(set[k].1));
                    }
                }
                let mut out: Vec<(Entity, &mut C)> = Vec::new();
                for row in it: rows.into_iter()
                    invariant
                        it.seq() == handed,
                        out@.len() == it.index(),
                        forall|k: int|
                            0 <= k < out@.len() ==> (#[trigger] out@[k]).0 == handed[k].0
                                && is_inner(payload(*handed[k].1), *out@[k].1) && is_inner(
                                payload(*final(handed[k].1)),
                                *final(out@[k].1),
                            ),
                {
                    assert(row == handed[it.index() as int]);
                    let (entity, value) = row;
                    match value.downcast_mut::<C>() {
                        Some(c) => {
                            out.push((entity, c));
                        },
                        None => {},
                    }
                }
                proof {
                    let payloads = Seq::new(out@.len(), |d: int| erased(*final(out@[d].1)));
                    let after = before.rewritten(key, payloads);
                    before.lemma_rewritten(key, payloads);
                    assert(payload_rows(left) =~= after.tables[key]) by {
                        assert forall|d: int| 0 <= d < left.len() implies (#[trigger] payload_rows(
                            left,
                        )[d]) == after.tables[key][d] by {
                            assert(left[d] == (handed[d].0, *final(handed[d].1)));
                            assert(table[d].0 == set[d].0);
                        }
                    }
                    assert forall|d: int| 0 <= d < out@.len() implies (#[trigger] out@[d]).0
                        == before.query::<C>()[d].0 && *out@[d].1 == before.query::<C>()[d].1 by {
                        assert(table[d].1 == payload(set[d].1));
                        lemma_inner(table[d].1, *out@[d].1);
                    }
                    assert forall|d: int| 0 <= d < out@.len() implies #[trigger] after.query::<C>()[d]
                        == (out@[d].0, *final(out@[d].1)) by {
                        lemma_inner(after.table(key)[d].1, *final(out@[d].1));
                    }
                }
                out
            },
            None => Vec::new(),
        }
    }
}

} // verus!
