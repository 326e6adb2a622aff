//! The world: the facade of the entity-component system.
//!
//! A world presents entity lifecycle, typed component access and queries, and
//! delegates all state to its backend.

use vstd::prelude::*;
use crate::ecs::backend::EcsBackend;
use crate::ecs::component::{erased, type_key, Component};
use crate::ecs::entity::Entity;
use crate::ecs::model::{Model, Op};
use crate::ecs::sparse_set_backend::SparseSetBackend;
use crate::error::EcsError;

verus! {

/// The world that manages entities and their components.
pub struct World<B: EcsBackend = SparseSetBackend> {
    backend: B,
}

/// Builder for an entity that has just been created in a world.
pub struct EntityBuilder<'a, B: EcsBackend> {
    /// The world that the entity lives in, borrowed until `build`.
    pub world: &'a mut World<B>,
    /// The entity under construction.
    pub entity: Entity,
}

impl<B: EcsBackend> World<B> {
    /// The invariant of the world: that of its backend.
    pub closed spec fn wf(&self) -> bool {
        self.backend.wf()
    }

    /// The abstract state of the world.
    pub closed spec fn model(&self) -> Model {
        self.backend.model()
    }

    /// A well-formed world stands for a well-formed state.
    pub proof fn lemma_model_wf(&self)
        requires
            self.wf(),
        ensures
            self.model().wf(),
    {
        self.backend.lemma_model_wf();
    }

    /// Creates an empty world.
    pub fn new() -> (r: Result<Self, EcsError>)
        ensures
            r matches Ok(world) && world.wf() && world.model() == Model::empty(),
    {
        let backend = B::default();
        proof {
            B::lemma_default(&backend);
        }
        Ok(World { backend })
    }

    /// Whether an entity can be created: a slot is free, or an index of 32
    /// bits is left for a fresh one.
    pub fn has_room(&self) -> (r: bool)
        requires
            self.wf(),
        ensures
            r == self.model().has_room(),
    {
        self.backend.has_room()
    }

    /// Creates an entity and returns a builder bound to this world.
    pub fn spawn(&mut self) -> (r: EntityBuilder<'_, B>)
        requires
            old(self).wf(),
            old(self).model().has_room(),
        ensures
            r.entity == old(self).model().next_entity(),
            r.world.wf(),
            r.world.model() == old(self).model().step(Op::Spawn),
            !old(self).model().is_alive(r.entity),
            r.world.model().is_alive(r.entity),
            *final(self) == *final(r.world),
    {
        let entity = self.backend.create_entity();
        EntityBuilder { world: self, entity }
    }

    /// Destroys an entity and all its components. Fails with
    /// `EntityNotFound` if and only if the handle is not alive.
    pub fn destroy(&mut self, entity: Entity) -> (r: Result<(), EcsError>)
        requires
            old(self).wf(),
        ensures
            final(self).wf(),
            r == if old(self).model().is_alive(entity) {
                Ok::<(), EcsError>(())
            } else {
                Err::<(), EcsError>(EcsError::EntityNotFound(entity))
            },
            final(self).model() == old(self).model().step(Op::Destroy(entity)),
            !final(self).model().is_alive(entity),
    {
        self.backend.destroy_entity(entity)
    }

    /// Whether the handle addresses a live entity.
    pub fn is_alive(&self, entity: Entity) -> (r: bool)
        requires
            self.wf(),
        ensures
            r == self.model().is_alive(entity),
    {
        self.backend.is_alive(entity)
    }

    /// The component of type `C` of an entity, if it is alive and has one.
    pub fn get<C: Component>(&self, entity: Entity) -> (r: Option<&C>)
        requires
            self.wf(),
        ensures
            match r {
                Some(c) => self.model().component::<C>(entity) == Some(*c),
                None => self.model().component::<C>(entity) is None,
            },
    {
        self.backend.get_component::<C>(entity)
    }

    /// Mutable access to the component of type `C` of an entity, if it is
    /// alive and has one. What is written through the reference is the
    /// entity's component afterwards; nothing else changes.
    pub fn get_mut<C: Component>(&mut self, entity: Entity) -> (r: Option<&mut C>)
        requires
            old(self).wf(),
        ensures
            final(self).wf(),
            match r {
                Some(c) => {
                    &&& old(self).model().component::<C>(entity) == Some(*c)
                    &&& old(self).model().admits(
                        Op::Attach(entity, type_key::<C>(), erased(*final(c))),
                    )
                    &&& final(self).model() == old(self).model().step(
                        Op::Attach(entity, type_key::<C>(), erased(*final(c))),
                    )
                    &&& final(self).model().component::<C>(entity) == Some(*final(c))
                },
                None => {
                    &&& old(self).model().component::<C>(entity) is None
                    &&& final(self).model() == old(self).model()
                },
            },
    {
        self.backend.get_component_mut::<C>(entity)
    }

    /// Attaches a component to an entity, replacing one of the same type.
    /// Fails with `EntityNotFound` if and only if the handle is not alive.
    pub fn add_component<C: Component>(&mut self, entity: Entity, component: C) -> (r: Result<
        (),
        EcsError,
    >)
        requires
            old(self).wf(),
        ensures
            final(self).wf(),
            r == if old(self).model().is_alive(entity) {
                Ok::<(), EcsError>(())
            } else {
                Err::<(), EcsError>(EcsError::EntityNotFound(entity))
            },
            old(self).model().admits(Op::Attach(entity, type_key::<C>(), erased(component))),
            final(self).model() == old(self).model().step(
                Op::Attach(entity, type_key::<C>(), erased(component)),
            ),
            old(self).model().is_alive(entity) ==> final(self).model().component::<C>(entity)
                == Some(component),
    {
        self.backend.add_component(entity, component)
    }

    /// Detaches the component of type `C` from an entity; no effect if it
    /// has none. Fails with `EntityNotFound` if and only if the handle is not
    /// alive.
    pub fn remove<C: Component>(&mut self, entity: Entity) -> (r: Result<(), EcsError>)
        requires
            old(self).wf(),
        ensures
            final(self).wf(),
            r == if old(self).model().is_alive(entity) {
                Ok::<(), EcsError>(())
            } else {
                Err::<(), EcsError>(EcsError::EntityNotFound(entity))
            },
            final(self).model() == old(self).model().step(Op::Detach(entity, type_key::<C>())),
            old(self).model().is_alive(entity) ==> final(self).model().component::<C>(entity)
                is None,
            old(self).model().component::<C>(entity) is None ==> final(self).model() == old(
                self,
            ).model(),
    {
        self.backend.remove_component::<C>(entity)
    }

    /// Every entity that has a component of type `C`, with the component, in
    /// dense order. The result is a snapshot taken at the call.
    pub fn query<C: Component>(&self) -> (r: Vec<(Entity, &C)>)
        requires
            self.wf(),
        ensures
            r@.len() == self.model().query::<C>().len(),
            forall|d: int|
                0 <= d < r@.len() ==> (#[trigger] r@[d]).0 == self.model().query::<C>()[d].0
                    && *r@[d].1 == self.model().query::<C>()[d].1,
    {
        self.backend.query_component::<C>()
    }

    /// Every entity that has a component of type `C`, with the component
    /// mutably, in dense order. What is written through the references are
    /// the components afterwards; nothing else changes.
    pub fn query_mut<C: Component>(&mut self) -> (r: Vec<(Entity, &mut C)>)
        requires
            old(self).wf(),
        ensures
            final(self).wf(),
            r@.len() == old(self).model().query::<C>().len(),
            forall|d: int|
                0 <= d < r@.len() ==> (#[trigger] r@[d]).0 == old(self).model().query::<C>()[d].0
                    && *r@[d].1 == old(self).model().query::<C>()[d].1,
            old(self).model().admits(
                Op::Rewrite(type_key::<C>(), Seq::new(r@.len(), |d: int| erased(*final(r@[d].1)))),
            ),
            final(self).model() == old(self).model().step(
                Op::Rewrite(type_key::<C>(), Seq::new(r@.len(), |d: int| erased(*final(r@[d].1)))),
            ),
            forall|d: int|
                0 <= d < r@.len() ==> #[trigger] final(self).model().query::<C>()[d] == (
                    r@[d].0,
                    *final(r@[d].1),
                ),
    {
        self.backend.query_component_mut::<C>()
    }

    /// Every entity that has both a component of type `A` and one of type
    /// `B2`, with the two components: the rows of `A`, in dense order,
    /// filtered by the presence of `B2`.
    pub fn query2<A: Component, B2: Component>(&self) -> (r: Vec<(Entity, (&A, &B2))>)
        requires
            self.wf(),
        ensures
            r@.len() == self.model().query2::<A, B2>().len(),
            forall|d: int|
                0 <= d < r@.len() ==> (#[trigger] r@[d]).0 == self.model().query2::<A, B2>()[d].0
                    && *r@[d].1.0 == self.model().query2::<A, B2>()[d].1.0 && *r@[d].1.1
                    == self.model().query2::<A, B2>()[d].1.1,
    {
        let mut results: Vec<(Entity, (&A, &B2))> = Vec::new();
        let rows = self.query::<A>();
        let mut d: usize = 0;
        while d < rows.len()
            invariant
                self.wf(),
                d <= rows@.len(),
                rows@.len() == self.model().query::<A>().len(),
                forall|k: int|
                    0 <= k < rows@.len() ==> (#[trigger] rows@[k]).0 == self.model().query::<A>()[k].0
                        && *rows@[k].1 == self.model().query::<A>()[k].1,
                results@.len() == self.model().joined::<A, B2>(d as nat).len(),
                forall|k: int|
                    0 <= k < results@.len() ==> (#[trigger] results@[k]).0 == self.model().joined::<
                        A,
                        B2,
                    >(d as nat)[k].0 && *results@[k].1.0 == self.model().joined::<A, B2>(
                        d as nat,
                    )[k].1.0 && *results@[k].1.1 == self.model().joined::<A, B2>(d as nat)[k].1.1,
            decreases rows@.len() - d,
        {
            let (entity, a) = rows[d];
            match self.get::<B2>(entity) {
                Some(b) => {
                    results.push((entity, (a, b)));
                },
                None => {},
            }
            d += 1;
        }
        results
    }
}

impl<'a, B: EcsBackend> EntityBuilder<'a, B> {
    /// Adds a component to the entity being built. The entity was created by
    /// the call that made this builder, so adding cannot fail; a failure
    /// would be swallowed.
    pub fn with<C: Component>(self, component: C) -> (r: Self)
        requires
            old(self.world).wf(),
        ensures
            r.entity == self.entity,
            r.world.wf(),
            old(self.world).model().admits(
                Op::Attach(self.entity, type_key::<C>(), erased(component)),
            ),
            r.world.model() == old(self.world).model().step(
                Op::Attach(self.entity, type_key::<C>(), erased(component)),
            ),
            old(self.world).model().is_alive(self.entity) ==> r.world.model().component::<C>(
                self.entity,
            ) == Some(component),
            *final(r.world) == *final(self.world),
    {
        let _ = self.world.add_component(self.entity, component);
        self
    }

    /// Finishes building and returns the entity.
    pub fn build(self) -> (r: Entity)
        ensures
            r == self.entity,
            *final(self.world) == *old(self.world),
    {
        self.entity
    }
}

} // verus!
