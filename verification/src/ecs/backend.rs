//! The contract of a storage backend.
//!
//! A backend owns the whole state of a world: the entity slots and all
//! component memory. Different storage strategies can stand behind this
//! trait; each states its operations as transitions of the same abstract
//! [`Model`].

use vstd::prelude::*;
use crate::ecs::component::{erased, type_key, Component};
use crate::ecs::entity::Entity;
use crate::ecs::model::{Model, Op};
use crate::error::EcsError;

verus! {

/// A storage backend of the entity-component system.
pub trait EcsBackend: Send + Sync + Default {
    /// The invariant of the backend's representation.
    spec fn wf(&self) -> bool;

    /// The abstract state that the representation stands for.
    spec fn model(&self) -> Model;

    /// A well-formed backend stands for a well-formed state.
    proof fn lemma_model_wf(&self)
        requires
            self.wf(),
        ensures
            self.model().wf(),
    ;

    /// The default backend is well-formed and stands for the empty state.
    proof fn lemma_default(fresh: &Self)
        requires
            call_ensures(Self::default, (), *fresh),
        ensures
            fresh.wf(),
            fresh.model() == Model::empty(),
    ;

    /// Whether an entity can be created: a slot is free, or an index of 32
    /// bits is left for a fresh one.
    fn has_room(&self) -> (r: bool)
        requires
            self.wf(),
        ensures
            r == self.model().has_room(),
    ;

    /// Creates an entity and returns its handle. A freed slot is reused, at
    /// the next generation, before a fresh one is appended.
    fn create_entity(&mut self) -> (r: Entity)
        requires
            old(self).wf(),
            old(self).model().has_room(),
        ensures
            final(self).wf(),
            r == old(self).model().next_entity(),
            final(self).model() == old(self).model().step(Op::Spawn),
            !old(self).model().is_alive(r),
            final(self).model().is_alive(r),
    ;

    /// Destroys an entity and all its components. Fails with
    /// `EntityNotFound` if and only if the handle is not alive.
    fn destroy_entity(&mut self, entity: Entity) -> (r: Result<(), EcsError>)
        requires
            old(self).wf(),
        ensures
            final(self).wf(),
            r == if old(self).model().is_alive(entity) {
                Ok::<(), EcsError>(())
            } else {
                Err::<(), EcsError>(EcsError::EntityNotFound(entity))
            },
            final(self).model() == old(self).model().step(Op::Destroy(entity)),
            !final(self).model().is_alive(entity),
    ;

    /// Whether the handle addresses a live entity.
    fn is_alive(&self, entity: Entity) -> (r: bool)
        requires
            self.wf(),
        ensures
            r == self.model().is_alive(entity),
    ;

    /// Attaches a component to an entity, replacing one of the same type.
    /// Fails with `EntityNotFound` if and only if the handle is not alive.
    fn add_component<C: Component>(&mut self, entity: Entity, component: C) -> (r: Result<
        (),
        EcsError,
    >)
        requires
            old(self).wf(),
        ensures
            final(self).wf(),
            r == if old(self).model().is_alive(entity) {
                Ok::<(), EcsError>(())
            } else {
                Err::<(), EcsError>(EcsError::EntityNotFound(entity))
            },
            old(self).model().admits(Op::Attach(entity, type_key::<C>(), erased(component))),
            final(self).model() == old(self).model().step(
                Op::Attach(entity, type_key::<C>(), erased(component)),
            ),
            old(self).model().is_alive(entity) ==> final(self).model().component::<C>(entity)
                == Some(component),
    ;

    /// The component of type `C` of an entity, if it is alive and has one.
    fn get_component<C: Component>(&self, entity: Entity) -> (r: Option<&C>)
        requires
            self.wf(),
        ensures
            match r {
                Some(c) => self.model().component::<C>(entity) == Some(*c),
                None => self.model().component::<C>(entity) is None,
            },
    ;

    /// Mutable access to the component of type `C` of an entity, if it is
    /// alive and has one. What is written through the reference is the
    /// entity's component afterwards; nothing else changes.
    fn get_component_mut<C: Component>(&mut self, entity: Entity) -> (r: Option<&mut C>)
        requires
            old(self).wf(),
        ensures
            final(self).wf(),
            match r {
                Some(c) => {
                    &&& old(self).model().component::<C>(entity) == Some(*c)
                    &&& old(self).model().admits(
                        Op::Attach(entity, type_key::<C>(), erased(*final(c))),
                    )
                    &&& final(self).model() == old(self).model().step(
                        Op::Attach(entity, type_key::<C>(), erased(*final(c))),
                    )
                    &&& final(self).model().component::<C>(entity) == Some(*final(c))
                },
                None => {
                    &&& old(self).model().component::<C>(entity) is None
                    &&& final(self).model() == old(self).model()
                },
            },
    ;

    /// Detaches the component of type `C` from an entity; no effect if it
    /// has none. Fails with `EntityNotFound` if and only if the handle is not
    /// alive.
    fn remove_component<C: Component>(&mut self, entity: Entity) -> (r: Result<(), EcsError>)
        requires
            old(self).wf(),
        ensures
            final(self).wf(),
            r == if old(self).model().is_alive(entity) {
                Ok::<(), EcsError>(())
            } else {
                Err::<(), EcsError>(EcsError::EntityNotFound(entity))
            },
            final(self).model() == old(self).model().step(Op::Detach(entity, type_key::<C>())),
            old(self).model().is_alive(entity) ==> final(self).model().component::<C>(entity)
                is None,
            old(self).model().component::<C>(entity) is None ==> final(self).model() == old(
                self,
            ).model(),
    ;

    /// Every entity that has a component of type `C`, with the component, in
    /// dense order.
    fn query_component<C: Component>(&self) -> (r: Vec<(Entity, &C)>)
        requires
            self.wf(),
        ensures
            r@.len() == self.model().query::<C>().len(),
            forall|d: int|
                0 <= d < r@.len() ==> (#[trigger] r@[d]).0 == self.model().query::<C>()[d].0
                    && *r@[d].1 == self.model().query::<C>()[d].1,
    ;

    /// Every entity that has a component of type `C`, with the component
    /// mutably, in dense order. What is written through the references are
    /// the components afterwards; nothing else changes.
    fn query_component_mut<C: Component>(&mut self) -> (r: Vec<(Entity, &mut C)>)
        requires
            old(self).wf(),
        ensures
            final(self).wf(),
            r@.len() == old(self).model().query::<C>().len(),
            forall|d: int|
                0 <= d < r@.len() ==> (#[trigger] r@[d]).0 == old(self).model().query::<C>()[d].0
                    && *r@[d].1 == old(self).model().query::<C>()[d].1,
            old(self).model().admits(
                Op::Rewrite(type_key::<C>(), Seq::new(r@.len(), |d: int| erased(*final(r@[d].1)))),
            ),
            final(self).model() == old(self).model().step(
                Op::Rewrite(type_key::<C>(), Seq::new(r@.len(), |d: int| erased(*final(r@[d].1)))),
            ),
            forall|d: int|
                0 <= d < r@.len() ==> #[trigger] final(self).model().query::<C>()[d] == (
                    r@[d].0,
                    *final(r@[d].1),
                ),
    ;
}

} // verus!
