//! Errors surfaced at the boundary of the entity-component system.

use vstd::prelude::*;
use crate::ecs::entity::Entity;

verus! {

/// What an entity-scoped operation can fail with.
#[derive(Debug, Copy, Clone, Eq, PartialEq, Structural)]
pub enum EcsError {
    /// The target entity is not alive, or never existed.
    EntityNotFound(Entity),
    /// The entity lacks a component that an operation requires. No current
    /// operation reports it: reads answer `None` instead.
    ComponentNotFound(Entity),
}

/// The name under which callers of the world see its errors.
pub type GammaVkError = EcsError;

} // verus!
