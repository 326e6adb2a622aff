//! The verified core of a graphics engine: an entity-component system, and
//! the framing of shader bytecode.

pub mod ecs;
pub mod error;
pub mod shader;
