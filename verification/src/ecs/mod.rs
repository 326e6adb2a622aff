//! Entity Component System.
//!
//! Callers drive a [`World`]; the world delegates all state to its backend;
//! the backend resolves typed operations to the sparse set of the component's
//! type, addressing rows by [`Entity`].

pub mod backend;
pub mod component;
pub mod entity;
pub mod laws;
pub mod model;
pub mod rows;
pub mod sparse_set;
pub mod sparse_set_backend;
pub mod world;

pub use backend::EcsBackend;
pub use component::Component;
pub use entity::Entity;
pub use sparse_set_backend::SparseSetBackend;
pub use world::{EntityBuilder, World};
