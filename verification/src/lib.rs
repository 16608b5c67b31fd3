//! A small entity-component-system runtime: entity identity and recycling,
//! per-entity component stores, composable queries over component types,
//! and a tick-based scheduler that runs systems over matching entities.

pub mod tag;
pub mod components;
pub mod query;
pub mod entities;
pub mod table;
pub mod systems;
pub mod world;
pub mod bitvec;

pub use tag::TypeTag;
pub use components::{Component, ComponentStore};
pub use query::{Matchers, Query as EntityQuery};
pub use entities::EntityEditor;
pub use table::{AccessError, EntityTable};
pub use world::World;
use vstd::prelude::*;

verus! {

/// The handle of an entity: the index of its slot.
pub type Entity = usize;

} // verus!
