//! Archetype-based entity component system.
//!
//! Entities are packed 64-bit handles carrying a slot index and a generation
//! counter; components are byte strings keyed by a component key and stored
//! column-wise inside archetype tables; a scheduler orders systems into
//! stages by their declared dependencies.

pub mod archetype;
pub mod entity;
pub mod query;
pub mod scheduler;
pub mod world;

pub use entity::{Entity, EntityId};
pub use query::Query;
pub use world::World;
