//! An entity-component runtime: integer entity identifiers index into
//! per-component-type columns of optional slots, a registry of weak
//! component handles supports repointing and orphan sweeps, and a small
//! pipeline runs update logic over the whole store in registration order.

pub mod component;
pub mod component_storage;
pub mod laws;
pub mod systems;
pub mod world;

pub use component::Component;
pub use component_storage::Column;
pub use component_storage::ComponentStorage;
pub use systems::System;
pub use systems::Systems;
pub use world::ComponentHandle;
pub use world::HandleId;
pub use world::World;
pub use world::WorldError;
