//! A force-directed layout engine on fixed-point coordinates.
//!
//! A `World` holds entities and their components in columns. Each tick runs
//! pointer attraction, springs, Coulomb repulsion, damping, integration and
//! arena containment in that order, then applies deferred removals. Every
//! pass is specified in `pipeline` over the world's view.
pub mod components;
pub mod driver;
pub mod fixed;
pub mod forces;
pub mod pipeline;
pub mod world;

pub use components::{
    ArenaSize, Collider, DeltaTime, DomElement, Edge, Entity, EntityArgs, MouseAttract, MousePos,
    PosDiff, Position, Repel, Velocity,
};
pub use driver::{
    delta_ms, execute_systems, spawn_entity, tick, update_arena_size, update_mouse_position,
};
pub use world::{initialize_world, ComponentBundle, ForceSwitches, World};
