//! An entity-component-system runtime core.
//!
//! The crate provides the pieces an embedder assembles into a game loop:
//! a resource container ([`world::World`]), an entity and archetype index
//! ([`entity::Entities`]), component storage engines ([`storage::Storage`]),
//! a system registry that derives a dependency graph from declared resource
//! accesses ([`system::SystemRegistry`]), a scheduler that turns that graph
//! into a per-frame execution plan ([`scheduler::Scheduler`]), and the event
//! channel that signals changes between them ([`event_channel::EventChannel`]).

pub mod entity;
pub mod event_channel;
pub mod mask;
pub mod component;
pub mod scheduler;
pub mod sparse_set;
pub mod system;
pub mod topological_sort;
pub mod world;
pub mod ring_vec;
pub mod storage;

pub use entity::Entities;
pub use entity::Entity;
pub use event_channel::EventChannel;
pub use ring_vec::RingCursor;
pub use ring_vec::RingVec;
pub use scheduler::Scheduler;
pub use system::SystemInfo;
pub use system::SystemRegistry;
pub use world::ResourceId;
pub use world::World;
