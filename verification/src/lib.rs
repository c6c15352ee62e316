//! An entity-component-system runtime.
//!
//! Typed data ("components") is attached to integer-identified entities and
//! world-global singletons ("resources"); every component and resource type
//! gets a stable small integer id from a name-sorted registry. Systems run
//! against the world under declared read/write footprints, and a scheduler
//! groups them into conflict-free waves.

pub mod component;
pub mod entity;
pub mod mappings;
pub mod motion;
pub mod order;
pub mod registry;
pub mod scheduler;
pub mod system;
mod util;
pub mod world;
