//! Nomai engine core: a verified entity component system with generational
//! entity identifiers, tiered identity, archetype storage and a command
//! buffer with causality metadata, plus the engine-side pieces that work on
//! plain values (asset annotations, glyph tables, state hashes, replay
//! bookkeeping, collision ordering).
pub mod entity;
pub mod identity;
pub mod strings;
pub mod component;
pub mod value;
pub mod archetype;
pub mod bundle;
pub mod error;
pub mod world;
pub mod query;
pub mod command;
pub mod snapshot;
pub mod annotation;
pub mod text;
pub mod tick;
pub mod replay;
pub mod palette;
pub mod json;
pub mod scene;
pub mod digest;
pub mod physics;
