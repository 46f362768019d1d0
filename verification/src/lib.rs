//! Run-time core of a small interactive-fiction engine: a generic entity
//! store with capability components, per-entity flag sets, a containment
//! forest with room links, lazily resolved prose, per-entity event hooks,
//! and a turn-driven rule engine.

pub mod types;
pub mod model;
pub mod world;
pub mod containment;
pub mod rule;
pub mod prose;
pub mod scenario;
pub mod player_control;
