//! Procedural dungeon topology generation.
//!
//! A dungeon is a connected graph of grid-aligned rooms linked by mirrored
//! door pairs, annotated with an entrance, an exit, a boss room, locked
//! doors, and the keys that open them. Generation is driven by a seeded
//! random source and retried until an attempt satisfies every invariant.

pub mod base;
pub mod room;
pub mod door;
pub mod path;
pub mod entity;
pub mod model;
pub mod order;
pub mod rng;
pub mod search;
pub mod dungeon;
pub mod validate;
pub mod draw;
