//! Relay core of a multiplayer networking backend: identifier pools, the
//! per-room client registry, room membership with host migration, and the
//! engine that routes connections to rooms.

pub mod client;
pub mod engine;
pub mod error;
pub mod id;
pub mod id_generator;
pub mod json;
pub mod relay;
pub mod room;
pub mod store;
pub mod table;
