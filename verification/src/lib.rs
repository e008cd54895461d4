//! Core of a live notice board: a registry of connected clients, an
//! in-memory store of talk cards, a wire codec for the update protocol,
//! and the event pipeline that applies mutation requests and fans the
//! results out to every live connection.
//!
//! The transport layer (HTTP, WebSocket upgrade, channels, timers) lives
//! outside this crate and drives it with plain values.

pub mod api;
pub mod codec;
pub mod events;
pub mod handler;
pub mod model;
pub mod registry;
pub mod store;

pub use model::CreateTalk;
pub use model::Talk;
pub use model::TalkType;
