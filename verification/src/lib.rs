//! Authoritative multiplayer state-synchronization core.
//!
//! The library holds the verified heart of a small multiplayer server:
//! the wire-protocol codec with its length-prefixed framing, the shared
//! world state with its update and tick operations, and the decision
//! logic of the server dispatcher, the per-connection actors and the
//! client session. Socket handling and timers live outside the library
//! and drive these cores with plain values.

pub mod client;
pub mod codec;
pub mod color;
pub mod frame;
pub mod message;
pub mod server;
pub mod vec2;
pub mod version;
pub mod world;

pub use color::Color;
pub use vec2::Vec2;
