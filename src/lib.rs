//! A signaling core for peer-to-peer video chat: a registry of live
//! connections, sessions that group them under a capacity, a router that
//! relays offers, answers and ICE candidates between the members of a
//! session, and a supervisor that retires silent connections.
//!
//! `model` states what each operation does to the state as mathematical
//! values; `server` is proved against it; `laws` holds the properties that
//! relate several operations. `client` is the start-up protocol of the
//! browser side, `wire` the text frame of a message.

pub mod client;
pub mod keyed;
pub mod laws;
pub mod lifecycle;
pub mod message;
pub mod model;
pub mod server;
pub mod wire;
