//! The hub itself: the wire messages and the roster of connected peers.

pub mod message;
pub mod roster;
pub mod server;
pub mod session;
pub mod system;
pub mod trace;
