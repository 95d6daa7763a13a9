//! Signalling hub for a WebRTC mesh.
//!
//! The hub introduces peers to one another and relays the session
//! descriptions and connectivity candidates they exchange; media never passes
//! through it.

pub mod signalling;
