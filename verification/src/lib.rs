//! Authoritative session/state manager for a real-time multiplayer world
//! synchronizer.
//!
//! Clients push periodic transform updates; the server keeps one
//! authoritative record per session, rejects physically implausible movement,
//! derives presence from inactivity timeouts, supports session resumption and
//! persists session identities across restarts.
//!
//! All quantities are plain integers: positions in micrometers, velocities in
//! micrometers per second, timestamps in milliseconds. The surrounding
//! process converts wire-format floating point values at the edge.

pub mod codec;
pub mod movement;
pub mod naming;
pub mod player;
pub mod server;
pub mod storage;
