//! Session and room orchestration core for a multiplayer card game server.
//!
//! The crate tracks which users are registered, which rooms exist, which
//! users occupy which rooms and who owns each room, and computes, per user,
//! the set of entities that belongs in that user's replication view.  All
//! state lives in a single [`lobby::Lobby`] value that the surrounding tick
//! loop threads through its event handling; the transport and presentation
//! layers stay outside this crate and exchange plain values with it.

pub mod dispatch;
pub mod laws;
pub mod lobby;
pub mod model;
pub mod protocol;
pub mod scope;
