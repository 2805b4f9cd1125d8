//! Session-routing core for a room-based multiplayer game server.
//!
//! Clients sign up under a player name into a named room, or reconnect by
//! presenting a previously issued 32-byte token (carried on the wire in
//! base64). A single `MasterRouter` owns every room, the global token index
//! and the per-connection "last pushed state" snapshots; its operations are
//! verified state transitions over the model in [`model`]. The game engine
//! itself and the network transport are external collaborators: engine
//! outcomes enter the router as plain values, and every outbound message is
//! returned as a [`messages::Push`] for the caller to deliver.

pub mod alist;
pub mod laws;
pub mod messages;
pub mod model;
pub mod router;
pub mod session;
pub mod token;
