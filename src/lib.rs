//! The session registry and broadcast engine of a multiplayer word-guessing
//! game server: per session, the game state and the subscribed client
//! channels, the messages sent to those channels, and the decisions of each
//! client's dispatch loop.
use vstd::prelude::*;

pub mod calendar;
pub mod channel;
pub mod config;
pub mod game;
pub mod keyed;
pub mod message;
pub mod registry;

verus! {

} // verus!
