//! Session coordinator for a multiplayer fleet battle played over
//! commitments.
//!
//! Players never disclose their boards. Every move arrives as an attested
//! claim with a public record: a commitment to the hidden board and what
//! the move says in the open. The coordinator tracks every open game,
//! enforces turn order and the discipline of fire and report, validates
//! fleet layouts at join time and decides victory claims, all from those
//! records.
//!
//! The coordinator's side:
//! - [`fleet`]: which layouts are legal fleets;
//! - [`player`], [`session`], [`registry`]: the state of the games and
//!   its transitions;
//! - [`claims`], [`decode`]: the records of the five actions;
//! - [`coordinator`]: the handlers of the five actions;
//! - [`messages`]: replies and published events;
//! - [`laws`]: properties of the rules.
//!
//! The player's side:
//! - [`actions`]: the private inputs of a claim;
//! - [`attested`]: the public record computed from them;
//! - [`notation`]: fleets as text.

pub mod text;
pub mod board;
pub mod player;
pub mod fleet;
pub mod errors;
pub mod session;
pub mod claims;
pub mod decode;
pub mod registry;
pub mod messages;
pub mod coordinator;
pub mod laws;
pub mod notation;
pub mod actions;
pub mod attested;
