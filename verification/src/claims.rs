//! The public records that attested actions carry, one shape per action.
//!
//! The coordinator never sees how a record was attested. Whoever checks
//! the attestation hands over the decoded record, or says that the check
//! or the decoding failed.

use vstd::prelude::*;
use crate::fleet::Cell;
use crate::player::{Commitment, Outcome};

verus! {

/// The result of checking an attested claim and decoding its record.
pub enum Attested<T> {
    /// The attestation holds and the record has the expected shape.
    Verified(T),
    /// The attestation does not hold.
    Invalid,
    /// The attestation holds but the record does not decode.
    Undecodable,
}

/// The five actions that a player can submit.
#[derive(Clone, Copy, PartialEq, Eq, Debug, Structural)]
pub enum Action {
    Join,
    Fire,
    Report,
    Wave,
    Win,
}

/// A player asks to join a game with a fleet and a commitment to it.
pub struct JoinClaim {
    pub game_id: String,
    pub fleet_id: String,
    pub commitment: Commitment,
    pub cells: Vec<Cell>,
}

/// A player fires at a cell of another player's board.
pub struct FireClaim {
    pub game_id: String,
    pub fleet_id: String,
    /// The commitment that binds the actor from now on.
    pub commitment: Commitment,
    pub target: String,
    pub pos: u8,
}

/// A player reports the outcome of the shot it received.
pub struct ReportClaim {
    pub game_id: String,
    pub fleet_id: String,
    /// The commitment from which the report starts.
    pub prior: Commitment,
    /// The commitment that binds the reporter from now on.
    pub next: Commitment,
    pub pos: u8,
    pub outcome: Outcome,
}

/// A player passes its turn.
pub struct WaveClaim {
    pub game_id: String,
    pub fleet_id: String,
    /// The commitment attested with the claim; the coordinator does not
    /// compare it.
    pub commitment: Commitment,
}

/// A player claims victory.
pub struct WinClaim {
    pub game_id: String,
    pub fleet_id: String,
    /// The commitment attested with the claim; the coordinator does not
    /// compare it.
    pub commitment: Commitment,
}

} // verus!
