//! Why the coordinator turns an action down.

use vstd::prelude::*;
use crate::fleet::FleetError;

verus! {

/// The reasons for which an action is rejected. None of them is fatal: a
/// rejected action leaves every session as it was.
#[derive(Clone, Copy, PartialEq, Eq, Debug, Structural)]
pub enum GameError {
    /// The attestation of the claim could not be verified.
    InvalidAttestation,
    /// The attested record does not have the shape that the action needs.
    DecodeFailure,
    /// No session has the given identifier.
    GameNotFound,
    /// The session has no player of the given identifier.
    PlayerNotFound,
    /// The identifier is taken by a player with another commitment.
    DuplicatePlayer,
    /// The fleet presented at join time is not a legal fleet.
    InvalidFleetLayout(FleetError),
    /// The action belongs to the active player, who is somebody else.
    NotYourTurn,
    /// A shot is waiting for its report.
    PendingReportExists,
    /// The whole fleet of the target has been hit already.
    TargetAlreadyEliminated,
    /// The report does not answer the shot that is pending.
    ReportMismatch,
    /// The reporter's commitment is not the one on record.
    CommitmentMismatch,
    /// The cell was reported as hit before.
    AlreadyHit,
    /// The claimant has not won.
    WinConditionUnmet,
}

} // verus!
