//! From the fields of a decoded record to the claim of an action.
//!
//! A record is the plain data that an attested program made public. Some
//! of its fields need reading before the coordinator can use them: the
//! fleet of a join, written in the text notation, the outcome of a report,
//! written as a code, and the position of a shot, which must lie on the
//! board. A record whose fields cannot be read is treated like one that
//! did not decode.

use vstd::prelude::*;
use crate::board::BOARD_CELLS;
use crate::claims::{Attested, FireClaim, JoinClaim, ReportClaim, WaveClaim, WinClaim};
use crate::notation::{parse_fleet, parse_fleet_text};
use crate::player::{Commitment, Outcome};

verus! {

/// The claim of a join. The record must carry the fleet; its cells are
/// those that the fleet text denotes.
pub fn join_claim(gameid: String, fleetid: String, board: [u8; 32], fleet: Option<String>) -> (r:
    Attested<JoinClaim>)
    ensures
        match r {
            Attested::Verified(claim) => {
                &&& fleet matches Some(text)
                &&& claim.cells@ == parse_fleet_text(text@)
                &&& claim.game_id@ == gameid@
                &&& claim.fleet_id@ == fleetid@
                &&& claim.commitment@ == board@
            },
            Attested::Undecodable => fleet is None,
            Attested::Invalid => false,
        },
{
    match fleet {
        Some(text) => {
            let cells = parse_fleet(text.as_str());
            Attested::Verified(
                JoinClaim {
                    game_id: gameid,
                    fleet_id: fleetid,
                    commitment: Commitment { bytes: board },
                    cells,
                },
            )
        },
        None => Attested::Undecodable,
    }
}

/// The claim of a shot. A record with a position off the board is
/// unreadable.
pub fn fire_claim(gameid: String, fleetid: String, board: [u8; 32], target: String, pos: u8) -> (r:
    Attested<FireClaim>)
    ensures
        match r {
            Attested::Verified(claim) => {
                &&& pos < BOARD_CELLS
                &&& claim.game_id@ == gameid@
                &&& claim.fleet_id@ == fleetid@
                &&& claim.commitment@ == board@
                &&& claim.target@ == target@
                &&& claim.pos == pos
            },
            Attested::Undecodable => pos >= BOARD_CELLS,
            Attested::Invalid => false,
        },
{
    if pos as usize >= BOARD_CELLS {
        return Attested::Undecodable;
    }
    Attested::Verified(
        FireClaim {
            game_id: gameid,
            fleet_id: fleetid,
            commitment: Commitment { bytes: board },
            target,
            pos,
        },
    )
}

/// The claim of a report. The code 0 stands for a hit and 1 for a miss; a
/// record with another code or with a position off the board is
/// unreadable.
pub fn report_claim(
    gameid: String,
    fleetid: String,
    board: [u8; 32],
    next_board: [u8; 32],
    pos: u8,
    report: u8,
) -> (r: Attested<ReportClaim>)
    ensures
        match r {
            Attested::Verified(claim) => {
                &&& pos < BOARD_CELLS
                &&& Outcome::from_code_spec(report) == Some(claim.outcome)
                &&& claim.game_id@ == gameid@
                &&& claim.fleet_id@ == fleetid@
                &&& claim.prior@ == board@
                &&& claim.next@ == next_board@
                &&& claim.pos == pos
            },
            Attested::Undecodable => pos >= BOARD_CELLS || Outcome::from_code_spec(report) is None,
            Attested::Invalid => false,
        },
{
    if pos as usize >= BOARD_CELLS {
        return Attested::Undecodable;
    }
    match Outcome::from_code(report) {
        Some(outcome) => Attested::Verified(
            ReportClaim {
                game_id: gameid,
                fleet_id: fleetid,
                prior: Commitment { bytes: board },
                next: Commitment { bytes: next_board },
                pos,
                outcome,
            },
        ),
        None => Attested::Undecodable,
    }
}

/// The claim of a wave.
pub fn wave_claim(gameid: String, fleetid: String, board: [u8; 32]) -> (r: Attested<WaveClaim>)
    ensures
        r matches Attested::Verified(claim) && claim.game_id@ == gameid@ && claim.fleet_id@
            == fleetid@ && claim.commitment@ == board@,
{
    Attested::Verified(
        WaveClaim { game_id: gameid, fleet_id: fleetid, commitment: Commitment { bytes: board } },
    )
}

/// The claim of a victory.
pub fn win_claim(gameid: String, fleetid: String, board: [u8; 32]) -> (r: Attested<WinClaim>)
    ensures
        r matches Attested::Verified(claim) && claim.game_id@ == gameid@ && claim.fleet_id@
            == fleetid@ && claim.commitment@ == board@,
{
    Attested::Verified(
        WinClaim { game_id: gameid, fleet_id: fleetid, commitment: Commitment { bytes: board } },
    )
}

} // verus!
