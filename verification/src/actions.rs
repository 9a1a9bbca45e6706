//! What a player prepares before a claim is attested: the private inputs
//! of each of the five actions.
//!
//! A player keeps its board as a list of linear positions. The inputs
//! carry that list together with the same cells written as text, one
//! `x,y` pair per cell, pairs separated by `;`.

use vstd::prelude::*;
use crate::fleet::{fleet_fault, validar_frota, Cell, FleetError};
use crate::notation::{fleet_string, fleet_text};

verus! {

/// The private inputs of a join, a wave and a victory claim.
pub struct BaseInputs {
    pub fleetid: String,
    pub fleet: String,
    pub gameid: String,
    pub board: Vec<u8>,
    pub random: String,
}

/// The private inputs of a shot and of a report. For a report, `target`
/// carries what the player says about the shot it received.
pub struct FireInputs {
    pub fleetid: String,
    pub gameid: String,
    pub fleet: String,
    pub board: Vec<u8>,
    pub random: String,
    pub target: String,
    pub pos: u8,
}

/// The cell at a linear position: column `pos % 10`, row `pos / 10`.
pub open spec fn cell_of(pos: u8) -> Cell {
    ((pos % 10) as u8, (pos / 10) as u8)
}

/// The cells of a board given as linear positions.
pub open spec fn fleet_cells(board: Seq<u8>) -> Seq<Cell> {
    board.map_values(|pos: u8| cell_of(pos))
}

/// What the inputs of a join, a wave and a victory claim hold for a given
/// board.
pub open spec fn base_inputs_for(
    inputs: BaseInputs,
    gameid: Seq<char>,
    fleetid: Seq<char>,
    board: Seq<u8>,
    random: Seq<char>,
) -> bool {
    &&& inputs.gameid@ == gameid
    &&& inputs.fleetid@ == fleetid
    &&& inputs.board@ == board
    &&& inputs.random@ == random
    &&& inputs.fleet@ == fleet_text(fleet_cells(board))
}

/// What the inputs of a shot and of a report hold for a given board and
/// the cell in column `x` and row `y`.
pub open spec fn fire_inputs_for(
    inputs: FireInputs,
    gameid: Seq<char>,
    fleetid: Seq<char>,
    board: Seq<u8>,
    random: Seq<char>,
    target: Seq<char>,
    x: u8,
    y: u8,
) -> bool {
    &&& inputs.gameid@ == gameid
    &&& inputs.fleetid@ == fleetid
    &&& inputs.board@ == board
    &&& inputs.random@ == random
    &&& inputs.target@ == target
    &&& inputs.fleet@ == fleet_text(fleet_cells(board))
    &&& inputs.pos == y * 10 + x
}

/// The cells of a board given as linear positions.
pub fn fleet_of(board: &Vec<u8>) -> (fleet: Vec<Cell>)
    ensures
        fleet@ == fleet_cells(board@),
{
    let mut fleet: Vec<Cell> = Vec::new();
    let mut i: usize = 0;
    while i < board.len()
        invariant
            i <= board@.len(),
            fleet@ == fleet_cells(board@.subrange(0, i as int)),
        decreases board@.len() - i,
    {
        let pos: u8 = board[i];
        fleet.push((pos % 10, pos / 10));
        proof {
            assert(fleet@ =~= fleet_cells(board@.subrange(0, i + 1)));
        }
        i = i + 1;
    }
    proof {
        assert(board@.subrange(0, board@.len() as int) =~= board@);
    }
    fleet
}

/// Prepares a join. The board must be a legal fleet; the fault of one
/// that is not is returned instead of the inputs.
pub fn join_game(gameid: String, fleetid: String, board: Vec<u8>, random: String) -> (r: Result<
    BaseInputs,
    FleetError,
>)
    ensures
        match r {
            Ok(inputs) => fleet_fault(fleet_cells(board@)) is None && base_inputs_for(
                inputs,
                gameid@,
                fleetid@,
                board@,
                random@,
            ),
            Err(fault) => fleet_fault(fleet_cells(board@)) == Some(fault),
        },
{
    let fleet = fleet_of(&board);
    match validar_frota(fleet.as_slice()) {
        Err(fault) => Err(fault),
        Ok(_) => {
            let fleet_str = fleet_string(&fleet);
            Ok(BaseInputs { fleetid, fleet: fleet_str, gameid, board, random })
        },
    }
}

/// Prepares a shot at the cell in column `x` and row `y` of the board of
/// `targetfleet`. The position of the cell is `y * 10 + x`; there are no
/// inputs for a cell whose position does not fit in a byte.
pub fn fire(
    gameid: String,
    fleetid: String,
    board: Vec<u8>,
    random: String,
    targetfleet: String,
    x: u8,
    y: u8,
) -> (r: Option<FireInputs>)
    ensures
        match r {
            Some(inputs) => y * 10 + x <= u8::MAX && fire_inputs_for(
                inputs,
                gameid@,
                fleetid@,
                board@,
                random@,
                targetfleet@,
                x,
                y,
            ),
            None => y * 10 + x > u8::MAX,
        },
{
    if y as u32 * 10 + x as u32 > 255 {
        return None;
    }
    let fleet = fleet_of(&board);
    let fleet_str = fleet_string(&fleet);
    let pos: u8 = y * 10 + x;
    Some(FireInputs { fleetid, gameid, fleet: fleet_str, board, random, target: targetfleet, pos })
}

/// Prepares the report on a shot received at the cell in column `x` and
/// row `y`. What the player says about the shot travels in the place of
/// the target. There are no inputs for a cell whose position does not fit
/// in a byte.
pub fn report(
    gameid: String,
    fleetid: String,
    board: Vec<u8>,
    random: String,
    answer: String,
    x: u8,
    y: u8,
) -> (r: Option<FireInputs>)
    ensures
        match r {
            Some(inputs) => y * 10 + x <= u8::MAX && fire_inputs_for(
                inputs,
                gameid@,
                fleetid@,
                board@,
                random@,
                answer@,
                x,
                y,
            ),
            None => y * 10 + x > u8::MAX,
        },
{
    if y as u32 * 10 + x as u32 > 255 {
        return None;
    }
    let fleet = fleet_of(&board);
    let fleet_str = fleet_string(&fleet);
    let pos: u8 = y * 10 + x;
    Some(FireInputs { fleetid, gameid, fleet: fleet_str, board, random, target: answer, pos })
}

/// Prepares a wave.
pub fn wave(gameid: String, fleetid: String, board: Vec<u8>, random: String) -> (inputs:
    BaseInputs)
    ensures
        base_inputs_for(inputs, gameid@, fleetid@, board@, random@),
{
    let fleet = fleet_of(&board);
    let fleet_str = fleet_string(&fleet);
    BaseInputs { fleetid, fleet: fleet_str, gameid, board, random }
}

/// Prepares a victory claim.
pub fn win(gameid: String, fleetid: String, board: Vec<u8>, random: String) -> (inputs: BaseInputs)
    ensures
        base_inputs_for(inputs, gameid@, fleetid@, board@, random@),
{
    let fleet = fleet_of(&board);
    let fleet_str = fleet_string(&fleet);
    BaseInputs { fleetid, fleet: fleet_str, gameid, board, random }
}

} // verus!
