//! What the attested side computes: the public record of an action from
//! the private inputs of the player.
//!
//! A record never discloses the board. It carries a commitment, the
//! SHA-256 digest of bytes that the board determines, and for a report
//! what the board says about the shot.

use vstd::prelude::*;
use vstd::relations::{sorted_by, total_ordering};
use vstd::seq_lib::{lemma_sorted_unique, to_multiset_build, to_multiset_insert};
use vstd::string::*;
use vstd::utf8::encode_utf8;
use sha2::{Digest, Sha256};
use crate::actions::{cell_of, BaseInputs, FireInputs};
use crate::claims::{FireClaim, JoinClaim, ReportClaim, WaveClaim, WinClaim};
use crate::fleet::{in_bounds, Cell};
use crate::notation::{parse_fleet, parse_fleet_text};
use crate::player::{Commitment, Outcome};

verus! {

/// The SHA-256 digest of a sequence of bytes, as the `sha2` crate computes
/// it.
pub uninterp spec fn sha256_of(data: Seq<u8>) -> Seq<u8>;

/// Calls `sha2::Sha256::digest` on `data`. The contract gives the digest
/// its name and claims nothing else of it.
#[verifier::external_body]
fn sha256(data: &[u8]) -> (out: [u8; 32])
    ensures
        out@ == sha256_of(data@),
{
    Sha256::digest(data).into()
}

/// The commitment to a sequence of bytes: its SHA-256 digest.
pub fn commit(data: &Vec<u8>) -> (c: Commitment)
    ensures
        c@ == sha256_of(data@),
{
    Commitment { bytes: sha256(data.as_slice()) }
}

/// The order of bytes by value.
pub open spec fn byte_leq() -> spec_fn(u8, u8) -> bool {
    |a: u8, b: u8| a <= b
}

/// The linear position of a cell of the board.
pub open spec fn position_of(c: Cell) -> u8 {
    (c.1 * 10 + c.0) as u8
}

/// The linear positions of the cells, in the order of the cells.
pub open spec fn positions(cells: Seq<Cell>) -> Seq<u8> {
    cells.map_values(|c: Cell| position_of(c))
}

/// Whether every cell lies on the board.
pub open spec fn all_in_bounds(cells: Seq<Cell>) -> bool {
    forall|i: int| 0 <= i < cells.len() ==> in_bounds(#[trigger] cells[i])
}

/// The bytes to which a joining player commits: the positions of its
/// cells in ascending order.
pub open spec fn join_bytes(cells: Seq<Cell>) -> Seq<u8> {
    positions(cells).sort_by(byte_leq())
}

/// Whether a shot at the position strikes one of the cells.
pub open spec fn strikes(cells: Seq<Cell>, pos: u8) -> bool {
    cells.contains(cell_of(pos))
}

/// The board after a shot at `pos`. A shot that strikes turns the mark 1
/// at that index of the board into 2; anything else leaves the board as
/// it is.
pub open spec fn board_after(board: Seq<u8>, pos: u8, hit: bool) -> Seq<u8> {
    if hit && board[pos as int] == 1 {
        board.update(pos as int, 2)
    } else {
        board
    }
}

/// The linear positions of the cells, or nothing if a cell lies off the
/// board.
pub fn positions_of(cells: &Vec<Cell>) -> (r: Option<Vec<u8>>)
    ensures
        match r {
            Some(list) => all_in_bounds(cells@) && list@ == positions(cells@),
            None => !all_in_bounds(cells@),
        },
{
    let mut list: Vec<u8> = Vec::new();
    let mut i: usize = 0;
    while i < cells.len()
        invariant
            i <= cells@.len(),
            all_in_bounds(cells@.subrange(0, i as int)),
            list@ == positions(cells@.subrange(0, i as int)),
        decreases cells@.len() - i,
    {
        let c: Cell = cells[i];
        if c.0 >= 10 || c.1 >= 10 {
            proof {
                assert(!in_bounds(cells@[i as int]));
            }
            return None;
        }
        list.push(c.1 * 10 + c.0);
        proof {
            let done = cells@.subrange(0, i as int);
            let more = cells@.subrange(0, i + 1);
            assert forall|k: int| 0 <= k < more.len() implies in_bounds(#[trigger] more[k]) by {
                if k < i {
                    assert(more[k] == done[k]);
                }
            }
            assert(list@ =~= positions(more));
        }
        i = i + 1;
    }
    proof {
        assert(cells@.subrange(0, cells@.len() as int) =~= cells@);
    }
    Some(list)
}

/// The bytes in ascending order.
pub fn sorted_bytes(bytes: &Vec<u8>) -> (out: Vec<u8>)
    ensures
        out@ == bytes@.sort_by(byte_leq()),
{
    let mut out: Vec<u8> = Vec::new();
    let mut i: usize = 0;
    assert(total_ordering(byte_leq()));
    proof {
        assert(bytes@.subrange(0, 0) =~= Seq::<u8>::empty());
    }
    while i < bytes.len()
        invariant
            i <= bytes@.len(),
            out@.len() == i,
            sorted_by(out@, byte_leq()),
            out@.to_multiset() == bytes@.subrange(0, i as int).to_multiset(),
        decreases bytes@.len() - i,
    {
        let x: u8 = bytes[i];
        let mut k: usize = 0;
        while k < out.len() && out[k] <= x
            invariant
                k <= out@.len(),
                forall|j: int| 0 <= j < k ==> out@[j] <= x,
            decreases out@.len() - k,
        {
            k = k + 1;
        }
        let ghost before = out@;
        out.insert(k, x);
        proof {
            to_multiset_insert(before, k as int, x);
            to_multiset_build(bytes@.subrange(0, i as int), x);
            assert(bytes@.subrange(0, i as int).push(x) =~= bytes@.subrange(0, i + 1));
            assert forall|a: int, b: int| 0 <= a < b < out@.len() implies #[trigger] byte_leq()(
                out@[a],
                out@[b],
            ) by {
                if b < k {
                    assert(byte_leq()(before[a], before[b]));
                } else if b == k {
                } else if a < k {
                    assert(byte_leq()(before[a], before[b - 1]));
                } else if a == k {
                    if (k as int) < b - 1 {
                        assert(byte_leq()(before[k as int], before[b - 1]));
                    }
                } else {
                    assert(byte_leq()(before[a - 1], before[b - 1]));
                }
            }
        }
        i = i + 1;
    }
    proof {
        assert(bytes@.subrange(0, bytes@.len() as int) =~= bytes@);
        bytes@.lemma_sort_by_ensures(byte_leq());
        lemma_sorted_unique(out@, bytes@.sort_by(byte_leq()), byte_leq());
    }
    out
}

/// Whether a shot at the position strikes one of the cells.
pub fn shot_hits(cells: &Vec<Cell>, pos: u8) -> (hit: bool)
    ensures
        hit == strikes(cells@, pos),
{
    let x: u8 = pos % 10;
    let y: u8 = pos / 10;
    let mut i: usize = 0;
    while i < cells.len()
        invariant
            i <= cells@.len(),
            x == pos % 10,
            y == pos / 10,
            forall|j: int| 0 <= j < i ==> cells@[j] != cell_of(pos),
        decreases cells@.len() - i,
    {
        let c: Cell = cells[i];
        if c.0 == x && c.1 == y {
            proof {
                assert(cells@[i as int] == cell_of(pos));
            }
            return true;
        }
        i = i + 1;
    }
    false
}

/// The board after a shot at `pos`, or nothing if the shot strikes and the
/// board has no index `pos`.
pub fn board_after_shot(board: &Vec<u8>, pos: u8, hit: bool) -> (r: Option<Vec<u8>>)
    ensures
        match r {
            Some(after) => !(hit && pos >= board@.len()) && after@ == board_after(board@, pos, hit),
            None => hit && pos >= board@.len(),
        },
{
    if hit && pos as usize >= board.len() {
        return None;
    }
    let mut after: Vec<u8> = Vec::new();
    let mut i: usize = 0;
    while i < board.len()
        invariant
            i <= board@.len(),
            after@ == board@.subrange(0, i as int),
        decreases board@.len() - i,
    {
        after.push(board[i]);
        proof {
            assert(after@ =~= board@.subrange(0, i + 1));
        }
        i = i + 1;
    }
    proof {
        assert(board@.subrange(0, board@.len() as int) =~= board@);
    }
    if hit && after[pos as usize] == 1 {
        after.set(pos as usize, 2);
    }
    Some(after)
}

/// The record of a join: the cells that the fleet text denotes and the
/// commitment to their positions in ascending order. There is no record
/// for a fleet with a cell off the board.
pub fn join_record(inputs: &BaseInputs) -> (r: Option<JoinClaim>)
    ensures
        match r {
            Some(claim) => {
                &&& all_in_bounds(parse_fleet_text(inputs.fleet@))
                &&& claim.game_id@ == inputs.gameid@
                &&& claim.fleet_id@ == inputs.fleetid@
                &&& claim.cells@ == parse_fleet_text(inputs.fleet@)
                &&& claim.commitment@ == sha256_of(join_bytes(parse_fleet_text(inputs.fleet@)))
            },
            None => !all_in_bounds(parse_fleet_text(inputs.fleet@)),
        },
{
    let cells = parse_fleet(inputs.fleet.as_str());
    let list = match positions_of(&cells) {
        Some(list) => list,
        None => {
            return None;
        },
    };
    let sorted = sorted_bytes(&list);
    Some(
        JoinClaim {
            game_id: inputs.gameid.clone(),
            fleet_id: inputs.fleetid.clone(),
            commitment: commit(&sorted),
            cells,
        },
    )
}

/// The record of a shot: who fires at which cell of whom, under the
/// commitment to the actor's board.
pub fn fire_record(inputs: &FireInputs) -> (claim: FireClaim)
    ensures
        claim.game_id@ == inputs.gameid@,
        claim.fleet_id@ == inputs.fleetid@,
        claim.target@ == inputs.target@,
        claim.pos == inputs.pos,
        claim.commitment@ == sha256_of(inputs.board@),
{
    FireClaim {
        game_id: inputs.gameid.clone(),
        fleet_id: inputs.fleetid.clone(),
        commitment: commit(&inputs.board),
        target: inputs.target.clone(),
        pos: inputs.pos,
    }
}

/// The record of a report: whether the shot strikes a cell of the fleet,
/// the commitment to the board before the shot and the commitment to the
/// board after it. There is no record if the shot strikes and the board
/// has no index for its position.
pub fn report_record(inputs: &FireInputs) -> (r: Option<ReportClaim>)
    ensures
        match r {
            Some(claim) => {
                let hit = strikes(parse_fleet_text(inputs.fleet@), inputs.pos);
                &&& !(hit && inputs.pos >= inputs.board@.len())
                &&& claim.game_id@ == inputs.gameid@
                &&& claim.fleet_id@ == inputs.fleetid@
                &&& claim.pos == inputs.pos
                &&& claim.outcome == if hit {
                    Outcome::Hit
                } else {
                    Outcome::Miss
                }
                &&& claim.prior@ == sha256_of(inputs.board@)
                &&& claim.next@ == sha256_of(board_after(inputs.board@, inputs.pos, hit))
            },
            None => strikes(parse_fleet_text(inputs.fleet@), inputs.pos) && inputs.pos
                >= inputs.board@.len(),
        },
{
    let cells = parse_fleet(inputs.fleet.as_str());
    let hit = shot_hits(&cells, inputs.pos);
    let after = match board_after_shot(&inputs.board, inputs.pos, hit) {
        Some(after) => after,
        None => {
            return None;
        },
    };
    Some(
        ReportClaim {
            game_id: inputs.gameid.clone(),
            fleet_id: inputs.fleetid.clone(),
            prior: commit(&inputs.board),
            next: commit(&after),
            pos: inputs.pos,
            outcome: if hit {
                Outcome::Hit
            } else {
                Outcome::Miss
            },
        },
    )
}

/// The bytes to which a waving or winning player commits: the board
/// followed by the bytes of the random text.
pub open spec fn salted_bytes(board: Seq<u8>, random: Seq<char>) -> Seq<u8> {
    board + encode_utf8(random)
}

fn salted(inputs: &BaseInputs) -> (data: Vec<u8>)
    ensures
        data@ == salted_bytes(inputs.board@, inputs.random@),
{
    let salt = inputs.random.as_str().as_bytes_vec();
    let mut data: Vec<u8> = Vec::new();
    let mut i: usize = 0;
    while i < inputs.board.len()
        invariant
            i <= inputs.board@.len(),
            data@ == inputs.board@.subrange(0, i as int),
        decreases inputs.board@.len() - i,
    {
        data.push(inputs.board[i]);
        proof {
            assert(data@ =~= inputs.board@.subrange(0, i + 1));
        }
        i = i + 1;
    }
    let mut j: usize = 0;
    while j < salt.len()
        invariant
            j <= salt@.len(),
            data@ == inputs.board@ + salt@.subrange(0, j as int),
        decreases salt@.len() - j,
    {
        data.push(salt[j]);
        proof {
            assert(data@ =~= inputs.board@ + salt@.subrange(0, j + 1));
        }
        j = j + 1;
    }
    proof {
        assert(salt@.subrange(0, salt@.len() as int) =~= salt@);
    }
    data
}

/// The record of a wave, under the commitment to the board and the random
/// text.
pub fn wave_record(inputs: &BaseInputs) -> (claim: WaveClaim)
    ensures
        claim.game_id@ == inputs.gameid@,
        claim.fleet_id@ == inputs.fleetid@,
        claim.commitment@ == sha256_of(salted_bytes(inputs.board@, inputs.random@)),
{
    let data = salted(inputs);
    WaveClaim {
        game_id: inputs.gameid.clone(),
        fleet_id: inputs.fleetid.clone(),
        commitment: commit(&data),
    }
}

/// The record of a victory claim, under the commitment to the board and
/// the random text.
pub fn win_record(inputs: &BaseInputs) -> (claim: WinClaim)
    ensures
        claim.game_id@ == inputs.gameid@,
        claim.fleet_id@ == inputs.fleetid@,
        claim.commitment@ == sha256_of(salted_bytes(inputs.board@, inputs.random@)),
{
    let data = salted(inputs);
    WinClaim {
        game_id: inputs.gameid.clone(),
        fleet_id: inputs.fleetid.clone(),
        commitment: commit(&data),
    }
}

} // verus!
