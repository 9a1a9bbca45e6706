//! One player of a session: the commitment to a hidden board, the shots
//! received so far and the number of them that hit.

use vstd::prelude::*;
use crate::board::{BOARD_CELLS, FULL_FLEET_CELLS};

verus! {

/// What is known about one cell of a player's board.
#[derive(Clone, Copy, PartialEq, Eq, Debug, Structural)]
pub enum Shot {
    /// Nobody has fired at the cell.
    Untried,
    /// A shot at the cell was reported as a miss.
    Miss,
    /// A shot at the cell was reported as a hit.
    Hit,
}

impl Shot {
    /// The mark as a number: 0 for untried, 1 for a miss, 2 for a hit.
    pub open spec fn code_spec(self) -> u8 {
        match self {
            Shot::Untried => 0,
            Shot::Miss => 1,
            Shot::Hit => 2,
        }
    }

    /// The mark as a number: 0 for untried, 1 for a miss, 2 for a hit.
    pub fn code(self) -> (c: u8)
        ensures
            c == self.code_spec(),
    {
        match self {
            Shot::Untried => 0,
            Shot::Miss => 1,
            Shot::Hit => 2,
        }
    }
}

/// What a player reports about a shot received.
#[derive(Clone, Copy, PartialEq, Eq, Debug, Structural)]
pub enum Outcome {
    /// The shot struck a ship.
    Hit,
    /// The shot struck water.
    Miss,
}

impl Outcome {
    /// The outcome that a report code stands for: 0 is a hit, 1 is a miss
    /// and every other code stands for nothing.
    pub open spec fn from_code_spec(code: u8) -> Option<Outcome> {
        if code == 0 {
            Some(Outcome::Hit)
        } else if code == 1 {
            Some(Outcome::Miss)
        } else {
            None
        }
    }

    /// Decodes a report code.
    pub fn from_code(code: u8) -> (o: Option<Outcome>)
        ensures
            o == Outcome::from_code_spec(code),
    {
        if code == 0 {
            Some(Outcome::Hit)
        } else if code == 1 {
            Some(Outcome::Miss)
        } else {
            None
        }
    }
}

/// An opaque 32-byte digest that stands for a player's hidden board. The
/// coordinator only ever compares commitments.
#[derive(Clone, Copy, Debug)]
pub struct Commitment {
    pub bytes: [u8; 32],
}

impl View for Commitment {
    type V = Seq<u8>;

    open spec fn view(&self) -> Seq<u8> {
        self.bytes@
    }
}

impl Commitment {
    /// Whether two commitments are the same digest.
    pub fn same(&self, other: &Commitment) -> (b: bool)
        ensures
            b == (self@ == other@),
    {
        let mut i: usize = 0;
        while i < 32
            invariant
                i <= 32,
                forall|j: int| 0 <= j < i ==> self.bytes@[j] == other.bytes@[j],
            decreases 32 - i,
        {
            if self.bytes[i] != other.bytes[i] {
                return false;
            }
            i = i + 1;
        }
        assert(self@ =~= other@);
        true
    }
}

/// Number of cells marked as hit.
pub open spec fn count_hits(shots: Seq<Shot>) -> nat
    decreases shots.len(),
{
    if shots.len() == 0 {
        0
    } else {
        count_hits(shots.drop_last()) + if shots.last() == Shot::Hit {
            1nat
        } else {
            0nat
        }
    }
}

/// No more cells are hit than there are cells.
pub proof fn lemma_count_hits_bound(shots: Seq<Shot>)
    ensures
        count_hits(shots) <= shots.len(),
    decreases shots.len(),
{
    if shots.len() > 0 {
        lemma_count_hits_bound(shots.drop_last());
    }
}

/// A board on which no cell is hit counts zero hits.
pub proof fn lemma_count_hits_none(shots: Seq<Shot>)
    requires
        forall|i: int| 0 <= i < shots.len() ==> shots[i] != Shot::Hit,
    ensures
        count_hits(shots) == 0,
    decreases shots.len(),
{
    if shots.len() > 0 {
        lemma_count_hits_none(shots.drop_last());
    }
}

/// Changing one cell changes the count by what that cell gains or loses.
pub proof fn lemma_count_hits_update(shots: Seq<Shot>, i: int, mark: Shot)
    requires
        0 <= i < shots.len(),
    ensures
        count_hits(shots.update(i, mark)) + (if shots[i] == Shot::Hit {
            1nat
        } else {
            0nat
        }) == count_hits(shots) + (if mark == Shot::Hit {
            1nat
        } else {
            0nat
        }),
    decreases shots.len(),
{
    let after = shots.update(i, mark);
    if i == shots.len() - 1 {
        assert(after.drop_last() =~= shots.drop_last());
    } else {
        lemma_count_hits_update(shots.drop_last(), i, mark);
        assert(after.drop_last() =~= shots.drop_last().update(i, mark));
    }
}

/// The mathematical content of a [`Player`].
pub struct PlayerView {
    pub id: Seq<char>,
    pub commitment: Seq<u8>,
    pub shots: Seq<Shot>,
    pub hit_count: nat,
}

impl PlayerView {
    /// The grid covers the board and the counter agrees with the grid.
    pub open spec fn wf(self) -> bool {
        &&& self.shots.len() == BOARD_CELLS
        &&& self.hit_count == count_hits(self.shots)
    }

    /// A player who has just joined: nothing tried, nothing hit.
    pub open spec fn fresh(id: Seq<char>, commitment: Seq<u8>) -> PlayerView {
        PlayerView {
            id,
            commitment,
            shots: Seq::new(BOARD_CELLS as nat, |i: int| Shot::Untried),
            hit_count: 0,
        }
    }

    /// Whether the whole fleet has been hit.
    pub open spec fn sunk(self) -> bool {
        self.hit_count >= FULL_FLEET_CELLS
    }

    /// The mark that a report leaves on a cell. A reported hit marks the
    /// cell as hit; a reported miss marks it as a miss, unless the cell is
    /// already known to be hit, which is never taken back.
    pub open spec fn mark_after(self, pos: int, outcome: Outcome) -> Shot {
        match outcome {
            Outcome::Hit => Shot::Hit,
            Outcome::Miss => if self.shots[pos] == Shot::Hit {
                Shot::Hit
            } else {
                Shot::Miss
            },
        }
    }

    /// The player after a report about the cell `pos` under a new
    /// commitment.
    pub open spec fn reported(self, pos: int, outcome: Outcome, next: Seq<u8>) -> PlayerView {
        PlayerView {
            id: self.id,
            commitment: next,
            shots: self.shots.update(pos, self.mark_after(pos, outcome)),
            hit_count: if outcome == Outcome::Hit && self.shots[pos] != Shot::Hit {
                self.hit_count + 1
            } else {
                self.hit_count
            },
        }
    }

    /// The player under a new commitment.
    pub open spec fn committed(self, next: Seq<u8>) -> PlayerView {
        PlayerView { commitment: next, ..self }
    }
}

/// A report keeps the grid and the counter in agreement, and never lowers
/// the counter.
pub proof fn lemma_reported_wf(p: PlayerView, pos: int, outcome: Outcome, next: Seq<u8>)
    requires
        p.wf(),
        0 <= pos < BOARD_CELLS,
    ensures
        p.reported(pos, outcome, next).wf(),
        p.reported(pos, outcome, next).hit_count >= p.hit_count,
        p.reported(pos, outcome, next).hit_count <= p.hit_count + 1,
{
    lemma_count_hits_update(p.shots, pos, p.mark_after(pos, outcome));
}

/// A player of one session.
pub struct Player {
    id: String,
    commitment: Commitment,
    shots: Vec<Shot>,
    hit_count: u32,
}

impl View for Player {
    type V = PlayerView;

    closed spec fn view(&self) -> PlayerView {
        PlayerView {
            id: self.id@,
            commitment: self.commitment@,
            shots: self.shots@,
            hit_count: self.hit_count as nat,
        }
    }
}

impl Player {
    /// The grid covers the board and the counter agrees with the grid.
    pub open spec fn wf(&self) -> bool {
        self@.wf()
    }

    /// A player who joins under `id` with an initial commitment.
    pub fn new(id: String, commitment: Commitment) -> (p: Player)
        ensures
            p.wf(),
            p@ == PlayerView::fresh(id@, commitment@),
    {
        let mut shots: Vec<Shot> = Vec::new();
        let mut i: usize = 0;
        while i < BOARD_CELLS
            invariant
                i <= BOARD_CELLS,
                shots@.len() == i,
                forall|j: int| 0 <= j < i ==> shots@[j] == Shot::Untried,
            decreases BOARD_CELLS - i,
        {
            shots.push(Shot::Untried);
            i = i + 1;
        }
        proof {
            lemma_count_hits_none(shots@);
            assert(shots@ =~= Seq::new(BOARD_CELLS as nat, |i: int| Shot::Untried));
        }
        Player { id, commitment, shots, hit_count: 0 }
    }

    /// The identifier under which the player joined.
    pub fn id(&self) -> (r: &String)
        ensures
            r@ == self@.id,
    {
        &self.id
    }

    /// The commitment to the player's current board.
    pub fn commitment(&self) -> (c: Commitment)
        ensures
            c@ == self@.commitment,
    {
        self.commitment
    }

    /// Number of cells of this player's board that were hit.
    pub fn hit_count(&self) -> (n: u32)
        ensures
            n == self@.hit_count,
    {
        self.hit_count
    }

    /// Whether the whole fleet has been hit.
    pub fn is_sunk(&self) -> (b: bool)
        ensures
            b == self@.sunk(),
    {
        self.hit_count >= FULL_FLEET_CELLS
    }

    /// What is known about the cell `pos`.
    pub fn shot_at(&self, pos: u8) -> (s: Shot)
        requires
            self.wf(),
            pos < BOARD_CELLS,
        ensures
            s == self@.shots[pos as int],
    {
        self.shots[pos as usize]
    }

    /// A copy of the whole grid of shots received, indexed by position.
    pub fn shots(&self) -> (grid: Vec<Shot>)
        ensures
            grid@ == self@.shots,
    {
        let mut grid: Vec<Shot> = Vec::new();
        let mut i: usize = 0;
        while i < self.shots.len()
            invariant
                i <= self.shots@.len(),
                grid@ == self.shots@.subrange(0, i as int),
            decreases self.shots@.len() - i,
        {
            grid.push(self.shots[i]);
            assert(grid@ =~= self.shots@.subrange(0, i + 1));
            i = i + 1;
        }
        assert(grid@ =~= self.shots@);
        grid
    }

    /// Replaces the commitment and nothing else.
    pub fn set_commitment(&mut self, next: Commitment)
        ensures
            final(self)@ == old(self)@.committed(next@),
    {
        self.commitment = next;
    }

    /// Records a report about the cell `pos` together with the commitment
    /// that follows it.
    pub fn record(&mut self, pos: u8, outcome: Outcome, next: Commitment)
        requires
            old(self).wf(),
            pos < BOARD_CELLS,
        ensures
            final(self).wf(),
            final(self)@ == old(self)@.reported(pos as int, outcome, next@),
    {
        proof {
            lemma_reported_wf(self@, pos as int, outcome, next@);
            lemma_count_hits_bound(self@.shots);
        }
        let was: Shot = self.shots[pos as usize];
        match outcome {
            Outcome::Hit => {
                self.shots.set(pos as usize, Shot::Hit);
                if was != Shot::Hit {
                    self.hit_count = self.hit_count + 1;
                }
            },
            Outcome::Miss => {
                if was != Shot::Hit {
                    self.shots.set(pos as usize, Shot::Miss);
                }
            },
        }
        self.commitment = next;
        assert(self.shots@ =~= old(self)@.shots.update(
            pos as int,
            old(self)@.mark_after(pos as int, outcome),
        ));
    }
}

} // verus!
