//! One game: its players, the order of turns and the shot that waits for a
//! report.
//!
//! The player at the front of the turn queue is the active player. A shot
//! fired by the active player stays pending until its target reports the
//! outcome; only then, or when the active player waves, does the turn pass
//! to the next player in the queue.

use vstd::prelude::*;
use std::collections::VecDeque;
use crate::board::BOARD_CELLS;
use crate::board::FULL_FLEET_CELLS;
use crate::errors::GameError;
use crate::fleet::{fleet_fault, validar_frota, Cell};
use crate::player::{lemma_reported_wf, Commitment, Outcome, Player, PlayerView, Shot};

verus! {

/// How a join ended.
#[derive(Clone, Copy, PartialEq, Eq, Debug, Structural)]
pub enum Joined {
    /// The player is new to the session.
    New,
    /// The player had joined before with the same commitment; nothing
    /// changed.
    Again,
}

/// The queue after the player at its front has moved to its back.
pub open spec fn rotated(queue: Seq<Seq<char>>) -> Seq<Seq<char>> {
    if queue.len() > 0 {
        queue.drop_first().push(queue[0])
    } else {
        queue
    }
}

/// Whether one of the players has this identifier.
pub open spec fn has_id(players: Seq<PlayerView>, id: Seq<char>) -> bool {
    exists|i: int| 0 <= i < players.len() && (#[trigger] players[i]).id == id
}

/// A place among the players at which the identifier occurs.
pub open spec fn seat_of(players: Seq<PlayerView>, id: Seq<char>) -> int {
    choose|i: int| 0 <= i < players.len() && (#[trigger] players[i]).id == id
}

/// Whether no two players share an identifier.
pub open spec fn distinct_ids(players: Seq<PlayerView>) -> bool {
    forall|i: int, j: int|
        0 <= i < j < players.len() ==> (#[trigger] players[i]).id != (#[trigger] players[j]).id
}

/// The mathematical content of a [`Session`].
pub struct SessionView {
    pub id: Seq<char>,
    pub players: Seq<PlayerView>,
    pub turn_queue: Seq<Seq<char>>,
    pub pending_shot: Option<(u8, Seq<char>)>,
}

impl SessionView {
    /// A session without players.
    pub open spec fn empty(id: Seq<char>) -> SessionView {
        SessionView { id, players: Seq::empty(), turn_queue: Seq::empty(), pending_shot: None }
    }

    /// Whether a player of this identifier has joined.
    pub open spec fn has_player(self, id: Seq<char>) -> bool {
        has_id(self.players, id)
    }

    /// The place of the player in the order of joining.
    pub open spec fn seat(self, id: Seq<char>) -> int {
        seat_of(self.players, id)
    }

    /// The player of this identifier.
    pub open spec fn player(self, id: Seq<char>) -> PlayerView {
        self.players[self.seat(id)]
    }

    /// The player entitled to fire or wave: the front of the turn queue.
    pub open spec fn active_player(self) -> Option<Seq<char>> {
        if self.turn_queue.len() > 0 {
            Some(self.turn_queue[0])
        } else {
            None
        }
    }

    /// The invariant of a session. Identifiers are unique; every player
    /// stands in the turn queue exactly once and the queue names nobody
    /// else; no player has more hits than a fleet has cells; a pending shot
    /// aims at a cell of the board of a player whose fleet is not yet sunk.
    pub open spec fn wf(self) -> bool {
        &&& forall|i: int|
            0 <= i < self.players.len() ==> (#[trigger] self.players[i]).wf()
                && self.players[i].hit_count <= FULL_FLEET_CELLS
        &&& distinct_ids(self.players)
        &&& self.turn_queue.no_duplicates()
        &&& forall|i: int|
            0 <= i < self.players.len() ==> self.turn_queue.contains(
                (#[trigger] self.players[i]).id,
            )
        &&& forall|k: int|
            0 <= k < self.turn_queue.len() ==> self.has_player(#[trigger] self.turn_queue[k])
        &&& match self.pending_shot {
            Some((pos, target)) => pos < BOARD_CELLS && self.has_player(target) && !self.player(
                target,
            ).sunk(),
            None => true,
        }
    }

    /// Why a join is rejected, if it is. A player who is already present
    /// may join again with the same commitment; with another one the
    /// identifier counts as taken. A newcomer needs a legal fleet.
    pub open spec fn join_error(
        self,
        id: Seq<char>,
        commitment: Seq<u8>,
        cells: Seq<Cell>,
    ) -> Option<GameError> {
        if self.has_player(id) {
            if self.player(id).commitment == commitment {
                None
            } else {
                Some(GameError::DuplicatePlayer)
            }
        } else {
            match fleet_fault(cells) {
                Some(fault) => Some(GameError::InvalidFleetLayout(fault)),
                None => None,
            }
        }
    }

    /// The session after an accepted join: a newcomer is added with an
    /// empty grid and takes the last place in the turn queue.
    pub open spec fn joined(self, id: Seq<char>, commitment: Seq<u8>) -> SessionView {
        if self.has_player(id) {
            self
        } else {
            SessionView {
                players: self.players.push(PlayerView::fresh(id, commitment)),
                turn_queue: self.turn_queue.push(id),
                ..self
            }
        }
    }

    /// Why a shot is rejected, if it is.
    pub open spec fn fire_error(self, actor: Seq<char>, target: Seq<char>, pos: u8) -> Option<
        GameError,
    > {
        if self.pending_shot is Some {
            Some(GameError::PendingReportExists)
        } else if pos >= BOARD_CELLS {
            Some(GameError::DecodeFailure)
        } else if !self.has_player(actor) || !self.has_player(target) {
            Some(GameError::PlayerNotFound)
        } else if self.active_player() != Some(actor) {
            Some(GameError::NotYourTurn)
        } else if self.player(target).sunk() {
            Some(GameError::TargetAlreadyEliminated)
        } else {
            None
        }
    }

    /// The session after an accepted shot: the shot is pending and the
    /// actor is bound to the next commitment. The turn does not pass.
    pub open spec fn fired(self, actor: Seq<char>, next: Seq<u8>, target: Seq<char>, pos: u8)
        -> SessionView {
        SessionView {
            players: self.players.update(self.seat(actor), self.player(actor).committed(next)),
            pending_shot: Some((pos, target)),
            ..self
        }
    }

    /// Why a report is rejected, if it is.
    pub open spec fn report_error(
        self,
        reporter: Seq<char>,
        prior: Seq<u8>,
        pos: u8,
        outcome: Outcome,
    ) -> Option<GameError> {
        if self.pending_shot != Some((pos, reporter)) {
            Some(GameError::ReportMismatch)
        } else if self.player(reporter).commitment != prior {
            Some(GameError::CommitmentMismatch)
        } else if outcome == Outcome::Hit && self.player(reporter).shots[pos as int] == Shot::Hit {
            Some(GameError::AlreadyHit)
        } else {
            None
        }
    }

    /// The session after an accepted report: the cell is marked, the
    /// reporter is bound to the next commitment, no shot is pending and the
    /// player who fired has moved to the back of the turn queue.
    pub open spec fn reported(self, reporter: Seq<char>, next: Seq<u8>, pos: u8, outcome: Outcome)
        -> SessionView {
        SessionView {
            players: self.players.update(
                self.seat(reporter),
                self.player(reporter).reported(pos as int, outcome, next),
            ),
            turn_queue: rotated(self.turn_queue),
            pending_shot: None,
            ..self
        }
    }

    /// Why a wave is rejected, if it is.
    pub open spec fn wave_error(self, actor: Seq<char>) -> Option<GameError> {
        if self.active_player() != Some(actor) {
            Some(GameError::NotYourTurn)
        } else if self.pending_shot is Some {
            Some(GameError::PendingReportExists)
        } else {
            None
        }
    }

    /// The session after an accepted wave: the active player has moved to
    /// the back of the turn queue.
    pub open spec fn waved(self) -> SessionView {
        SessionView { turn_queue: rotated(self.turn_queue), ..self }
    }

    /// Whether the fleet of every player but the claimant is sunk.
    pub open spec fn all_opponents_sunk(self, claimant: Seq<char>) -> bool {
        forall|i: int|
            0 <= i < self.players.len() && (#[trigger] self.players[i]).id != claimant
                ==> self.players[i].sunk()
    }

    /// Why a victory claim is rejected, if it is.
    pub open spec fn win_error(self, claimant: Seq<char>) -> Option<GameError> {
        if !self.has_player(claimant) {
            Some(GameError::PlayerNotFound)
        } else if self.player(claimant).sunk() || !self.all_opponents_sunk(claimant) {
            Some(GameError::WinConditionUnmet)
        } else {
            None
        }
    }
}

/// In a session with unique identifiers the seat of a player is the one
/// place where the identifier occurs.
pub proof fn lemma_seat(s: SessionView, i: int)
    requires
        s.wf(),
        0 <= i < s.players.len(),
    ensures
        s.has_player(s.players[i].id),
        s.seat(s.players[i].id) == i,
        s.player(s.players[i].id) == s.players[i],
{
    let id = s.players[i].id;
    let k = s.seat(id);
    assert(0 <= k < s.players.len() && s.players[k].id == id);
    if k < i {
        assert(s.players[k].id != s.players[i].id);
    }
    if i < k {
        assert(s.players[i].id != s.players[k].id);
    }
}

/// The seat of a present player lies among the players and holds the
/// identifier asked for.
pub proof fn lemma_seat_of(s: SessionView, id: Seq<char>)
    requires
        s.has_player(id),
    ensures
        0 <= s.seat(id) < s.players.len(),
        s.players[s.seat(id)].id == id,
{
}

/// Replacing a player by one of the same identifier keeps everybody's
/// seat.
proof fn lemma_update_keeps_seats(players: Seq<PlayerView>, i: int, p: PlayerView, id: Seq<char>)
    requires
        distinct_ids(players),
        0 <= i < players.len(),
        p.id == players[i].id,
    ensures
        distinct_ids(players.update(i, p)),
        has_id(players.update(i, p), id) == has_id(players, id),
        has_id(players, id) ==> seat_of(players.update(i, p), id) == seat_of(players, id),
{
    let after = players.update(i, p);
    assert forall|a: int, b: int| 0 <= a < b < after.len() implies (#[trigger] after[a]).id
        != (#[trigger] after[b]).id by {
        assert(players[a].id != players[b].id);
    }
    if has_id(players, id) {
        let k = seat_of(players, id);
        assert(after[k].id == id);
        let k2 = seat_of(after, id);
        assert(0 <= k2 < after.len() && after[k2].id == id);
        assert(players[k2].id == id);
        if k2 < k {
            assert(players[k2].id != players[k].id);
        }
        if k < k2 {
            assert(players[k].id != players[k2].id);
        }
    }
    if has_id(after, id) {
        let k2 = seat_of(after, id);
        assert(0 <= k2 < after.len() && after[k2].id == id);
        assert(players[k2].id == id);
    }
}

/// Moving the front of a queue to its back keeps its members and keeps
/// them apart.
pub proof fn lemma_rotated(queue: Seq<Seq<char>>)
    requires
        queue.no_duplicates(),
    ensures
        rotated(queue).no_duplicates(),
        rotated(queue).len() == queue.len(),
        forall|id: Seq<char>| rotated(queue).contains(id) <==> queue.contains(id),
{
    let r = rotated(queue);
    if queue.len() > 0 {
        let n = queue.len() as int;
        assert(r[n - 1] == queue[0]);
        assert forall|i: int| 0 <= i < n - 1 implies #[trigger] r[i] == queue[i + 1] by {
            assert(r[i] == queue.drop_first()[i]);
        }
        assert forall|i: int, j: int| 0 <= i < n && 0 <= j < n && i != j implies r[i] != r[j] by {
            if i < n - 1 {
                assert(r[i] == queue[i + 1]);
            }
            if j < n - 1 {
                assert(r[j] == queue[j + 1]);
            }
        }
        assert forall|id: Seq<char>| r.contains(id) <==> queue.contains(id) by {
            if r.contains(id) {
                let i = choose|i: int| 0 <= i < r.len() && r[i] == id;
                if i < n - 1 {
                    assert(queue[i + 1] == id);
                } else {
                    assert(queue[0] == id);
                }
            }
            if queue.contains(id) {
                let i = choose|i: int| 0 <= i < queue.len() && queue[i] == id;
                if i == 0 {
                    assert(r[n - 1] == id);
                } else {
                    assert(r[i - 1] == queue[i - 1 + 1]);
                }
            }
        }
    }
}

/// An accepted join keeps the invariant, leaves every earlier player as
/// it was and, once somebody is active, leaves the turn where it is.
pub proof fn lemma_joined(s: SessionView, id: Seq<char>, commitment: Seq<u8>)
    requires
        s.wf(),
    ensures
        s.joined(id, commitment).wf(),
        s.joined(id, commitment).has_player(id),
        s.joined(id, commitment).pending_shot == s.pending_shot,
        forall|i: int|
            0 <= i < s.players.len() ==> #[trigger] s.joined(id, commitment).players[i]
                == s.players[i],
        s.active_player() is Some ==> s.joined(id, commitment).active_player()
            == s.active_player(),
        s.active_player() is None ==> s.joined(id, commitment).active_player() == Some(id),
{
    let t = s.joined(id, commitment);
    if !s.has_player(id) {
        let fresh = PlayerView::fresh(id, commitment);
        crate::player::lemma_count_hits_none(fresh.shots);
        let n = s.players.len() as int;
        assert(t.players[n] == fresh);
        assert(t.has_player(id));
        assert forall|i: int| 0 <= i < t.players.len() implies (#[trigger] t.players[i]).wf()
            && t.players[i].hit_count <= FULL_FLEET_CELLS by {
            if i < n {
                assert(t.players[i] == s.players[i]);
            }
        }
        assert forall|i: int, j: int| 0 <= i < j < t.players.len() implies (#[trigger] t.players[i]).id
            != (#[trigger] t.players[j]).id by {
            assert(t.players[i] == s.players[i]);
            if j < n {
                assert(t.players[j] == s.players[j]);
            }
        }
        assert(distinct_ids(t.players));
        assert(!s.turn_queue.contains(id)) by {
            if s.turn_queue.contains(id) {
                let k = choose|k: int| 0 <= k < s.turn_queue.len() && s.turn_queue[k] == id;
                assert(s.has_player(s.turn_queue[k]));
            }
        }
        assert forall|i: int, j: int|
            0 <= i < t.turn_queue.len() && 0 <= j < t.turn_queue.len() && i != j implies t.turn_queue[i]
            != t.turn_queue[j] by {
            if i < s.turn_queue.len() {
                assert(t.turn_queue[i] == s.turn_queue[i]);
            }
            if j < s.turn_queue.len() {
                assert(t.turn_queue[j] == s.turn_queue[j]);
            }
        }
        assert forall|i: int| 0 <= i < t.players.len() implies t.turn_queue.contains(
            (#[trigger] t.players[i]).id,
        ) by {
            if i < n {
                assert(t.players[i] == s.players[i]);
                let k = choose|k: int|
                    0 <= k < s.turn_queue.len() && s.turn_queue[k] == s.players[i].id;
                assert(t.turn_queue[k] == s.players[i].id);
            } else {
                assert(t.turn_queue[t.turn_queue.len() - 1] == id);
            }
        }
        assert forall|k: int| 0 <= k < t.turn_queue.len() implies t.has_player(
            #[trigger] t.turn_queue[k],
        ) by {
            if k < s.turn_queue.len() {
                assert(t.turn_queue[k] == s.turn_queue[k]);
                lemma_has_player_grows(s, t.turn_queue[k], fresh);
            }
        }
        match s.pending_shot {
            Some((pos, target)) => {
                lemma_has_player_grows(s, target, fresh);
            },
            None => {},
        }
        if s.turn_queue.len() > 0 {
            assert(t.turn_queue[0] == s.turn_queue[0]);
        }
    }
}

/// A newcomer leaves the earlier players findable at their seats.
proof fn lemma_has_player_grows(s: SessionView, id: Seq<char>, fresh: PlayerView)
    requires
        s.wf(),
        s.has_player(id),
        !s.has_player(fresh.id),
    ensures
        (SessionView { players: s.players.push(fresh), ..s }).has_player(id),
        (SessionView { players: s.players.push(fresh), ..s }).seat(id) == s.seat(id),
        (SessionView { players: s.players.push(fresh), ..s }).player(id) == s.player(id),
{
    let t = SessionView { players: s.players.push(fresh), ..s };
    let k = s.seat(id);
    assert(t.players[k] == s.players[k]);
    let k2 = t.seat(id);
    assert(0 <= k2 < t.players.len() && t.players[k2].id == id);
    if k2 == s.players.len() {
        assert(t.players[k2] == fresh);
        assert(s.players[k].id == fresh.id);
    } else {
        assert(t.players[k2] == s.players[k2]);
        if k2 < k {
            assert(s.players[k2].id != s.players[k].id);
        }
        if k < k2 {
            assert(s.players[k].id != s.players[k2].id);
        }
    }
}

/// An accepted shot keeps the invariant, leaves the turn where it is and
/// changes nothing of any player but the actor's commitment.
pub proof fn lemma_fired(s: SessionView, actor: Seq<char>, next: Seq<u8>, target: Seq<char>, pos: u8)
    requires
        s.wf(),
        s.fire_error(actor, target, pos) is None,
    ensures
        s.fired(actor, next, target, pos).wf(),
        s.fired(actor, next, target, pos).active_player() == s.active_player(),
        s.fired(actor, next, target, pos).turn_queue == s.turn_queue,
        s.fired(actor, next, target, pos).players.len() == s.players.len(),
        forall|i: int|
            0 <= i < s.players.len() ==> (#[trigger] s.fired(actor, next, target, pos).players[i])
                == s.players[i].committed(s.fired(actor, next, target, pos).players[i].commitment),
{
    let t = s.fired(actor, next, target, pos);
    let a = s.seat(actor);
    let p = s.player(actor).committed(next);
    lemma_seat_of(s, actor);
    lemma_update_keeps_seats(s.players, a, p, target);
    assert forall|i: int| 0 <= i < t.players.len() implies (#[trigger] t.players[i]).wf()
        && t.players[i].hit_count <= FULL_FLEET_CELLS by {
        assert(s.players[i].wf());
    }
    assert forall|i: int| 0 <= i < t.players.len() implies t.turn_queue.contains(
        (#[trigger] t.players[i]).id,
    ) by {
        assert(t.players[i].id == s.players[i].id);
    }
    assert forall|k: int| 0 <= k < t.turn_queue.len() implies t.has_player(
        #[trigger] t.turn_queue[k],
    ) by {
        assert(s.has_player(s.turn_queue[k]));
        lemma_update_keeps_seats(s.players, a, p, s.turn_queue[k]);
    }
    lemma_seat_of(s, target);
    assert(t.player(target).hit_count == s.player(target).hit_count);
}

/// An accepted report keeps the invariant, never lowers a hit count and
/// touches no player but the reporter.
pub proof fn lemma_reported(
    s: SessionView,
    reporter: Seq<char>,
    prior: Seq<u8>,
    next: Seq<u8>,
    pos: u8,
    outcome: Outcome,
)
    requires
        s.wf(),
        s.report_error(reporter, prior, pos, outcome) is None,
    ensures
        s.reported(reporter, next, pos, outcome).wf(),
        s.reported(reporter, next, pos, outcome).players.len() == s.players.len(),
        forall|i: int|
            0 <= i < s.players.len() ==> (#[trigger] s.reported(
                reporter,
                next,
                pos,
                outcome,
            ).players[i]).hit_count >= s.players[i].hit_count,
        forall|i: int|
            0 <= i < s.players.len() && i != s.seat(reporter) ==> #[trigger] s.reported(
                reporter,
                next,
                pos,
                outcome,
            ).players[i] == s.players[i],
{
    let t = s.reported(reporter, next, pos, outcome);
    let r = s.seat(reporter);
    let p = s.player(reporter).reported(pos as int, outcome, next);
    lemma_seat_of(s, reporter);
    assert(s.players[r].wf());
    lemma_reported_wf(s.player(reporter), pos as int, outcome, next);
    lemma_rotated(s.turn_queue);
    lemma_update_keeps_seats(s.players, r, p, reporter);
    assert forall|i: int| 0 <= i < t.players.len() implies (#[trigger] t.players[i]).wf()
        && t.players[i].hit_count <= FULL_FLEET_CELLS by {
        assert(s.players[i].wf());
    }
    assert forall|i: int| 0 <= i < t.players.len() implies t.turn_queue.contains(
        (#[trigger] t.players[i]).id,
    ) by {
        assert(t.players[i].id == s.players[i].id);
        assert(s.turn_queue.contains(s.players[i].id));
    }
    assert forall|k: int| 0 <= k < t.turn_queue.len() implies t.has_player(
        #[trigger] t.turn_queue[k],
    ) by {
        let id = t.turn_queue[k];
        assert(t.turn_queue.contains(id));
        assert(s.turn_queue.contains(id));
        let k0 = choose|k0: int| 0 <= k0 < s.turn_queue.len() && s.turn_queue[k0] == id;
        assert(s.has_player(s.turn_queue[k0]));
        lemma_update_keeps_seats(s.players, r, p, id);
    }
}

/// An accepted wave keeps the invariant and every player.
pub proof fn lemma_waved(s: SessionView, actor: Seq<char>)
    requires
        s.wf(),
        s.wave_error(actor) is None,
    ensures
        s.waved().wf(),
        s.waved().players == s.players,
        s.waved().pending_shot is None,
{
    let t = s.waved();
    lemma_rotated(s.turn_queue);
    assert forall|i: int| 0 <= i < t.players.len() implies t.turn_queue.contains(
        (#[trigger] t.players[i]).id,
    ) by {
        assert(s.turn_queue.contains(s.players[i].id));
    }
    assert forall|k: int| 0 <= k < t.turn_queue.len() implies t.has_player(
        #[trigger] t.turn_queue[k],
    ) by {
        let id = t.turn_queue[k];
        assert(t.turn_queue.contains(id));
        assert(s.turn_queue.contains(id));
        let k0 = choose|k0: int| 0 <= k0 < s.turn_queue.len() && s.turn_queue[k0] == id;
        assert(s.has_player(s.turn_queue[k0]));
        let i = s.seat(id);
        assert(t.players[i].id == id);
    }
}

/// One game as the coordinator holds it.
pub struct Session {
    id: String,
    players: Vec<Player>,
    turn_queue: VecDeque<String>,
    pending_shot: Option<(u8, String)>,
}

impl View for Session {
    type V = SessionView;

    closed spec fn view(&self) -> SessionView {
        SessionView {
            id: self.id@,
            players: self.players@.map_values(|p: Player| p@),
            turn_queue: self.turn_queue@.map_values(|s: String| s@),
            pending_shot: match self.pending_shot {
                Some((pos, target)) => Some((pos, target@)),
                None => None,
            },
        }
    }
}

impl Session {
    /// The invariant of a session, see [`SessionView::wf`].
    pub open spec fn wf(&self) -> bool {
        self@.wf()
    }

    /// A session without players.
    pub fn new(id: String) -> (s: Session)
        ensures
            s.wf(),
            s@ == SessionView::empty(id@),
    {
        let s = Session { id, players: Vec::new(), turn_queue: VecDeque::new(), pending_shot: None };
        proof {
            assert(s@.players =~= Seq::empty());
            assert(s@.turn_queue =~= Seq::empty());
        }
        s
    }

    /// The identifier of the session.
    pub fn id(&self) -> (r: &String)
        ensures
            r@ == self@.id,
    {
        &self.id
    }

    /// Number of players who have joined.
    pub fn player_count(&self) -> (n: usize)
        ensures
            n == self@.players.len(),
    {
        self.players.len()
    }

    /// The player at place `i` in the order of joining.
    pub fn player_at(&self, i: usize) -> (p: &Player)
        requires
            i < self@.players.len(),
        ensures
            p@ == self@.players[i as int],
    {
        &self.players[i]
    }

    /// The seat of the player of the given identifier, if there is one.
    pub fn find_player(&self, id: &String) -> (r: Option<usize>)
        requires
            self.wf(),
        ensures
            match r {
                Some(i) => self@.has_player(id@) && self@.seat(id@) == i && i
                    < self@.players.len(),
                None => !self@.has_player(id@),
            },
    {
        let mut i: usize = 0;
        while i < self.players.len()
            invariant
                self.wf(),
                i <= self.players@.len(),
                forall|j: int| 0 <= j < i ==> (#[trigger] self@.players[j]).id != id@,
            decreases self.players@.len() - i,
        {
            if *self.players[i].id() == *id {
                proof {
                    lemma_seat(self@, i as int);
                }
                return Some(i);
            }
            i = i + 1;
        }
        None
    }

    /// The player of the given identifier, if there is one.
    pub fn player(&self, id: &String) -> (r: Option<&Player>)
        requires
            self.wf(),
        ensures
            match r {
                Some(p) => self@.has_player(id@) && p@ == self@.player(id@),
                None => !self@.has_player(id@),
            },
    {
        match self.find_player(id) {
            Some(i) => Some(&self.players[i]),
            None => None,
        }
    }

    /// Whether the player of the given identifier is the active player.
    pub fn is_active(&self, id: &String) -> (b: bool)
        ensures
            b == (self@.active_player() == Some(id@)),
    {
        self.turn_queue.len() > 0 && self.turn_queue[0] == *id
    }

    /// The player entitled to fire or wave, if anybody has joined.
    pub fn active_player(&self) -> (r: Option<String>)
        ensures
            match r {
                Some(a) => self@.active_player() == Some(a@),
                None => self@.active_player() is None,
            },
    {
        if self.turn_queue.len() > 0 {
            Some(self.turn_queue[0].clone())
        } else {
            None
        }
    }

    /// The players in the order in which their turns come, the active
    /// player first.
    pub fn turn_queue(&self) -> (queue: Vec<String>)
        ensures
            queue@.len() == self@.turn_queue.len(),
            forall|k: int| 0 <= k < queue@.len() ==> (#[trigger] queue@[k])@ == self@.turn_queue[k],
    {
        let mut queue: Vec<String> = Vec::new();
        let mut k: usize = 0;
        while k < self.turn_queue.len()
            invariant
                k <= self.turn_queue@.len(),
                queue@.len() == k,
                forall|j: int| 0 <= j < k ==> (#[trigger] queue@[j])@ == self@.turn_queue[j],
            decreases self.turn_queue@.len() - k,
        {
            queue.push(self.turn_queue[k].clone());
            k = k + 1;
        }
        queue
    }

    /// The shot that waits for its report, as position and target.
    pub fn pending_shot(&self) -> (r: Option<(u8, String)>)
        ensures
            match r {
                Some((pos, target)) => self@.pending_shot == Some((pos, target@)),
                None => self@.pending_shot is None,
            },
    {
        match &self.pending_shot {
            Some((pos, target)) => Some((*pos, target.clone())),
            None => None,
        }
    }

    /// Whether the report names the pending shot.
    fn answers_pending(&self, reporter: &String, pos: u8) -> (b: bool)
        ensures
            b == (self@.pending_shot == Some((pos, reporter@))),
    {
        match &self.pending_shot {
            Some((at, target)) => *at == pos && *target == *reporter,
            None => false,
        }
    }

    /// Moves the player at the front of the turn queue to its back.
    fn pass_turn(&mut self)
        ensures
            final(self)@ == (SessionView { turn_queue: rotated(old(self)@.turn_queue), ..old(self)@ }),
    {
        let ghost before = self.turn_queue@;
        match self.turn_queue.pop_front() {
            Some(front) => {
                self.turn_queue.push_back(front);
                proof {
                    assert(self.turn_queue@ =~= before.drop_first().push(before[0]));
                    assert(self@.turn_queue =~= rotated(old(self)@.turn_queue));
                }
            },
            None => {
                proof {
                    assert(self@.turn_queue =~= rotated(old(self)@.turn_queue));
                }
            },
        }
    }

    /// A player joins the session.
    ///
    /// A newcomer must present a legal fleet; it gets an empty grid and the
    /// last place in the turn queue, and is the active player if it is the
    /// first to join. A player who is already present may repeat its join
    /// with the same commitment, which changes nothing; with another
    /// commitment the identifier counts as taken. A rejected join changes
    /// nothing.
    pub fn join(&mut self, fleet_id: String, commitment: Commitment, cells: &[Cell]) -> (r: Result<
        Joined,
        GameError,
    >)
        requires
            old(self).wf(),
        ensures
            final(self).wf(),
            match r {
                Ok(how) => {
                    &&& old(self)@.join_error(fleet_id@, commitment@, cells@) is None
                    &&& final(self)@ == old(self)@.joined(fleet_id@, commitment@)
                    &&& how == if old(self)@.has_player(fleet_id@) {
                        Joined::Again
                    } else {
                        Joined::New
                    }
                },
                Err(e) => {
                    &&& old(self)@.join_error(fleet_id@, commitment@, cells@) == Some(e)
                    &&& final(self)@ == old(self)@
                },
            },
    {
        match self.find_player(&fleet_id) {
            Some(i) => {
                if self.players[i].commitment().same(&commitment) {
                    Ok(Joined::Again)
                } else {
                    Err(GameError::DuplicatePlayer)
                }
            },
            None => {
                match validar_frota(cells) {
                    Err(fault) => Err(GameError::InvalidFleetLayout(fault)),
                    Ok(_) => {
                        self.turn_queue.push_back(fleet_id.clone());
                        self.players.push(Player::new(fleet_id, commitment));
                        proof {
                            lemma_joined(old(self)@, fleet_id@, commitment@);
                            assert(self@.players =~= old(self)@.players.push(
                                PlayerView::fresh(fleet_id@, commitment@),
                            ));
                            assert(self@.turn_queue =~= old(self)@.turn_queue.push(fleet_id@));
                        }
                        Ok(Joined::New)
                    },
                }
            },
        }
    }

    /// The active player fires at a cell of another player's board.
    ///
    /// An accepted shot becomes the pending shot and binds the actor to
    /// its next commitment; the turn passes only when the shot is
    /// reported. A rejected shot changes nothing.
    pub fn fire(&mut self, actor: &String, next: Commitment, target: &String, pos: u8) -> (r:
        Result<(), GameError>)
        requires
            old(self).wf(),
        ensures
            final(self).wf(),
            match r {
                Ok(_) => {
                    &&& old(self)@.fire_error(actor@, target@, pos) is None
                    &&& final(self)@ == old(self)@.fired(actor@, next@, target@, pos)
                },
                Err(e) => {
                    &&& old(self)@.fire_error(actor@, target@, pos) == Some(e)
                    &&& final(self)@ == old(self)@
                },
            },
    {
        if self.pending_shot.is_some() {
            return Err(GameError::PendingReportExists);
        }
        if pos as usize >= BOARD_CELLS {
            return Err(GameError::DecodeFailure);
        }
        let seat = match self.find_player(actor) {
            Some(i) => i,
            None => {
                return Err(GameError::PlayerNotFound);
            },
        };
        let aim = match self.find_player(target) {
            Some(i) => i,
            None => {
                return Err(GameError::PlayerNotFound);
            },
        };
        if !self.is_active(actor) {
            return Err(GameError::NotYourTurn);
        }
        if self.players[aim].is_sunk() {
            return Err(GameError::TargetAlreadyEliminated);
        }
        self.players[seat].set_commitment(next);
        self.pending_shot = Some((pos, target.clone()));
        proof {
            lemma_fired(old(self)@, actor@, next@, target@, pos);
            assert(self@.players =~= old(self)@.players.update(
                seat as int,
                old(self)@.player(actor@).committed(next@),
            ));
        }
        Ok(())
    }

    /// The target of the pending shot reports its outcome.
    ///
    /// The report must name the pending shot and start from the
    /// commitment on record. A hit marks the cell and raises the hit count,
    /// unless the cell is marked as hit already, which rejects the report.
    /// A miss marks the cell as missed, unless it is marked as hit, which
    /// is never taken back. The reporter is bound to the next commitment,
    /// no shot is pending any more and the turn passes: the player who
    /// fired moves to the back of the turn queue. A rejected report changes
    /// nothing.
    pub fn report(
        &mut self,
        reporter: &String,
        prior: Commitment,
        next: Commitment,
        pos: u8,
        outcome: Outcome,
    ) -> (r: Result<(), GameError>)
        requires
            old(self).wf(),
        ensures
            final(self).wf(),
            match r {
                Ok(_) => {
                    &&& old(self)@.report_error(reporter@, prior@, pos, outcome) is None
                    &&& final(self)@ == old(self)@.reported(reporter@, next@, pos, outcome)
                },
                Err(e) => {
                    &&& old(self)@.report_error(reporter@, prior@, pos, outcome) == Some(e)
                    &&& final(self)@ == old(self)@
                },
            },
    {
        if !self.answers_pending(reporter, pos) {
            return Err(GameError::ReportMismatch);
        }
        let seat = match self.find_player(reporter) {
            Some(i) => i,
            None => {
                return Err(GameError::ReportMismatch);
            },
        };
        if !self.players[seat].commitment().same(&prior) {
            return Err(GameError::CommitmentMismatch);
        }
        proof {
            assert(old(self)@.players[seat as int].wf());
        }
        let already: bool = match self.players[seat].shot_at(pos) {
            Shot::Hit => true,
            _ => false,
        };
        if already && outcome == Outcome::Hit {
            return Err(GameError::AlreadyHit);
        }
        self.players[seat].record(pos, outcome, next);
        self.pending_shot = None;
        let ghost marked = self@;
        self.pass_turn();
        proof {
            lemma_reported(old(self)@, reporter@, prior@, next@, pos, outcome);
            assert(marked.players =~= old(self)@.players.update(
                seat as int,
                old(self)@.player(reporter@).reported(pos as int, outcome, next@),
            ));
        }
        Ok(())
    }

    /// The active player passes the turn without firing. The player moves
    /// to the back of the turn queue and the next one becomes active. A
    /// rejected wave changes nothing.
    pub fn wave(&mut self, actor: &String) -> (r: Result<(), GameError>)
        requires
            old(self).wf(),
        ensures
            final(self).wf(),
            match r {
                Ok(_) => {
                    &&& old(self)@.wave_error(actor@) is None
                    &&& final(self)@ == old(self)@.waved()
                },
                Err(e) => {
                    &&& old(self)@.wave_error(actor@) == Some(e)
                    &&& final(self)@ == old(self)@
                },
            },
    {
        if !self.is_active(actor) {
            return Err(GameError::NotYourTurn);
        }
        if self.pending_shot.is_some() {
            return Err(GameError::PendingReportExists);
        }
        self.pass_turn();
        proof {
            lemma_waved(old(self)@, actor@);
        }
        Ok(())
    }

    /// Decides a victory claim: the claimant has won when its own fleet is
    /// not sunk and the fleet of every other player is.
    pub fn check_win(&self, claimant: &String) -> (r: Result<(), GameError>)
        requires
            self.wf(),
        ensures
            match r {
                Ok(_) => self@.win_error(claimant@) is None,
                Err(e) => self@.win_error(claimant@) == Some(e),
            },
    {
        let seat = match self.find_player(claimant) {
            Some(i) => i,
            None => {
                return Err(GameError::PlayerNotFound);
            },
        };
        if self.players[seat].is_sunk() {
            return Err(GameError::WinConditionUnmet);
        }
        let mut i: usize = 0;
        while i < self.players.len()
            invariant
                i <= self.players@.len(),
                self.wf(),
                seat < self.players@.len(),
                self@.seat(claimant@) == seat,
                self@.has_player(claimant@),
                !self@.player(claimant@).sunk(),
                forall|j: int|
                    0 <= j < i && (#[trigger] self@.players[j]).id != claimant@
                        ==> self@.players[j].sunk(),
            decreases self.players@.len() - i,
        {
            if i != seat && !self.players[i].is_sunk() {
                proof {
                    lemma_seat(self@, i as int);
                    assert(self@.players[i as int].id != claimant@);
                    assert(!self@.all_opponents_sunk(claimant@));
                }
                return Err(GameError::WinConditionUnmet);
            }
            proof {
                if i == seat {
                    lemma_seat_of(self@, claimant@);
                }
            }
            i = i + 1;
        }
        Ok(())
    }
}

} // verus!
