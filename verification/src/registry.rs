//! The registry of open games.
//!
//! A game is opened by the first player who joins it under a new
//! identifier and is closed when a victory claim is accepted. Every action
//! is one transition of the whole registry: it either takes effect as a
//! whole or is rejected and changes nothing.

use vstd::prelude::*;
use crate::errors::GameError;
use crate::fleet::Cell;
use crate::player::{Commitment, Outcome, Shot};
use crate::session::{
    lemma_fired, lemma_joined, lemma_reported, lemma_waved, Joined, Session, SessionView,
};

verus! {

/// The mathematical content of a [`Registry`]: the open games in the order
/// in which they were opened.
pub struct RegistryView {
    pub sessions: Seq<SessionView>,
}

impl RegistryView {
    /// Whether a game of this identifier is open.
    pub open spec fn has_game(self, id: Seq<char>) -> bool {
        exists|i: int| 0 <= i < self.sessions.len() && (#[trigger] self.sessions[i]).id == id
    }

    /// A place in the registry at which the identifier occurs.
    pub open spec fn slot(self, id: Seq<char>) -> int {
        choose|i: int| 0 <= i < self.sessions.len() && (#[trigger] self.sessions[i]).id == id
    }

    /// The open game of this identifier.
    pub open spec fn game(self, id: Seq<char>) -> SessionView {
        self.sessions[self.slot(id)]
    }

    /// The open game of this identifier, or a game without players if none
    /// is open.
    pub open spec fn game_or_new(self, id: Seq<char>) -> SessionView {
        if self.has_game(id) {
            self.game(id)
        } else {
            SessionView::empty(id)
        }
    }

    /// The registry with the game of this identifier replaced.
    pub open spec fn with_game(self, id: Seq<char>, game: SessionView) -> RegistryView {
        RegistryView { sessions: self.sessions.update(self.slot(id), game) }
    }

    /// The invariant of the registry: identifiers are unique, every game
    /// keeps its own invariant and has at least one player.
    pub open spec fn wf(self) -> bool {
        &&& forall|i: int|
            0 <= i < self.sessions.len() ==> (#[trigger] self.sessions[i]).wf()
                && self.sessions[i].players.len() > 0
        &&& forall|i: int, j: int|
            0 <= i < j < self.sessions.len() ==> (#[trigger] self.sessions[i]).id
                != (#[trigger] self.sessions[j]).id
    }

    /// Why a join is rejected, if it is. A game that is not open yet
    /// counts as a game without players.
    pub open spec fn join_error(
        self,
        game: Seq<char>,
        fleet: Seq<char>,
        commitment: Seq<u8>,
        cells: Seq<Cell>,
    ) -> Option<GameError> {
        self.game_or_new(game).join_error(fleet, commitment, cells)
    }

    /// The registry after an accepted join. The first join under a new
    /// identifier opens the game.
    pub open spec fn joined(self, game: Seq<char>, fleet: Seq<char>, commitment: Seq<u8>)
        -> RegistryView {
        if self.has_game(game) {
            self.with_game(game, self.game(game).joined(fleet, commitment))
        } else {
            RegistryView {
                sessions: self.sessions.push(SessionView::empty(game).joined(fleet, commitment)),
            }
        }
    }

    /// Why a shot is rejected, if it is.
    pub open spec fn fire_error(
        self,
        game: Seq<char>,
        actor: Seq<char>,
        target: Seq<char>,
        pos: u8,
    ) -> Option<GameError> {
        if !self.has_game(game) {
            Some(GameError::GameNotFound)
        } else {
            self.game(game).fire_error(actor, target, pos)
        }
    }

    /// The registry after an accepted shot.
    pub open spec fn fired(
        self,
        game: Seq<char>,
        actor: Seq<char>,
        next: Seq<u8>,
        target: Seq<char>,
        pos: u8,
    ) -> RegistryView {
        self.with_game(game, self.game(game).fired(actor, next, target, pos))
    }

    /// Why a report is rejected, if it is.
    pub open spec fn report_error(
        self,
        game: Seq<char>,
        reporter: Seq<char>,
        prior: Seq<u8>,
        pos: u8,
        outcome: Outcome,
    ) -> Option<GameError> {
        if !self.has_game(game) {
            Some(GameError::GameNotFound)
        } else {
            self.game(game).report_error(reporter, prior, pos, outcome)
        }
    }

    /// The registry after an accepted report.
    pub open spec fn reported(
        self,
        game: Seq<char>,
        reporter: Seq<char>,
        next: Seq<u8>,
        pos: u8,
        outcome: Outcome,
    ) -> RegistryView {
        self.with_game(game, self.game(game).reported(reporter, next, pos, outcome))
    }

    /// Why a wave is rejected, if it is.
    pub open spec fn wave_error(self, game: Seq<char>, actor: Seq<char>) -> Option<GameError> {
        if !self.has_game(game) {
            Some(GameError::GameNotFound)
        } else {
            self.game(game).wave_error(actor)
        }
    }

    /// The registry after an accepted wave.
    pub open spec fn waved(self, game: Seq<char>) -> RegistryView {
        self.with_game(game, self.game(game).waved())
    }

    /// Why a victory claim is rejected, if it is.
    pub open spec fn win_error(self, game: Seq<char>, claimant: Seq<char>) -> Option<GameError> {
        if !self.has_game(game) {
            Some(GameError::GameNotFound)
        } else {
            self.game(game).win_error(claimant)
        }
    }

    /// The registry after an accepted victory claim: the game is closed.
    pub open spec fn won(self, game: Seq<char>) -> RegistryView {
        RegistryView { sessions: self.sessions.remove(self.slot(game)) }
    }

    /// The grid of shots that a player of an open game has received.
    pub open spec fn board(self, game: Seq<char>, player: Seq<char>) -> Option<Seq<Shot>> {
        if self.has_game(game) && self.game(game).has_player(player) {
            Some(self.game(game).player(player).shots)
        } else {
            None
        }
    }
}

/// In a registry with unique identifiers the slot of a game is the one
/// place where its identifier occurs.
pub proof fn lemma_slot(r: RegistryView, i: int)
    requires
        r.wf(),
        0 <= i < r.sessions.len(),
    ensures
        r.has_game(r.sessions[i].id),
        r.slot(r.sessions[i].id) == i,
        r.game(r.sessions[i].id) == r.sessions[i],
{
    let id = r.sessions[i].id;
    let k = r.slot(id);
    assert(0 <= k < r.sessions.len() && r.sessions[k].id == id);
    if k < i {
        assert(r.sessions[k].id != r.sessions[i].id);
    }
    if i < k {
        assert(r.sessions[i].id != r.sessions[k].id);
    }
}

/// Replacing an open game by a well-formed game of the same identifier
/// keeps the invariant, and every other game stays where and what it was.
pub proof fn lemma_with_game(r: RegistryView, id: Seq<char>, game: SessionView)
    requires
        r.wf(),
        r.has_game(id),
        game.wf(),
        game.id == id,
        game.players.len() > 0,
    ensures
        r.with_game(id, game).wf(),
        r.with_game(id, game).has_game(id),
        r.with_game(id, game).game(id) == game,
        forall|other: Seq<char>|
            other != id ==> r.with_game(id, game).has_game(other) == r.has_game(other),
        forall|other: Seq<char>|
            other != id && r.has_game(other) ==> r.with_game(id, game).game(other) == r.game(other),
{
    let t = r.with_game(id, game);
    let k = r.slot(id);
    assert forall|i: int, j: int| 0 <= i < j < t.sessions.len() implies (#[trigger] t.sessions[i]).id
        != (#[trigger] t.sessions[j]).id by {
        assert(r.sessions[i].id != r.sessions[j].id);
    }
    assert forall|i: int| 0 <= i < t.sessions.len() implies (#[trigger] t.sessions[i]).wf()
        && t.sessions[i].players.len() > 0 by {
        assert(r.sessions[i].wf());
    }
    assert(t.sessions[k].id == id);
    lemma_slot(t, k);
    assert forall|other: Seq<char>| other != id implies t.has_game(other) == r.has_game(other) by {
        if r.has_game(other) {
            let i = r.slot(other);
            assert(t.sessions[i].id == other);
        }
        if t.has_game(other) {
            let i = t.slot(other);
            assert(r.sessions[i].id == other);
        }
    }
    assert forall|other: Seq<char>| other != id && r.has_game(other) implies t.game(other)
        == r.game(other) by {
        let i = r.slot(other);
        assert(t.sessions[i] == r.sessions[i]);
        lemma_slot(t, i);
    }
}

/// Closing a game keeps the invariant, makes the game unreachable and
/// leaves every other game what it was.
pub proof fn lemma_won(r: RegistryView, id: Seq<char>)
    requires
        r.wf(),
        r.has_game(id),
    ensures
        r.won(id).wf(),
        !r.won(id).has_game(id),
        forall|other: Seq<char>| other != id ==> r.won(id).has_game(other) == r.has_game(other),
        forall|other: Seq<char>|
            other != id && r.has_game(other) ==> r.won(id).game(other) == r.game(other),
{
    let t = r.won(id);
    let k = r.slot(id);
    assert forall|i: int| 0 <= i < t.sessions.len() implies #[trigger] t.sessions[i] == r.sessions[if i
        < k {
        i
    } else {
        i + 1
    }] by {}
    assert forall|i: int, j: int| 0 <= i < j < t.sessions.len() implies (#[trigger] t.sessions[i]).id
        != (#[trigger] t.sessions[j]).id by {
        let a = if i < k {
            i
        } else {
            i + 1
        };
        let b = if j < k {
            j
        } else {
            j + 1
        };
        assert(r.sessions[a].id != r.sessions[b].id);
    }
    assert forall|i: int| 0 <= i < t.sessions.len() implies (#[trigger] t.sessions[i]).wf()
        && t.sessions[i].players.len() > 0 by {
        let a = if i < k {
            i
        } else {
            i + 1
        };
        assert(r.sessions[a].wf());
    }
    if t.has_game(id) {
        let i = t.slot(id);
        let a = if i < k {
            i
        } else {
            i + 1
        };
        assert(t.sessions[i] == r.sessions[a]);
        lemma_slot(r, a);
    }
    assert forall|other: Seq<char>| other != id implies t.has_game(other) == r.has_game(other) by {
        if r.has_game(other) {
            let i = r.slot(other);
            let a = if i < k {
                i
            } else {
                i - 1
            };
            assert(t.sessions[a] == r.sessions[i]);
        }
        if t.has_game(other) {
            let i = t.slot(other);
            let a = if i < k {
                i
            } else {
                i + 1
            };
            assert(t.sessions[i] == r.sessions[a]);
        }
    }
    assert forall|other: Seq<char>| other != id && r.has_game(other) implies t.game(other)
        == r.game(other) by {
        let i = r.slot(other);
        let a = if i < k {
            i
        } else {
            i - 1
        };
        assert(t.sessions[a] == r.sessions[i]);
        lemma_slot(t, a);
    }
}

/// Opening a game under a new identifier keeps the invariant and every
/// other game.
pub proof fn lemma_opened(r: RegistryView, game: SessionView)
    requires
        r.wf(),
        !r.has_game(game.id),
        game.wf(),
        game.players.len() > 0,
    ensures
        (RegistryView { sessions: r.sessions.push(game) }).wf(),
        (RegistryView { sessions: r.sessions.push(game) }).has_game(game.id),
        (RegistryView { sessions: r.sessions.push(game) }).game(game.id) == game,
        forall|other: Seq<char>|
            r.has_game(other) ==> (RegistryView { sessions: r.sessions.push(game) }).has_game(other)
                && (RegistryView { sessions: r.sessions.push(game) }).game(other) == r.game(other),
{
    let t = RegistryView { sessions: r.sessions.push(game) };
    let n = r.sessions.len() as int;
    assert(t.sessions[n] == game);
    assert forall|i: int, j: int| 0 <= i < j < t.sessions.len() implies (#[trigger] t.sessions[i]).id
        != (#[trigger] t.sessions[j]).id by {
        assert(t.sessions[i] == r.sessions[i]);
        if j < n {
            assert(t.sessions[j] == r.sessions[j]);
        }
    }
    assert forall|i: int| 0 <= i < t.sessions.len() implies (#[trigger] t.sessions[i]).wf()
        && t.sessions[i].players.len() > 0 by {
        if i < n {
            assert(t.sessions[i] == r.sessions[i]);
        }
    }
    lemma_slot(t, n);
    assert forall|other: Seq<char>| r.has_game(other) implies t.has_game(other) && t.game(other)
        == r.game(other) by {
        let i = r.slot(other);
        assert(t.sessions[i] == r.sessions[i]);
        lemma_slot(t, i);
    }
}

/// The games that the coordinator holds open.
pub struct Registry {
    sessions: Vec<Session>,
}

impl View for Registry {
    type V = RegistryView;

    closed spec fn view(&self) -> RegistryView {
        RegistryView { sessions: self.sessions@.map_values(|s: Session| s@) }
    }
}

impl Registry {
    /// The invariant of the registry, see [`RegistryView::wf`].
    pub open spec fn wf(&self) -> bool {
        self@.wf()
    }

    /// A registry without games.
    pub fn new() -> (r: Registry)
        ensures
            r.wf(),
            r@.sessions.len() == 0,
    {
        Registry { sessions: Vec::new() }
    }

    /// Number of open games.
    pub fn session_count(&self) -> (n: usize)
        ensures
            n == self@.sessions.len(),
    {
        self.sessions.len()
    }

    /// The open game at place `i` in the order of opening.
    pub fn session_at(&self, i: usize) -> (s: &Session)
        requires
            i < self@.sessions.len(),
        ensures
            s@ == self@.sessions[i as int],
    {
        &self.sessions[i]
    }

    /// The slot of the game of the given identifier, if it is open.
    pub fn find(&self, game_id: &String) -> (r: Option<usize>)
        requires
            self.wf(),
        ensures
            match r {
                Some(i) => self@.has_game(game_id@) && self@.slot(game_id@) == i && i
                    < self@.sessions.len(),
                None => !self@.has_game(game_id@),
            },
    {
        let mut i: usize = 0;
        while i < self.sessions.len()
            invariant
                self.wf(),
                i <= self.sessions@.len(),
                forall|j: int| 0 <= j < i ==> (#[trigger] self@.sessions[j]).id != game_id@,
            decreases self.sessions@.len() - i,
        {
            if *self.sessions[i].id() == *game_id {
                proof {
                    lemma_slot(self@, i as int);
                }
                return Some(i);
            }
            i = i + 1;
        }
        None
    }

    /// The game of the given identifier, if it is open.
    pub fn get(&self, game_id: &String) -> (r: Option<&Session>)
        requires
            self.wf(),
        ensures
            match r {
                Some(s) => self@.has_game(game_id@) && s@ == self@.game(game_id@) && s.wf(),
                None => !self@.has_game(game_id@),
            },
    {
        match self.find(game_id) {
            Some(i) => {
                assert(self@.sessions[i as int].wf());
                Some(&self.sessions[i])
            },
            None => None,
        }
    }

    /// The grid of shots that a player has received, if the game is open
    /// and the player has joined it.
    pub fn get_board(&self, game_id: &String, player_id: &String) -> (r: Option<Vec<Shot>>)
        requires
            self.wf(),
        ensures
            match r {
                Some(grid) => self@.board(game_id@, player_id@) == Some(grid@),
                None => self@.board(game_id@, player_id@) is None,
            },
    {
        match self.get(game_id) {
            Some(session) => match session.player(player_id) {
                Some(player) => Some(player.shots()),
                None => None,
            },
            None => None,
        }
    }

    /// A player joins a game; the first join under a new identifier opens
    /// the game. See [`Session::join`].
    pub fn join(
        &mut self,
        game_id: &String,
        fleet_id: String,
        commitment: Commitment,
        cells: &[Cell],
    ) -> (r: Result<Joined, GameError>)
        requires
            old(self).wf(),
        ensures
            final(self).wf(),
            match r {
                Ok(how) => {
                    &&& old(self)@.join_error(game_id@, fleet_id@, commitment@, cells@) is None
                    &&& final(self)@ == old(self)@.joined(game_id@, fleet_id@, commitment@)
                    &&& how == if old(self)@.game_or_new(game_id@).has_player(fleet_id@) {
                        Joined::Again
                    } else {
                        Joined::New
                    }
                },
                Err(e) => {
                    &&& old(self)@.join_error(game_id@, fleet_id@, commitment@, cells@) == Some(e)
                    &&& final(self)@ == old(self)@
                },
            },
    {
        match self.find(game_id) {
            Some(i) => {
                proof {
                    assert(self@.sessions[i as int].wf());
                }
                let r = self.sessions[i].join(fleet_id, commitment, cells);
                proof {
                    let before = old(self)@.game(game_id@);
                    match r {
                        Ok(_) => {
                            let after = before.joined(fleet_id@, commitment@);
                            lemma_joined(before, fleet_id@, commitment@);
                            assert(after.players.len() > 0) by {
                                if before.has_player(fleet_id@) {
                                } else {
                                    assert(after.players.len() == before.players.len() + 1);
                                }
                            }
                            lemma_with_game(old(self)@, game_id@, after);
                            assert(self@.sessions =~= old(self)@.sessions.update(i as int, after));
                        },
                        Err(_) => {
                            assert(self@.sessions =~= old(self)@.sessions);
                        },
                    }
                }
                r
            },
            None => {
                let mut session = Session::new(game_id.clone());
                match session.join(fleet_id, commitment, cells) {
                    Ok(how) => {
                        proof {
                            let opened = SessionView::empty(game_id@).joined(
                                fleet_id@,
                                commitment@,
                            );
                            assert(!SessionView::empty(game_id@).has_player(fleet_id@));
                            assert(opened.players.len() == 1);
                            lemma_opened(old(self)@, opened);
                        }
                        self.sessions.push(session);
                        proof {
                            assert(self@.sessions =~= old(self)@.sessions.push(
                                SessionView::empty(game_id@).joined(fleet_id@, commitment@),
                            ));
                        }
                        Ok(how)
                    },
                    Err(e) => Err(e),
                }
            },
        }
    }

    /// A player fires in an open game. See [`Session::fire`].
    pub fn fire(
        &mut self,
        game_id: &String,
        actor: &String,
        next: Commitment,
        target: &String,
        pos: u8,
    ) -> (r: Result<(), GameError>)
        requires
            old(self).wf(),
        ensures
            final(self).wf(),
            match r {
                Ok(_) => {
                    &&& old(self)@.fire_error(game_id@, actor@, target@, pos) is None
                    &&& final(self)@ == old(self)@.fired(game_id@, actor@, next@, target@, pos)
                },
                Err(e) => {
                    &&& old(self)@.fire_error(game_id@, actor@, target@, pos) == Some(e)
                    &&& final(self)@ == old(self)@
                },
            },
    {
        let i = match self.find(game_id) {
            Some(i) => i,
            None => {
                return Err(GameError::GameNotFound);
            },
        };
        proof {
            assert(self@.sessions[i as int].wf());
        }
        let r = self.sessions[i].fire(actor, next, target, pos);
        proof {
            let before = old(self)@.game(game_id@);
            match r {
                Ok(_) => {
                    let after = before.fired(actor@, next@, target@, pos);
                    lemma_fired(before, actor@, next@, target@, pos);
                    lemma_with_game(old(self)@, game_id@, after);
                    assert(self@.sessions =~= old(self)@.sessions.update(i as int, after));
                },
                Err(_) => {
                    assert(self@.sessions =~= old(self)@.sessions);
                },
            }
        }
        r
    }

    /// A player reports on the pending shot of an open game. See
    /// [`Session::report`].
    pub fn report(
        &mut self,
        game_id: &String,
        reporter: &String,
        prior: Commitment,
        next: Commitment,
        pos: u8,
        outcome: Outcome,
    ) -> (r: Result<(), GameError>)
        requires
            old(self).wf(),
        ensures
            final(self).wf(),
            match r {
                Ok(_) => {
                    &&& old(self)@.report_error(game_id@, reporter@, prior@, pos, outcome) is None
                    &&& final(self)@ == old(self)@.reported(game_id@, reporter@, next@, pos, outcome)
                },
                Err(e) => {
                    &&& old(self)@.report_error(game_id@, reporter@, prior@, pos, outcome) == Some(
                        e,
                    )
                    &&& final(self)@ == old(self)@
                },
            },
    {
        let i = match self.find(game_id) {
            Some(i) => i,
            None => {
                return Err(GameError::GameNotFound);
            },
        };
        proof {
            assert(self@.sessions[i as int].wf());
        }
        let r = self.sessions[i].report(reporter, prior, next, pos, outcome);
        proof {
            let before = old(self)@.game(game_id@);
            match r {
                Ok(_) => {
                    let after = before.reported(reporter@, next@, pos, outcome);
                    lemma_reported(before, reporter@, prior@, next@, pos, outcome);
                    lemma_with_game(old(self)@, game_id@, after);
                    assert(self@.sessions =~= old(self)@.sessions.update(i as int, after));
                },
                Err(_) => {
                    assert(self@.sessions =~= old(self)@.sessions);
                },
            }
        }
        r
    }

    /// A player passes its turn in an open game. See [`Session::wave`].
    pub fn wave(&mut self, game_id: &String, actor: &String) -> (r: Result<(), GameError>)
        requires
            old(self).wf(),
        ensures
            final(self).wf(),
            match r {
                Ok(_) => {
                    &&& old(self)@.wave_error(game_id@, actor@) is None
                    &&& final(self)@ == old(self)@.waved(game_id@)
                },
                Err(e) => {
                    &&& old(self)@.wave_error(game_id@, actor@) == Some(e)
                    &&& final(self)@ == old(self)@
                },
            },
    {
        let i = match self.find(game_id) {
            Some(i) => i,
            None => {
                return Err(GameError::GameNotFound);
            },
        };
        proof {
            assert(self@.sessions[i as int].wf());
        }
        let r = self.sessions[i].wave(actor);
        proof {
            let before = old(self)@.game(game_id@);
            match r {
                Ok(_) => {
                    let after = before.waved();
                    lemma_waved(before, actor@);
                    lemma_with_game(old(self)@, game_id@, after);
                    assert(self@.sessions =~= old(self)@.sessions.update(i as int, after));
                },
                Err(_) => {
                    assert(self@.sessions =~= old(self)@.sessions);
                },
            }
        }
        r
    }

    /// A player claims victory in an open game. An accepted claim closes
    /// the game: its identifier is free again and a later join under it
    /// opens a new game. A rejected claim changes nothing. See
    /// [`Session::check_win`].
    pub fn win(&mut self, game_id: &String, claimant: &String) -> (r: Result<(), GameError>)
        requires
            old(self).wf(),
        ensures
            final(self).wf(),
            match r {
                Ok(_) => {
                    &&& old(self)@.win_error(game_id@, claimant@) is None
                    &&& final(self)@ == old(self)@.won(game_id@)
                    &&& !final(self)@.has_game(game_id@)
                },
                Err(e) => {
                    &&& old(self)@.win_error(game_id@, claimant@) == Some(e)
                    &&& final(self)@ == old(self)@
                },
            },
    {
        let i = match self.find(game_id) {
            Some(i) => i,
            None => {
                return Err(GameError::GameNotFound);
            },
        };
        proof {
            assert(self@.sessions[i as int].wf());
        }
        match self.sessions[i].check_win(claimant) {
            Ok(_) => {
                let _ = self.sessions.remove(i);
                proof {
                    lemma_won(old(self)@, game_id@);
                    assert(self@.sessions =~= old(self)@.sessions.remove(i as int));
                }
                Ok(())
            },
            Err(e) => Err(e),
        }
    }
}

} // verus!
