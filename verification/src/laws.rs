//! Properties of the rules of the game, proved from the transitions of
//! sessions and of the registry.

use vstd::prelude::*;
use crate::board::FULL_FLEET_CELLS;
use crate::coordinator::{fire_effect, join_effect, report_effect, wave_effect, win_effect};
use crate::errors::GameError;
use crate::fleet::Cell;
use crate::player::Outcome;
use crate::registry::{lemma_won, RegistryView};
use crate::session::{
    lemma_fired, lemma_joined, lemma_reported, lemma_seat_of, lemma_waved, SessionView,
};

verus! {

/// Whether every player of `before` is still a player of `after`, at the
/// same seat and under the same identifier, with at least as many hits.
pub open spec fn hits_kept(before: SessionView, after: SessionView) -> bool {
    &&& before.players.len() <= after.players.len()
    &&& forall|i: int|
        0 <= i < before.players.len() ==> (#[trigger] after.players[i]).id == before.players[i].id
            && after.players[i].hit_count >= before.players[i].hit_count
}

/// The active player of a session, if there is one, has joined it.
pub proof fn law_active_player_has_joined(s: SessionView)
    requires
        s.wf(),
        s.active_player() is Some,
    ensures
        s.has_player(s.active_player()->0),
{
    assert(s.has_player(s.turn_queue[0]));
}

/// Every player of a session stands in the turn queue, at exactly one
/// place, and the queue holds nobody who has not joined.
pub proof fn law_every_player_queues_once(s: SessionView, id: Seq<char>)
    requires
        s.wf(),
    ensures
        s.has_player(id) <==> s.turn_queue.contains(id),
        forall|i: int, j: int|
            0 <= i < s.turn_queue.len() && 0 <= j < s.turn_queue.len() && s.turn_queue[i] == id
                && s.turn_queue[j] == id ==> i == j,
{
    if s.has_player(id) {
        lemma_seat_of(s, id);
        assert(s.turn_queue.contains(s.players[s.seat(id)].id));
    }
    if s.turn_queue.contains(id) {
        let k = choose|k: int| 0 <= k < s.turn_queue.len() && s.turn_queue[k] == id;
        assert(s.has_player(s.turn_queue[k]));
    }
}

/// While a shot waits for its report, every further shot is rejected
/// because of it, whoever fires and wherever.
pub proof fn law_pending_shot_blocks_fire(
    s: SessionView,
    actor: Seq<char>,
    target: Seq<char>,
    pos: u8,
)
    requires
        s.pending_shot is Some,
    ensures
        s.fire_error(actor, target, pos) == Some(GameError::PendingReportExists),
{
}

/// A shot that follows an accepted shot, with no report in between, is
/// rejected because the first one is pending, and the pending shot stays
/// the first one.
pub proof fn law_second_fire_rejected(
    r: RegistryView,
    game: Seq<char>,
    actor: Seq<char>,
    next: Seq<u8>,
    target: Seq<char>,
    pos: u8,
    actor2: Seq<char>,
    next2: Seq<u8>,
    target2: Seq<char>,
    pos2: u8,
)
    requires
        r.wf(),
        r.fire_error(game, actor, target, pos) is None,
    ensures
        r.fired(game, actor, next, target, pos).game(game).pending_shot == Some((pos, target)),
        r.fired(game, actor, next, target, pos).fire_error(game, actor2, target2, pos2) == Some(
            GameError::PendingReportExists,
        ),
        fire_effect(r.fired(game, actor, next, target, pos), game, actor2, next2, target2, pos2)
            == r.fired(game, actor, next, target, pos),
{
    let after = r.game(game).fired(actor, next, target, pos);
    lemma_fired(r.game(game), actor, next, target, pos);
    crate::registry::lemma_with_game(r, game, after);
}

/// An accepted shot leaves the turn where it is: the active player and the
/// whole turn queue are the same before and after.
pub proof fn law_fire_keeps_turn(
    s: SessionView,
    actor: Seq<char>,
    next: Seq<u8>,
    target: Seq<char>,
    pos: u8,
)
    requires
        s.wf(),
        s.fire_error(actor, target, pos) is None,
    ensures
        s.fired(actor, next, target, pos).active_player() == s.active_player(),
        s.fired(actor, next, target, pos).turn_queue == s.turn_queue,
{
}

/// No shot, accepted or rejected, changes whose turn it is in any open
/// game.
pub proof fn law_fire_never_passes_turn(
    r: RegistryView,
    game: Seq<char>,
    actor: Seq<char>,
    next: Seq<u8>,
    target: Seq<char>,
    pos: u8,
    any: Seq<char>,
)
    requires
        r.wf(),
        r.has_game(any),
    ensures
        fire_effect(r, game, actor, next, target, pos).has_game(any),
        fire_effect(r, game, actor, next, target, pos).game(any).active_player() == r.game(
            any,
        ).active_player(),
{
    if fire_effect(r, game, actor, next, target, pos) != r {
        let after = r.game(game).fired(actor, next, target, pos);
        lemma_fired(r.game(game), actor, next, target, pos);
        crate::registry::lemma_with_game(r, game, after);
    }
}

/// Once a player is active, an accepted join leaves the turn where it is.
pub proof fn law_join_keeps_turn(s: SessionView, id: Seq<char>, commitment: Seq<u8>)
    requires
        s.wf(),
        s.active_player() is Some,
    ensures
        s.joined(id, commitment).active_player() == s.active_player(),
{
    lemma_joined(s, id, commitment);
}

/// An accepted report and an accepted wave pass the turn to the player
/// who stood second in the turn queue, or leave it with a player who is
/// alone.
pub proof fn law_report_and_wave_pass_turn(
    s: SessionView,
    reporter: Seq<char>,
    next: Seq<u8>,
    pos: u8,
    outcome: Outcome,
)
    requires
        s.wf(),
        s.turn_queue.len() > 0,
    ensures
        s.reported(reporter, next, pos, outcome).active_player() == s.waved().active_player(),
        s.waved().active_player() == Some(
            if s.turn_queue.len() > 1 {
                s.turn_queue[1]
            } else {
                s.turn_queue[0]
            },
        ),
{
    let q = s.turn_queue;
    if q.len() > 1 {
        assert(q.drop_first().push(q[0])[0] == q.drop_first()[0]);
    }
}

/// A report that does not name the pending shot, by its position or by its
/// reporter, is rejected as a mismatch and changes no game: every grid,
/// hit count and commitment stays what it was.
pub proof fn law_mismatched_report_changes_nothing(
    r: RegistryView,
    game: Seq<char>,
    reporter: Seq<char>,
    prior: Seq<u8>,
    next: Seq<u8>,
    pos: u8,
    outcome: Outcome,
)
    requires
        r.has_game(game),
        r.game(game).pending_shot != Some((pos, reporter)),
    ensures
        r.report_error(game, reporter, prior, pos, outcome) == Some(GameError::ReportMismatch),
        report_effect(r, game, reporter, prior, next, pos, outcome) == r,
{
}

/// No player of a session has more hits than a fleet has cells.
pub proof fn law_hit_count_bound(s: SessionView, i: int)
    requires
        s.wf(),
        0 <= i < s.players.len(),
    ensures
        s.players[i].hit_count <= FULL_FLEET_CELLS,
{
}

/// No action lowers a hit count. Whether accepted or rejected, a join, a
/// shot, a report and a wave leave a session that keeps its invariant, and
/// in it every player has at least the hits it had.
pub proof fn law_hit_counts_never_decrease(
    s: SessionView,
    player: Seq<char>,
    other: Seq<char>,
    prior: Seq<u8>,
    next: Seq<u8>,
    cells: Seq<Cell>,
    pos: u8,
    outcome: Outcome,
)
    requires
        s.wf(),
    ensures
        s.join_error(player, next, cells) is None ==> s.joined(player, next).wf() && hits_kept(
            s,
            s.joined(player, next),
        ),
        s.fire_error(player, other, pos) is None ==> s.fired(player, next, other, pos).wf()
            && hits_kept(s, s.fired(player, next, other, pos)),
        s.report_error(player, prior, pos, outcome) is None ==> s.reported(
            player,
            next,
            pos,
            outcome,
        ).wf() && hits_kept(s, s.reported(player, next, pos, outcome)),
        s.wave_error(player) is None ==> s.waved().wf() && hits_kept(s, s.waved()),
{
    if s.join_error(player, next, cells) is None {
        lemma_joined(s, player, next);
    }
    if s.fire_error(player, other, pos) is None {
        lemma_fired(s, player, next, other, pos);
        let t = s.fired(player, next, other, pos);
        assert forall|i: int| 0 <= i < s.players.len() implies (#[trigger] t.players[i]).id
            == s.players[i].id && t.players[i].hit_count >= s.players[i].hit_count by {
            lemma_seat_of(s, player);
        }
    }
    if s.report_error(player, prior, pos, outcome) is None {
        lemma_reported(s, player, prior, next, pos, outcome);
        let t = s.reported(player, next, pos, outcome);
        assert forall|i: int| 0 <= i < s.players.len() implies (#[trigger] t.players[i]).id
            == s.players[i].id && t.players[i].hit_count >= s.players[i].hit_count by {
            lemma_seat_of(s, player);
        }
    }
    if s.wave_error(player) is None {
        lemma_waved(s, player);
    }
}

/// A victory claim is accepted exactly when the claimant has joined, has
/// fewer hits than a fleet has cells, and every other player has exactly
/// as many hits as a fleet has cells.
pub proof fn law_win_exclusive(s: SessionView, claimant: Seq<char>)
    requires
        s.wf(),
    ensures
        s.win_error(claimant) is None <==> {
            &&& s.has_player(claimant)
            &&& s.player(claimant).hit_count < FULL_FLEET_CELLS
            &&& forall|i: int|
                0 <= i < s.players.len() && (#[trigger] s.players[i]).id != claimant
                    ==> s.players[i].hit_count == FULL_FLEET_CELLS
        },
{
    if s.has_player(claimant) {
        if s.all_opponents_sunk(claimant) {
            assert forall|i: int|
                0 <= i < s.players.len() && (#[trigger] s.players[i]).id
                    != claimant implies s.players[i].hit_count == FULL_FLEET_CELLS by {
                assert(s.players[i].sunk());
            }
        }
    }
}

/// After an accepted victory claim the game cannot be reached under its
/// identifier: every shot, report, wave and victory claim that names it is
/// rejected because no such game is open, and changes nothing.
pub proof fn law_won_game_is_gone(
    r: RegistryView,
    game: Seq<char>,
    claimant: Seq<char>,
    player: Seq<char>,
    other: Seq<char>,
    prior: Seq<u8>,
    next: Seq<u8>,
    pos: u8,
    outcome: Outcome,
)
    requires
        r.wf(),
        r.win_error(game, claimant) is None,
    ensures
        win_effect(r, game, claimant).wf(),
        !win_effect(r, game, claimant).has_game(game),
        win_effect(r, game, claimant).fire_error(game, player, other, pos) == Some(
            GameError::GameNotFound,
        ),
        win_effect(r, game, claimant).report_error(game, player, prior, pos, outcome) == Some(
            GameError::GameNotFound,
        ),
        win_effect(r, game, claimant).wave_error(game, player) == Some(GameError::GameNotFound),
        win_effect(r, game, claimant).win_error(game, player) == Some(GameError::GameNotFound),
        fire_effect(win_effect(r, game, claimant), game, player, next, other, pos) == win_effect(
            r,
            game,
            claimant,
        ),
{
    lemma_won(r, game);
}

/// A rejected action changes nothing at all.
pub proof fn law_rejected_actions_change_nothing(
    r: RegistryView,
    game: Seq<char>,
    player: Seq<char>,
    other: Seq<char>,
    prior: Seq<u8>,
    next: Seq<u8>,
    cells: Seq<Cell>,
    pos: u8,
    outcome: Outcome,
)
    ensures
        r.join_error(game, player, next, cells) is Some ==> join_effect(
            r,
            game,
            player,
            next,
            cells,
        ) == r,
        r.fire_error(game, player, other, pos) is Some ==> fire_effect(
            r,
            game,
            player,
            next,
            other,
            pos,
        ) == r,
        r.report_error(game, player, prior, pos, outcome) is Some ==> report_effect(
            r,
            game,
            player,
            prior,
            next,
            pos,
            outcome,
        ) == r,
        r.wave_error(game, player) is Some ==> wave_effect(r, game, player) == r,
        r.win_error(game, player) is Some ==> win_effect(r, game, player) == r,
{
}

} // verus!
