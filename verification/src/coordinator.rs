//! The five actions as the coordinator handles them.
//!
//! Each handler takes the result of checking one attested claim. A claim
//! that did not verify or decode is turned down before any game is looked
//! at. A verified claim is one transition of the registry. Every handler
//! answers with a reply for the submitter and the events to publish; the
//! caller publishes them after it has let go of the registry.

use vstd::prelude::*;
use vstd::string::*;
use crate::claims::{Action, Attested, FireClaim, JoinClaim, ReportClaim, WaveClaim, WinClaim};
use crate::board::BOARD_CELLS;
use crate::errors::GameError;
use crate::fleet::Cell;
use crate::messages::{
    delta_event, delta_text, error_message, error_text, full_state_event, full_state_text,
    joined_event, joined_text, rejected_event, rejected_text, rejoined_event, rejoined_text,
    resolved_event, resolved_text, shot_event, shot_text, texts, unattested_event,
    unattested_text, waved_event, waved_text, won_event, won_text,
};
use crate::player::Outcome;
use crate::registry::{lemma_with_game, Registry, RegistryView};
use crate::session::{lemma_reported, lemma_waved, Joined};

verus! {

/// What a handler answers: the error if the action was rejected, the text
/// for the submitter and the events for the observers, in the order in
/// which they are to be published.
pub struct Reply {
    pub error: Option<GameError>,
    pub text: String,
    pub events: Vec<String>,
}

/// The mathematical content of a [`Reply`].
pub struct ReplyView {
    pub error: Option<GameError>,
    pub text: Seq<char>,
    pub events: Seq<Seq<char>>,
}

impl View for Reply {
    type V = ReplyView;

    open spec fn view(&self) -> ReplyView {
        ReplyView { error: self.error, text: self.text@, events: texts(self.events@) }
    }
}

impl Reply {
    /// Whether the action was accepted.
    pub fn accepted(&self) -> (b: bool)
        ensures
            b == (self.error is None),
    {
        self.error.is_none()
    }
}

/// The reply to a claim whose attestation or record was refused.
pub open spec fn unattested_reply(action: Action, error: GameError) -> ReplyView {
    ReplyView {
        error: Some(error),
        text: error_text(error, Seq::empty()),
        events: seq![unattested_text(action, error)],
    }
}

/// The reply to an action that the rules of the game refused.
pub open spec fn rejected_reply(
    action: Action,
    game: Seq<char>,
    player: Seq<char>,
    error: GameError,
) -> ReplyView {
    ReplyView {
        error: Some(error),
        text: error_text(error, game),
        events: seq![rejected_text(action, game, player, error)],
    }
}

/// The reply to an accepted action.
pub open spec fn accepted_reply(text: Seq<char>, events: Seq<Seq<char>>) -> ReplyView {
    ReplyView { error: None, text, events }
}

/// The reply to a verified join.
pub open spec fn join_reply(
    r: RegistryView,
    game: Seq<char>,
    fleet: Seq<char>,
    commitment: Seq<u8>,
    cells: Seq<Cell>,
) -> ReplyView {
    match r.join_error(game, fleet, commitment, cells) {
        Some(e) => rejected_reply(Action::Join, game, fleet, e),
        None => accepted_reply(
            "OK"@,
            seq![
                if r.game_or_new(game).has_player(fleet) {
                    rejoined_text(game, fleet)
                } else {
                    joined_text(game, fleet)
                },
            ],
        ),
    }
}

/// The registry after a verified join.
pub open spec fn join_effect(
    r: RegistryView,
    game: Seq<char>,
    fleet: Seq<char>,
    commitment: Seq<u8>,
    cells: Seq<Cell>,
) -> RegistryView {
    if r.join_error(game, fleet, commitment, cells) is None {
        r.joined(game, fleet, commitment)
    } else {
        r
    }
}

/// The reply to a verified shot. A position off the board makes the
/// record unreadable, whatever the state of the game.
pub open spec fn fire_reply(
    r: RegistryView,
    game: Seq<char>,
    actor: Seq<char>,
    target: Seq<char>,
    pos: u8,
) -> ReplyView {
    if pos >= BOARD_CELLS {
        unattested_reply(Action::Fire, GameError::DecodeFailure)
    } else {
        match r.fire_error(game, actor, target, pos) {
            Some(e) => rejected_reply(Action::Fire, game, actor, e),
            None => accepted_reply("OK"@, seq![shot_text(game, actor, pos, target)]),
        }
    }
}

/// The registry after a verified shot.
pub open spec fn fire_effect(
    r: RegistryView,
    game: Seq<char>,
    actor: Seq<char>,
    next: Seq<u8>,
    target: Seq<char>,
    pos: u8,
) -> RegistryView {
    if pos < BOARD_CELLS && r.fire_error(game, actor, target, pos) is None {
        r.fired(game, actor, next, target, pos)
    } else {
        r
    }
}

/// The registry after a verified report.
pub open spec fn report_effect(
    r: RegistryView,
    game: Seq<char>,
    reporter: Seq<char>,
    prior: Seq<u8>,
    next: Seq<u8>,
    pos: u8,
    outcome: Outcome,
) -> RegistryView {
    if pos < BOARD_CELLS && r.report_error(game, reporter, prior, pos, outcome) is None {
        r.reported(game, reporter, next, pos, outcome)
    } else {
        r
    }
}

/// The reply to a verified report. A position off the board makes the
/// record unreadable, whatever the state of the game. An accepted report
/// is published as three events: the mark for the cell, the narration with
/// the player whose turn comes next, and the snapshot of all games after
/// the report.
pub open spec fn report_reply(
    r: RegistryView,
    game: Seq<char>,
    reporter: Seq<char>,
    prior: Seq<u8>,
    next: Seq<u8>,
    pos: u8,
    outcome: Outcome,
) -> ReplyView {
    if pos >= BOARD_CELLS {
        unattested_reply(Action::Report, GameError::DecodeFailure)
    } else {
        match r.report_error(game, reporter, prior, pos, outcome) {
            Some(e) => rejected_reply(Action::Report, game, reporter, e),
            None => accepted_reply(
                "OK"@,
                seq![
                    delta_text(outcome, reporter, pos),
                    resolved_text(
                        game,
                        outcome,
                        pos,
                        r.game(game).reported(reporter, next, pos, outcome).active_player(),
                    ),
                    full_state_text(r.reported(game, reporter, next, pos, outcome).sessions),
                ],
            ),
        }
    }
}

/// The registry after a verified wave.
pub open spec fn wave_effect(r: RegistryView, game: Seq<char>, actor: Seq<char>) -> RegistryView {
    if r.wave_error(game, actor) is None {
        r.waved(game)
    } else {
        r
    }
}

/// The reply to a verified wave.
pub open spec fn wave_reply(r: RegistryView, game: Seq<char>, actor: Seq<char>) -> ReplyView {
    match r.wave_error(game, actor) {
        Some(e) => rejected_reply(Action::Wave, game, actor, e),
        None => accepted_reply(
            "OK"@,
            seq![waved_text(game, actor, r.game(game).waved().active_player())],
        ),
    }
}

/// The registry after a verified victory claim.
pub open spec fn win_effect(r: RegistryView, game: Seq<char>, claimant: Seq<char>) -> RegistryView {
    if r.win_error(game, claimant) is None {
        r.won(game)
    } else {
        r
    }
}

/// The reply to a verified victory claim.
pub open spec fn win_reply(r: RegistryView, game: Seq<char>, claimant: Seq<char>) -> ReplyView {
    match r.win_error(game, claimant) {
        Some(e) => rejected_reply(Action::Win, game, claimant, e),
        None => accepted_reply("BIG WIN!"@, seq![won_text(game, claimant)]),
    }
}

fn unattested(action: Action, error: GameError) -> (reply: Reply)
    ensures
        reply@ == unattested_reply(action, error),
{
    let empty = String::new();
    let text = error_message(error, empty.as_str());
    let mut events: Vec<String> = Vec::new();
    events.push(unattested_event(action, error));
    proof {
        assert(texts(events@) =~= seq![unattested_text(action, error)]);
    }
    Reply { error: Some(error), text, events }
}

fn rejected(action: Action, game_id: &String, player_id: &String, error: GameError) -> (reply:
    Reply)
    ensures
        reply@ == rejected_reply(action, game_id@, player_id@, error),
{
    let text = error_message(error, game_id.as_str());
    let mut events: Vec<String> = Vec::new();
    events.push(rejected_event(action, game_id, player_id, error));
    proof {
        assert(texts(events@) =~= seq![rejected_text(action, game_id@, player_id@, error)]);
    }
    Reply { error: Some(error), text, events }
}

fn accepted_with(text: &str, event: String) -> (reply: Reply)
    ensures
        reply@ == accepted_reply(text@, seq![event@]),
{
    let mut events: Vec<String> = Vec::new();
    events.push(event);
    proof {
        assert(texts(events@) =~= seq![event@]);
    }
    Reply { error: None, text: String::from_str(text), events }
}

/// Handles a join.
///
/// A claim that did not verify or decode is rejected and no game is
/// touched. A verified claim joins the player to the game named in it, and
/// opens the game if it is new. The reply is `OK` and one event tells of
/// the newcomer, or of the repeated join. A rejected join changes nothing
/// and is narrated in one event.
pub fn handle_join(registry: &mut Registry, attested: Attested<JoinClaim>) -> (reply: Reply)
    requires
        old(registry).wf(),
    ensures
        final(registry).wf(),
        match attested {
            Attested::Invalid => final(registry)@ == old(registry)@ && reply@ == unattested_reply(
                Action::Join,
                GameError::InvalidAttestation,
            ),
            Attested::Undecodable => final(registry)@ == old(registry)@ && reply@
                == unattested_reply(Action::Join, GameError::DecodeFailure),
            Attested::Verified(claim) => {
                &&& final(registry)@ == join_effect(
                    old(registry)@,
                    claim.game_id@,
                    claim.fleet_id@,
                    claim.commitment@,
                    claim.cells@,
                )
                &&& reply@ == join_reply(
                    old(registry)@,
                    claim.game_id@,
                    claim.fleet_id@,
                    claim.commitment@,
                    claim.cells@,
                )
            },
        },
{
    let claim = match attested {
        Attested::Invalid => {
            return unattested(Action::Join, GameError::InvalidAttestation);
        },
        Attested::Undecodable => {
            return unattested(Action::Join, GameError::DecodeFailure);
        },
        Attested::Verified(claim) => claim,
    };
    let fleet_id = claim.fleet_id.clone();
    match registry.join(&claim.game_id, claim.fleet_id, claim.commitment, claim.cells.as_slice()) {
        Ok(Joined::New) => accepted_with("OK", joined_event(&claim.game_id, &fleet_id)),
        Ok(Joined::Again) => accepted_with("OK", rejoined_event(&claim.game_id, &fleet_id)),
        Err(e) => rejected(Action::Join, &claim.game_id, &fleet_id, e),
    }
}

/// Handles a shot.
///
/// A claim that did not verify or decode is rejected and no game is
/// touched; so is a claim whose position lies off the board. A verified
/// claim is the shot of the actor at the target. The reply to an accepted
/// shot is `OK` and one event names actor, target and grid coordinate. A
/// rejected shot changes nothing and is narrated in one event.
pub fn handle_fire(registry: &mut Registry, attested: Attested<FireClaim>) -> (reply: Reply)
    requires
        old(registry).wf(),
    ensures
        final(registry).wf(),
        match attested {
            Attested::Invalid => final(registry)@ == old(registry)@ && reply@ == unattested_reply(
                Action::Fire,
                GameError::InvalidAttestation,
            ),
            Attested::Undecodable => final(registry)@ == old(registry)@ && reply@
                == unattested_reply(Action::Fire, GameError::DecodeFailure),
            Attested::Verified(claim) => {
                &&& final(registry)@ == fire_effect(
                    old(registry)@,
                    claim.game_id@,
                    claim.fleet_id@,
                    claim.commitment@,
                    claim.target@,
                    claim.pos,
                )
                &&& reply@ == fire_reply(
                    old(registry)@,
                    claim.game_id@,
                    claim.fleet_id@,
                    claim.target@,
                    claim.pos,
                )
            },
        },
{
    let claim = match attested {
        Attested::Invalid => {
            return unattested(Action::Fire, GameError::InvalidAttestation);
        },
        Attested::Undecodable => {
            return unattested(Action::Fire, GameError::DecodeFailure);
        },
        Attested::Verified(claim) => claim,
    };
    if claim.pos as usize >= BOARD_CELLS {
        return unattested(Action::Fire, GameError::DecodeFailure);
    }
    match registry.fire(
        &claim.game_id,
        &claim.fleet_id,
        claim.commitment,
        &claim.target,
        claim.pos,
    ) {
        Ok(_) => accepted_with(
            "OK",
            shot_event(&claim.game_id, &claim.fleet_id, claim.pos, &claim.target),
        ),
        Err(e) => rejected(Action::Fire, &claim.game_id, &claim.fleet_id, e),
    }
}

/// Handles a report.
///
/// A claim that did not verify or decode is rejected and no game is
/// touched; so is a claim whose position lies off the board. A verified
/// claim is the report of the named player on the pending shot. The reply
/// to an accepted report is `OK` with three events: the mark for the
/// cell, the narration that names the next player, and the snapshot of all
/// games. A rejected report changes nothing and is narrated in one event.
pub fn handle_report(registry: &mut Registry, attested: Attested<ReportClaim>) -> (reply: Reply)
    requires
        old(registry).wf(),
    ensures
        final(registry).wf(),
        match attested {
            Attested::Invalid => final(registry)@ == old(registry)@ && reply@ == unattested_reply(
                Action::Report,
                GameError::InvalidAttestation,
            ),
            Attested::Undecodable => final(registry)@ == old(registry)@ && reply@
                == unattested_reply(Action::Report, GameError::DecodeFailure),
            Attested::Verified(claim) => {
                &&& final(registry)@ == report_effect(
                    old(registry)@,
                    claim.game_id@,
                    claim.fleet_id@,
                    claim.prior@,
                    claim.next@,
                    claim.pos,
                    claim.outcome,
                )
                &&& reply@ == report_reply(
                    old(registry)@,
                    claim.game_id@,
                    claim.fleet_id@,
                    claim.prior@,
                    claim.next@,
                    claim.pos,
                    claim.outcome,
                )
            },
        },
{
    let claim = match attested {
        Attested::Invalid => {
            return unattested(Action::Report, GameError::InvalidAttestation);
        },
        Attested::Undecodable => {
            return unattested(Action::Report, GameError::DecodeFailure);
        },
        Attested::Verified(claim) => claim,
    };
    if claim.pos as usize >= BOARD_CELLS {
        return unattested(Action::Report, GameError::DecodeFailure);
    }
    match registry.report(
        &claim.game_id,
        &claim.fleet_id,
        claim.prior,
        claim.next,
        claim.pos,
        claim.outcome,
    ) {
        Ok(_) => {
            proof {
                let before = old(registry)@.game(claim.game_id@);
                let after = before.reported(
                    claim.fleet_id@,
                    claim.next@,
                    claim.pos,
                    claim.outcome,
                );
                lemma_reported(
                    before,
                    claim.fleet_id@,
                    claim.prior@,
                    claim.next@,
                    claim.pos,
                    claim.outcome,
                );
                lemma_with_game(old(registry)@, claim.game_id@, after);
            }
            let next: Option<String> = match registry.get(&claim.game_id) {
                Some(session) => session.active_player(),
                None => None,
            };
            let mut events: Vec<String> = Vec::new();
            events.push(delta_event(claim.outcome, &claim.fleet_id, claim.pos));
            events.push(resolved_event(&claim.game_id, claim.outcome, claim.pos, &next));
            events.push(full_state_event(registry));
            proof {
                assert(texts(events@) =~= report_reply(
                    old(registry)@,
                    claim.game_id@,
                    claim.fleet_id@,
                    claim.prior@,
                    claim.next@,
                    claim.pos,
                    claim.outcome,
                ).events);
            }
            Reply { error: None, text: String::from_str("OK"), events }
        },
        Err(e) => rejected(Action::Report, &claim.game_id, &claim.fleet_id, e),
    }
}

/// Handles a wave.
///
/// A claim that did not verify or decode is rejected and no game is
/// touched. A verified claim passes the turn of the named player. The
/// reply to an accepted wave is `OK` and one event names the player whose
/// turn comes next. A rejected wave changes nothing and is narrated in one
/// event.
pub fn handle_wave(registry: &mut Registry, attested: Attested<WaveClaim>) -> (reply: Reply)
    requires
        old(registry).wf(),
    ensures
        final(registry).wf(),
        match attested {
            Attested::Invalid => final(registry)@ == old(registry)@ && reply@ == unattested_reply(
                Action::Wave,
                GameError::InvalidAttestation,
            ),
            Attested::Undecodable => final(registry)@ == old(registry)@ && reply@
                == unattested_reply(Action::Wave, GameError::DecodeFailure),
            Attested::Verified(claim) => {
                &&& final(registry)@ == wave_effect(
                    old(registry)@,
                    claim.game_id@,
                    claim.fleet_id@,
                )
                &&& reply@ == wave_reply(old(registry)@, claim.game_id@, claim.fleet_id@)
            },
        },
{
    let claim = match attested {
        Attested::Invalid => {
            return unattested(Action::Wave, GameError::InvalidAttestation);
        },
        Attested::Undecodable => {
            return unattested(Action::Wave, GameError::DecodeFailure);
        },
        Attested::Verified(claim) => claim,
    };
    match registry.wave(&claim.game_id, &claim.fleet_id) {
        Ok(_) => {
            proof {
                let before = old(registry)@.game(claim.game_id@);
                lemma_waved(before, claim.fleet_id@);
                lemma_with_game(old(registry)@, claim.game_id@, before.waved());
            }
            let next: Option<String> = match registry.get(&claim.game_id) {
                Some(session) => session.active_player(),
                None => None,
            };
            accepted_with("OK", waved_event(&claim.game_id, &claim.fleet_id, &next))
        },
        Err(e) => rejected(Action::Wave, &claim.game_id, &claim.fleet_id, e),
    }
}

/// Handles a victory claim.
///
/// A claim that did not verify or decode is rejected and no game is
/// touched. A verified claim is accepted when the claimant's fleet is not
/// sunk and every other fleet of the game is. An accepted claim closes the
/// game; the reply is `BIG WIN!` and one event names the winner. A
/// rejected claim changes nothing and is narrated in one event.
pub fn handle_win(registry: &mut Registry, attested: Attested<WinClaim>) -> (reply: Reply)
    requires
        old(registry).wf(),
    ensures
        final(registry).wf(),
        match attested {
            Attested::Invalid => final(registry)@ == old(registry)@ && reply@ == unattested_reply(
                Action::Win,
                GameError::InvalidAttestation,
            ),
            Attested::Undecodable => final(registry)@ == old(registry)@ && reply@
                == unattested_reply(Action::Win, GameError::DecodeFailure),
            Attested::Verified(claim) => {
                &&& final(registry)@ == win_effect(old(registry)@, claim.game_id@, claim.fleet_id@)
                &&& reply@ == win_reply(old(registry)@, claim.game_id@, claim.fleet_id@)
            },
        },
{
    let claim = match attested {
        Attested::Invalid => {
            return unattested(Action::Win, GameError::InvalidAttestation);
        },
        Attested::Undecodable => {
            return unattested(Action::Win, GameError::DecodeFailure);
        },
        Attested::Verified(claim) => claim,
    };
    match registry.win(&claim.game_id, &claim.fleet_id) {
        Ok(_) => accepted_with("BIG WIN!", won_event(&claim.game_id, &claim.fleet_id)),
        Err(e) => rejected(Action::Win, &claim.game_id, &claim.fleet_id, e),
    }
}

} // verus!
