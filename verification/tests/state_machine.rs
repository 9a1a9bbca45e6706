use fleet_coordinator::claims::{
    Attested, FireClaim, JoinClaim, ReportClaim, WaveClaim, WinClaim,
};
use fleet_coordinator::coordinator::{
    handle_fire, handle_join, handle_report, handle_wave, handle_win, Reply,
};
use fleet_coordinator::errors::GameError;
use fleet_coordinator::fleet::FleetError;
use fleet_coordinator::player::{Commitment, Outcome, Shot};
use fleet_coordinator::registry::Registry;
use fleet_coordinator::session::{Joined, Session};

fn name(s: &str) -> String {
    s.to_string()
}

fn digest(seed: u8) -> Commitment {
    Commitment { bytes: [seed; 32] }
}

fn layout() -> Vec<(u8, u8)> {
    vec![
        (0, 0), (1, 0), (2, 0), (3, 0), (4, 0),
        (0, 2), (1, 2), (2, 2), (3, 2),
        (0, 4), (1, 4), (2, 4),
        (0, 6), (1, 6),
        (3, 6), (4, 6),
        (0, 8),
        (2, 8),
    ]
}

fn join(registry: &mut Registry, game: &str, player: &str, seed: u8) -> Reply {
    let claim = JoinClaim {
        game_id: name(game),
        fleet_id: name(player),
        commitment: digest(seed),
        cells: layout(),
    };
    handle_join(registry, Attested::Verified(claim))
}

fn fire(registry: &mut Registry, game: &str, actor: &str, next: u8, target: &str, pos: u8) -> Reply {
    let claim = FireClaim {
        game_id: name(game),
        fleet_id: name(actor),
        commitment: digest(next),
        target: name(target),
        pos,
    };
    handle_fire(registry, Attested::Verified(claim))
}

fn report(
    registry: &mut Registry,
    game: &str,
    reporter: &str,
    prior: u8,
    next: u8,
    pos: u8,
    outcome: Outcome,
) -> Reply {
    let claim = ReportClaim {
        game_id: name(game),
        fleet_id: name(reporter),
        prior: digest(prior),
        next: digest(next),
        pos,
        outcome,
    };
    handle_report(registry, Attested::Verified(claim))
}

fn wave(registry: &mut Registry, game: &str, actor: &str) -> Reply {
    let claim = WaveClaim { game_id: name(game), fleet_id: name(actor), commitment: digest(0) };
    handle_wave(registry, Attested::Verified(claim))
}

fn win(registry: &mut Registry, game: &str, claimant: &str) -> Reply {
    let claim = WinClaim { game_id: name(game), fleet_id: name(claimant), commitment: digest(0) };
    handle_win(registry, Attested::Verified(claim))
}

/// A game of A (commitment 1) and B (commitment 2), A active.
fn two_players() -> Registry {
    let mut registry = Registry::new();
    assert_eq!(join(&mut registry, "G", "A", 1).error, None);
    assert_eq!(join(&mut registry, "G", "B", 2).error, None);
    registry
}

fn session<'a>(registry: &'a Registry, game: &str) -> &'a Session {
    registry.get(&name(game)).unwrap()
}

fn hits(registry: &Registry, game: &str, player: &str) -> u32 {
    session(registry, game).player(&name(player)).unwrap().hit_count()
}

fn commitment(registry: &Registry, game: &str, player: &str) -> [u8; 32] {
    session(registry, game).player(&name(player)).unwrap().commitment().bytes
}

/// Everything observable of a registry, for comparing before and after.
fn snapshot(registry: &Registry) -> Vec<(String, Vec<String>, Option<(u8, String)>, Vec<(String, [u8; 32], u32, Vec<Shot>)>)> {
    let mut all = Vec::new();
    for i in 0..registry.session_count() {
        let s = registry.session_at(i);
        let mut players = Vec::new();
        for j in 0..s.player_count() {
            let p = s.player_at(j);
            players.push((p.id().clone(), p.commitment().bytes, p.hit_count(), p.shots()));
        }
        all.push((s.id().clone(), s.turn_queue(), s.pending_shot(), players));
    }
    all
}

/// A sinks the whole fleet of B; B waves in between. Ends with A active.
fn sink_b(registry: &mut Registry) {
    for (x, y) in layout() {
        let pos = y * 10 + x;
        assert_eq!(fire(registry, "G", "A", 1, "B", pos).error, None);
        assert_eq!(report(registry, "G", "B", 2, 2, pos, Outcome::Hit).error, None);
        assert_eq!(wave(registry, "G", "B").error, None);
    }
}

#[test]
fn new_registry_is_empty() {
    let registry = Registry::new();
    assert_eq!(registry.session_count(), 0);
    assert!(registry.get(&name("G")).is_none());
    assert!(registry.get_board(&name("G"), &name("A")).is_none());
}

#[test]
fn new_session_has_nobody() {
    let s = Session::new(name("G"));
    assert_eq!(s.id(), "G");
    assert_eq!(s.player_count(), 0);
    assert_eq!(s.active_player(), None);
    assert_eq!(s.pending_shot(), None);
    assert!(s.turn_queue().is_empty());
}

#[test]
fn newcomer_starts_with_an_empty_grid() {
    let registry = two_players();
    let board = registry.get_board(&name("G"), &name("B")).unwrap();
    assert_eq!(board.len(), 100);
    assert!(board.iter().all(|s| *s == Shot::Untried));
    assert_eq!(hits(&registry, "G", "B"), 0);
    assert_eq!(commitment(&registry, "G", "B"), [2u8; 32]);
}

#[test]
fn session_join_tells_newcomers_from_repeats() {
    let mut s = Session::new(name("G"));
    assert_eq!(s.join(name("A"), digest(1), &layout()), Ok(Joined::New));
    assert_eq!(s.join(name("A"), digest(1), &layout()), Ok(Joined::Again));
    assert_eq!(s.join(name("A"), digest(9), &layout()), Err(GameError::DuplicatePlayer));
    assert_eq!(s.player_count(), 1);
    assert_eq!(s.turn_queue(), vec![name("A")]);
}

#[test]
fn repeated_join_with_the_same_commitment_changes_nothing() {
    let mut registry = two_players();
    let before = snapshot(&registry);
    let reply = join(&mut registry, "G", "A", 1);
    assert_eq!(reply.error, None);
    assert_eq!(reply.text, "OK");
    assert_eq!(reply.events, vec![name("[Game G] Player A already in game")]);
    assert_eq!(snapshot(&registry), before);
}

#[test]
fn repeated_join_does_not_look_at_the_fleet() {
    let mut registry = two_players();
    let claim = JoinClaim {
        game_id: name("G"),
        fleet_id: name("A"),
        commitment: digest(1),
        cells: vec![(0, 0)],
    };
    assert_eq!(handle_join(&mut registry, Attested::Verified(claim)).error, None);
}

#[test]
fn join_under_a_taken_identifier_is_rejected() {
    let mut registry = two_players();
    let before = snapshot(&registry);
    let reply = join(&mut registry, "G", "A", 7);
    assert_eq!(reply.error, Some(GameError::DuplicatePlayer));
    assert_eq!(reply.text, "Player ID is already taken");
    assert_eq!(snapshot(&registry), before);
}

#[test]
fn join_with_an_illegal_fleet_is_rejected_and_opens_no_game() {
    let mut registry = Registry::new();
    let claim = JoinClaim {
        game_id: name("G"),
        fleet_id: name("A"),
        commitment: digest(1),
        cells: vec![(0, 0), (1, 0)],
    };
    let reply = handle_join(&mut registry, Attested::Verified(claim));
    assert_eq!(reply.error, Some(GameError::InvalidFleetLayout(FleetError::WrongComposition)));
    assert_eq!(registry.session_count(), 0);
    assert!(registry.get(&name("G")).is_none());
}

#[test]
fn join_with_a_cell_off_the_board_names_the_cell() {
    let mut registry = two_players();
    let mut cells = layout();
    cells[0] = (3, 11);
    let claim =
        JoinClaim { game_id: name("G"), fleet_id: name("C"), commitment: digest(3), cells };
    let reply = handle_join(&mut registry, Attested::Verified(claim));
    assert_eq!(
        reply.error,
        Some(GameError::InvalidFleetLayout(FleetError::OutOfBounds { x: 3, y: 11 }))
    );
    assert_eq!(reply.text, "Fleet error: Ship off the board: (3,11)");
    assert_eq!(session(&registry, "G").player_count(), 2);
}

#[test]
fn same_player_may_join_two_games() {
    let mut registry = two_players();
    assert_eq!(join(&mut registry, "H", "A", 5).error, None);
    assert_eq!(registry.session_count(), 2);
    assert_eq!(session(&registry, "H").turn_queue(), vec![name("A")]);
    assert_eq!(session(&registry, "G").turn_queue(), vec![name("A"), name("B")]);
}

#[test]
fn join_while_a_shot_is_pending_keeps_shot_and_turn() {
    let mut registry = two_players();
    assert_eq!(fire(&mut registry, "G", "A", 1, "B", 5).error, None);
    assert_eq!(join(&mut registry, "G", "C", 3).error, None);
    let s = session(&registry, "G");
    assert_eq!(s.pending_shot(), Some((5, name("B"))));
    assert_eq!(s.active_player(), Some(name("A")));
    assert_eq!(s.turn_queue(), vec![name("A"), name("B"), name("C")]);
}

#[test]
fn fire_in_an_unknown_game_is_rejected() {
    let mut registry = two_players();
    let reply = fire(&mut registry, "nowhere", "A", 1, "B", 5);
    assert_eq!(reply.error, Some(GameError::GameNotFound));
    assert_eq!(reply.text, "Game nowhere not found");
}

#[test]
fn fire_by_a_stranger_is_rejected() {
    let mut registry = two_players();
    let before = snapshot(&registry);
    assert_eq!(fire(&mut registry, "G", "Z", 1, "B", 5).error, Some(GameError::PlayerNotFound));
    assert_eq!(snapshot(&registry), before);
}

#[test]
fn fire_at_a_stranger_is_rejected() {
    let mut registry = two_players();
    let before = snapshot(&registry);
    assert_eq!(fire(&mut registry, "G", "A", 1, "Z", 5).error, Some(GameError::PlayerNotFound));
    assert_eq!(snapshot(&registry), before);
}

#[test]
fn fire_out_of_turn_is_rejected() {
    let mut registry = two_players();
    let before = snapshot(&registry);
    let reply = fire(&mut registry, "G", "B", 2, "A", 5);
    assert_eq!(reply.error, Some(GameError::NotYourTurn));
    assert_eq!(reply.text, "Not your turn");
    assert_eq!(snapshot(&registry), before);
}

#[test]
fn fire_off_the_board_is_rejected() {
    let mut registry = two_players();
    let before = snapshot(&registry);
    assert_eq!(fire(&mut registry, "G", "A", 1, "B", 100).error, Some(GameError::DecodeFailure));
    assert_eq!(fire(&mut registry, "G", "A", 1, "B", 255).error, Some(GameError::DecodeFailure));
    assert_eq!(snapshot(&registry), before);
    assert_eq!(fire(&mut registry, "G", "A", 1, "B", 99).error, None);
}

#[test]
fn fire_binds_the_actor_to_the_next_commitment() {
    let mut registry = two_players();
    assert_eq!(fire(&mut registry, "G", "A", 11, "B", 5).error, None);
    assert_eq!(commitment(&registry, "G", "A"), [11u8; 32]);
    assert_eq!(commitment(&registry, "G", "B"), [2u8; 32]);
    assert_eq!(session(&registry, "G").turn_queue(), vec![name("A"), name("B")]);
}

#[test]
fn fire_while_a_shot_is_pending_is_rejected_for_everybody() {
    let mut registry = two_players();
    assert_eq!(fire(&mut registry, "G", "A", 1, "B", 5).error, None);
    let before = snapshot(&registry);
    for (actor, target, pos) in [("A", "B", 6u8), ("B", "A", 6), ("Z", "B", 6), ("A", "Z", 99)] {
        assert_eq!(
            fire(&mut registry, "G", actor, 1, target, pos).error,
            Some(GameError::PendingReportExists)
        );
    }
    assert_eq!(snapshot(&registry), before);
}

#[test]
fn position_off_the_board_is_unreadable_whatever_the_game() {
    let mut registry = two_players();
    assert_eq!(fire(&mut registry, "nowhere", "A", 1, "B", 100).error, Some(GameError::DecodeFailure));
    assert_eq!(fire(&mut registry, "G", "A", 1, "B", 5).error, None);
    let before = snapshot(&registry);
    let reply = fire(&mut registry, "G", "A", 1, "B", 200);
    assert_eq!(reply.error, Some(GameError::DecodeFailure));
    assert_eq!(reply.text, "Failed to decode journal");
    assert_eq!(reply.events, vec![name("Rejected fire: Failed to decode journal")]);
    let reply = report(&mut registry, "G", "B", 2, 2, 105, Outcome::Hit);
    assert_eq!(reply.error, Some(GameError::DecodeFailure));
    assert_eq!(reply.events, vec![name("Rejected report: Failed to decode journal")]);
    assert_eq!(snapshot(&registry), before);
}

#[test]
fn session_puts_the_pending_shot_before_everything_else() {
    let mut s = Session::new(name("G"));
    assert_eq!(s.join(name("A"), digest(1), &layout()), Ok(Joined::New));
    assert_eq!(s.join(name("B"), digest(2), &layout()), Ok(Joined::New));
    assert_eq!(s.fire(&name("A"), digest(1), &name("B"), 200), Err(GameError::DecodeFailure));
    assert_eq!(s.fire(&name("A"), digest(1), &name("B"), 5), Ok(()));
    assert_eq!(s.fire(&name("A"), digest(1), &name("B"), 200), Err(GameError::PendingReportExists));
    assert_eq!(s.fire(&name("Z"), digest(1), &name("Z"), 0), Err(GameError::PendingReportExists));
    assert_eq!(
        s.report(&name("B"), digest(2), digest(2), 200, Outcome::Hit),
        Err(GameError::ReportMismatch)
    );
    assert_eq!(s.check_win(&name("A")), Err(GameError::WinConditionUnmet));
    assert_eq!(s.wave(&name("A")), Err(GameError::PendingReportExists));
    assert_eq!(s.report(&name("B"), digest(2), digest(3), 5, Outcome::Miss), Ok(()));
    assert_eq!(s.wave(&name("B")), Ok(()));
    assert!(s.is_active(&name("A")));
    assert_eq!(s.find_player(&name("B")), Some(1));
    assert_eq!(s.find_player(&name("Z")), None);
}

#[test]
fn fire_at_a_sunk_fleet_is_rejected() {
    let mut registry = two_players();
    sink_b(&mut registry);
    assert_eq!(hits(&registry, "G", "B"), 18);
    let before = snapshot(&registry);
    let reply = fire(&mut registry, "G", "A", 1, "B", 99);
    assert_eq!(reply.error, Some(GameError::TargetAlreadyEliminated));
    assert_eq!(snapshot(&registry), before);
}

#[test]
fn player_may_fire_at_itself() {
    let mut registry = two_players();
    assert_eq!(fire(&mut registry, "G", "A", 1, "A", 0).error, None);
    assert_eq!(report(&mut registry, "G", "A", 1, 1, 0, Outcome::Hit).error, None);
    assert_eq!(hits(&registry, "G", "A"), 1);
    assert_eq!(session(&registry, "G").active_player(), Some(name("B")));
}

#[test]
fn report_without_a_pending_shot_is_a_mismatch() {
    let mut registry = two_players();
    let before = snapshot(&registry);
    let reply = report(&mut registry, "G", "B", 2, 2, 5, Outcome::Hit);
    assert_eq!(reply.error, Some(GameError::ReportMismatch));
    assert_eq!(snapshot(&registry), before);
}

#[test]
fn report_on_another_cell_is_a_mismatch() {
    let mut registry = two_players();
    fire(&mut registry, "G", "A", 1, "B", 5);
    let before = snapshot(&registry);
    let reply = report(&mut registry, "G", "B", 2, 22, 6, Outcome::Hit);
    assert_eq!(reply.error, Some(GameError::ReportMismatch));
    assert_eq!(reply.text, "Report does not match the pending shot");
    assert_eq!(
        reply.events,
        vec![name("[Game G] Rejected report by player B: Report does not match the pending shot")]
    );
    assert_eq!(snapshot(&registry), before);
}

#[test]
fn report_by_another_player_is_a_mismatch() {
    let mut registry = two_players();
    fire(&mut registry, "G", "A", 1, "B", 5);
    let before = snapshot(&registry);
    assert_eq!(
        report(&mut registry, "G", "A", 1, 1, 5, Outcome::Miss).error,
        Some(GameError::ReportMismatch)
    );
    assert_eq!(
        report(&mut registry, "G", "Z", 1, 1, 5, Outcome::Miss).error,
        Some(GameError::ReportMismatch)
    );
    assert_eq!(snapshot(&registry), before);
}

#[test]
fn report_in_an_unknown_game_is_rejected() {
    let mut registry = two_players();
    assert_eq!(
        report(&mut registry, "H", "B", 2, 2, 5, Outcome::Miss).error,
        Some(GameError::GameNotFound)
    );
}

#[test]
fn report_from_a_stale_commitment_is_rejected() {
    let mut registry = two_players();
    fire(&mut registry, "G", "A", 1, "B", 5);
    let before = snapshot(&registry);
    let reply = report(&mut registry, "G", "B", 3, 4, 5, Outcome::Hit);
    assert_eq!(reply.error, Some(GameError::CommitmentMismatch));
    assert_eq!(reply.text, "Commitment mismatch");
    assert_eq!(snapshot(&registry), before);
    // the pending shot can still be answered
    assert_eq!(report(&mut registry, "G", "B", 2, 4, 5, Outcome::Hit).error, None);
}

#[test]
fn hit_report_marks_the_cell_and_counts() {
    let mut registry = two_players();
    fire(&mut registry, "G", "A", 1, "B", 42);
    assert_eq!(report(&mut registry, "G", "B", 2, 20, 42, Outcome::Hit).error, None);
    let board = registry.get_board(&name("G"), &name("B")).unwrap();
    assert_eq!(board[42], Shot::Hit);
    assert_eq!(board.iter().filter(|s| **s != Shot::Untried).count(), 1);
    assert_eq!(hits(&registry, "G", "B"), 1);
    assert_eq!(hits(&registry, "G", "A"), 0);
    assert_eq!(commitment(&registry, "G", "B"), [20u8; 32]);
    assert_eq!(session(&registry, "G").pending_shot(), None);
}

#[test]
fn miss_report_marks_the_cell_and_does_not_count() {
    let mut registry = two_players();
    fire(&mut registry, "G", "A", 1, "B", 99);
    assert_eq!(report(&mut registry, "G", "B", 2, 21, 99, Outcome::Miss).error, None);
    let board = registry.get_board(&name("G"), &name("B")).unwrap();
    assert_eq!(board[99], Shot::Miss);
    assert_eq!(hits(&registry, "G", "B"), 0);
    assert_eq!(commitment(&registry, "G", "B"), [21u8; 32]);
}

#[test]
fn second_hit_on_a_cell_is_rejected() {
    let mut registry = two_players();
    fire(&mut registry, "G", "A", 1, "B", 7);
    report(&mut registry, "G", "B", 2, 2, 7, Outcome::Hit);
    wave(&mut registry, "G", "B");
    assert_eq!(fire(&mut registry, "G", "A", 1, "B", 7).error, None);
    let before = snapshot(&registry);
    let reply = report(&mut registry, "G", "B", 2, 2, 7, Outcome::Hit);
    assert_eq!(reply.error, Some(GameError::AlreadyHit));
    assert_eq!(reply.text, "Shot already hit");
    assert_eq!(snapshot(&registry), before);
    assert_eq!(hits(&registry, "G", "B"), 1);
}

#[test]
fn miss_on_a_hit_cell_does_not_take_the_hit_back() {
    let mut registry = two_players();
    fire(&mut registry, "G", "A", 1, "B", 7);
    report(&mut registry, "G", "B", 2, 2, 7, Outcome::Hit);
    wave(&mut registry, "G", "B");
    fire(&mut registry, "G", "A", 1, "B", 7);
    assert_eq!(report(&mut registry, "G", "B", 2, 3, 7, Outcome::Miss).error, None);
    let board = registry.get_board(&name("G"), &name("B")).unwrap();
    assert_eq!(board[7], Shot::Hit);
    assert_eq!(hits(&registry, "G", "B"), 1);
    assert_eq!(session(&registry, "G").pending_shot(), None);
    assert_eq!(session(&registry, "G").active_player(), Some(name("B")));
}

#[test]
fn hit_on_a_missed_cell_counts() {
    let mut registry = two_players();
    fire(&mut registry, "G", "A", 1, "B", 7);
    report(&mut registry, "G", "B", 2, 2, 7, Outcome::Miss);
    wave(&mut registry, "G", "B");
    fire(&mut registry, "G", "A", 1, "B", 7);
    assert_eq!(report(&mut registry, "G", "B", 2, 2, 7, Outcome::Hit).error, None);
    assert_eq!(registry.get_board(&name("G"), &name("B")).unwrap()[7], Shot::Hit);
    assert_eq!(hits(&registry, "G", "B"), 1);
}

#[test]
fn report_moves_the_shooter_to_the_back_of_three() {
    let mut registry = two_players();
    join(&mut registry, "G", "C", 3);
    fire(&mut registry, "G", "A", 1, "C", 0);
    assert_eq!(report(&mut registry, "G", "C", 3, 3, 0, Outcome::Miss).error, None);
    let s = session(&registry, "G");
    assert_eq!(s.turn_queue(), vec![name("B"), name("C"), name("A")]);
    assert_eq!(s.active_player(), Some(name("B")));
}

#[test]
fn wave_passes_the_turn() {
    let mut registry = two_players();
    join(&mut registry, "G", "C", 3);
    let reply = wave(&mut registry, "G", "A");
    assert_eq!(reply.error, None);
    assert_eq!(reply.text, "OK");
    assert_eq!(reply.events, vec![name("[Game G] Player A waved the turn. Next player: B")]);
    assert_eq!(session(&registry, "G").turn_queue(), vec![name("B"), name("C"), name("A")]);
    assert_eq!(wave(&mut registry, "G", "B").error, None);
    assert_eq!(wave(&mut registry, "G", "C").error, None);
    assert_eq!(session(&registry, "G").turn_queue(), vec![name("A"), name("B"), name("C")]);
}

#[test]
fn wave_of_a_lone_player_keeps_the_turn() {
    let mut registry = Registry::new();
    join(&mut registry, "G", "A", 1);
    assert_eq!(wave(&mut registry, "G", "A").error, None);
    assert_eq!(session(&registry, "G").active_player(), Some(name("A")));
}

#[test]
fn wave_out_of_turn_is_rejected() {
    let mut registry = two_players();
    let before = snapshot(&registry);
    assert_eq!(wave(&mut registry, "G", "B").error, Some(GameError::NotYourTurn));
    assert_eq!(wave(&mut registry, "G", "Z").error, Some(GameError::NotYourTurn));
    assert_eq!(snapshot(&registry), before);
}

#[test]
fn wave_while_a_shot_is_pending_is_rejected() {
    let mut registry = two_players();
    fire(&mut registry, "G", "A", 1, "B", 5);
    let before = snapshot(&registry);
    assert_eq!(wave(&mut registry, "G", "A").error, Some(GameError::PendingReportExists));
    // out of turn comes first
    assert_eq!(wave(&mut registry, "G", "B").error, Some(GameError::NotYourTurn));
    assert_eq!(snapshot(&registry), before);
}

#[test]
fn wave_in_an_unknown_game_is_rejected() {
    let mut registry = two_players();
    assert_eq!(wave(&mut registry, "H", "A").error, Some(GameError::GameNotFound));
}

#[test]
fn win_before_the_opponent_is_sunk_is_rejected() {
    let mut registry = two_players();
    let before = snapshot(&registry);
    let reply = win(&mut registry, "G", "A");
    assert_eq!(reply.error, Some(GameError::WinConditionUnmet));
    assert_eq!(reply.text, "Win condition not met");
    assert_eq!(snapshot(&registry), before);
}

#[test]
fn win_with_seventeen_hits_on_the_opponent_is_rejected() {
    let mut registry = two_players();
    let cells = layout();
    for &(x, y) in cells.iter().take(17) {
        let pos = y * 10 + x;
        fire(&mut registry, "G", "A", 1, "B", pos);
        report(&mut registry, "G", "B", 2, 2, pos, Outcome::Hit);
        wave(&mut registry, "G", "B");
    }
    assert_eq!(hits(&registry, "G", "B"), 17);
    assert_eq!(win(&mut registry, "G", "A").error, Some(GameError::WinConditionUnmet));
    assert!(registry.get(&name("G")).is_some());
}

#[test]
fn win_of_a_sunk_claimant_is_rejected() {
    let mut registry = two_players();
    sink_b(&mut registry);
    assert_eq!(win(&mut registry, "G", "B").error, Some(GameError::WinConditionUnmet));
    assert!(registry.get(&name("G")).is_some());
}

#[test]
fn win_of_a_stranger_is_rejected() {
    let mut registry = two_players();
    sink_b(&mut registry);
    assert_eq!(win(&mut registry, "G", "Z").error, Some(GameError::PlayerNotFound));
    assert_eq!(win(&mut registry, "H", "A").error, Some(GameError::GameNotFound));
}

#[test]
fn win_needs_every_opponent_sunk() {
    let mut registry = two_players();
    join(&mut registry, "G", "C", 3);
    for (x, y) in layout() {
        let pos = y * 10 + x;
        assert_eq!(fire(&mut registry, "G", "A", 1, "B", pos).error, None);
        assert_eq!(report(&mut registry, "G", "B", 2, 2, pos, Outcome::Hit).error, None);
        assert_eq!(wave(&mut registry, "G", "B").error, None);
        assert_eq!(wave(&mut registry, "G", "C").error, None);
    }
    assert_eq!(hits(&registry, "G", "B"), 18);
    assert_eq!(win(&mut registry, "G", "A").error, Some(GameError::WinConditionUnmet));
    assert_eq!(win(&mut registry, "G", "C").error, Some(GameError::WinConditionUnmet));
}

#[test]
fn win_closes_only_the_game_won() {
    let mut registry = two_players();
    join(&mut registry, "H", "A", 1);
    sink_b(&mut registry);
    let reply = win(&mut registry, "G", "A");
    assert_eq!(reply.error, None);
    assert_eq!(reply.events, vec![name("Player A won the game G! Game over.")]);
    assert_eq!(registry.session_count(), 1);
    assert!(registry.get(&name("G")).is_none());
    assert!(registry.get(&name("H")).is_some());
    assert!(registry.get_board(&name("G"), &name("A")).is_none());
    for reply in [
        fire(&mut registry, "G", "A", 1, "B", 5),
        report(&mut registry, "G", "B", 2, 2, 5, Outcome::Miss),
        wave(&mut registry, "G", "A"),
        win(&mut registry, "G", "A"),
    ] {
        assert_eq!(reply.error, Some(GameError::GameNotFound));
    }
}

#[test]
fn join_after_a_win_opens_a_new_game() {
    let mut registry = two_players();
    sink_b(&mut registry);
    assert_eq!(win(&mut registry, "G", "A").error, None);
    assert_eq!(join(&mut registry, "G", "B", 9).error, None);
    let s = session(&registry, "G");
    assert_eq!(s.turn_queue(), vec![name("B")]);
    assert_eq!(s.player(&name("B")).unwrap().hit_count(), 0);
    assert!(s.player(&name("A")).is_none());
}

#[test]
fn lone_player_wins_at_once() {
    let mut registry = Registry::new();
    join(&mut registry, "G", "A", 1);
    assert_eq!(win(&mut registry, "G", "A").error, None);
    assert_eq!(registry.session_count(), 0);
}

#[test]
fn hit_counts_never_go_down_and_stay_within_the_fleet() {
    let mut registry = two_players();
    let mut last = 0;
    for (n, (x, y)) in layout().into_iter().enumerate() {
        let pos = y * 10 + x;
        fire(&mut registry, "G", "A", 1, "B", pos);
        let outcome = if n % 3 == 0 { Outcome::Miss } else { Outcome::Hit };
        report(&mut registry, "G", "B", 2, 2, pos, outcome);
        wave(&mut registry, "G", "B");
        let now = hits(&registry, "G", "B");
        assert!(now >= last && now <= 18);
        last = now;
        let board = registry.get_board(&name("G"), &name("B")).unwrap();
        assert_eq!(board.iter().filter(|s| **s == Shot::Hit).count() as u32, now);
    }
    assert_eq!(last, 12);
}

#[test]
fn unverified_claims_touch_nothing() {
    let mut registry = two_players();
    let before = snapshot(&registry);
    let replies = vec![
        handle_join(&mut registry, Attested::Invalid),
        handle_fire(&mut registry, Attested::Invalid),
        handle_report(&mut registry, Attested::Invalid),
        handle_wave(&mut registry, Attested::Invalid),
        handle_win(&mut registry, Attested::Invalid),
    ];
    let names = ["join", "fire", "report", "wave", "win"];
    for (reply, action) in replies.iter().zip(names) {
        assert_eq!(reply.error, Some(GameError::InvalidAttestation));
        assert_eq!(reply.text, "Could not verify receipt");
        assert_eq!(reply.events, vec![format!("Rejected {}: Could not verify receipt", action)]);
        assert!(!reply.accepted());
    }
    assert_eq!(snapshot(&registry), before);
}

#[test]
fn undecodable_claims_touch_nothing() {
    let mut registry = two_players();
    let before = snapshot(&registry);
    let replies = vec![
        handle_join(&mut registry, Attested::Undecodable),
        handle_fire(&mut registry, Attested::Undecodable),
        handle_report(&mut registry, Attested::Undecodable),
        handle_wave(&mut registry, Attested::Undecodable),
        handle_win(&mut registry, Attested::Undecodable),
    ];
    for reply in replies.iter() {
        assert_eq!(reply.error, Some(GameError::DecodeFailure));
        assert_eq!(reply.text, "Failed to decode journal");
        assert_eq!(reply.events.len(), 1);
    }
    assert_eq!(snapshot(&registry), before);
}

#[test]
fn board_of_a_stranger_is_not_there() {
    let registry = two_players();
    assert!(registry.get_board(&name("G"), &name("Z")).is_none());
    assert!(registry.get_board(&name("H"), &name("A")).is_none());
}

#[test]
fn games_do_not_disturb_each_other() {
    let mut registry = two_players();
    join(&mut registry, "H", "A", 1);
    join(&mut registry, "H", "B", 2);
    assert_eq!(fire(&mut registry, "G", "A", 1, "B", 5).error, None);
    assert_eq!(fire(&mut registry, "H", "A", 1, "B", 6).error, None);
    assert_eq!(report(&mut registry, "H", "B", 2, 2, 6, Outcome::Hit).error, None);
    assert_eq!(session(&registry, "G").pending_shot(), Some((5, name("B"))));
    assert_eq!(session(&registry, "H").pending_shot(), None);
    assert_eq!(hits(&registry, "G", "B"), 0);
    assert_eq!(hits(&registry, "H", "B"), 1);
}
