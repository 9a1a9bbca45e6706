use fleet_coordinator::board::xy_pos;
use fleet_coordinator::claims::{Action, Attested, FireClaim, JoinClaim, ReportClaim};
use fleet_coordinator::coordinator::{handle_fire, handle_join, handle_report};
use fleet_coordinator::errors::GameError;
use fleet_coordinator::fleet::FleetError;
use fleet_coordinator::messages::{
    delta_event, error_message, fleet_error_message, full_state_event, join_texts, joined_event,
    rejected_event, resolved_event, shot_event, unattested_event, waved_event, won_event,
};
use fleet_coordinator::player::{Commitment, Outcome, Shot};
use fleet_coordinator::registry::Registry;
use fleet_coordinator::text::decimal_string;

fn name(s: &str) -> String {
    s.to_string()
}

fn digest(seed: u8) -> Commitment {
    Commitment { bytes: [seed; 32] }
}

fn layout() -> Vec<(u8, u8)> {
    vec![
        (0, 0), (1, 0), (2, 0), (3, 0), (4, 0),
        (0, 2), (1, 2), (2, 2), (3, 2),
        (0, 4), (1, 4), (2, 4),
        (0, 6), (1, 6),
        (3, 6), (4, 6),
        (0, 8),
        (2, 8),
    ]
}

fn join(registry: &mut Registry, game: &str, player: &str) -> Vec<String> {
    let claim = JoinClaim {
        game_id: name(game),
        fleet_id: name(player),
        commitment: digest(1),
        cells: layout(),
    };
    handle_join(registry, Attested::Verified(claim)).events
}

#[test]
fn numbers_in_decimal() {
    assert_eq!(decimal_string(0), "0");
    assert_eq!(decimal_string(7), "7");
    assert_eq!(decimal_string(10), "10");
    assert_eq!(decimal_string(18), "18");
    assert_eq!(decimal_string(99), "99");
    assert_eq!(decimal_string(100), "100");
    assert_eq!(decimal_string(1234567890), "1234567890");
    assert_eq!(decimal_string(u64::MAX), "18446744073709551615");
}

#[test]
fn coordinate_is_column_letter_and_row_number() {
    assert_eq!(xy_pos(0), "A0");
    assert_eq!(xy_pos(9), "J0");
    assert_eq!(xy_pos(10), "A1");
    assert_eq!(xy_pos(55), "F5");
    assert_eq!(xy_pos(99), "J9");
    assert_eq!(xy_pos(100), "A10");
    assert_eq!(xy_pos(255), "F25");
}

#[test]
fn every_position_has_its_own_coordinate() {
    let mut seen = Vec::new();
    for pos in 0..=255u8 {
        let at = xy_pos(pos);
        assert!(!seen.contains(&at));
        seen.push(at);
    }
}

#[test]
fn shot_marks_as_numbers() {
    assert_eq!(Shot::Untried.code(), 0);
    assert_eq!(Shot::Miss.code(), 1);
    assert_eq!(Shot::Hit.code(), 2);
}

#[test]
fn report_codes() {
    assert_eq!(Outcome::from_code(0), Some(Outcome::Hit));
    assert_eq!(Outcome::from_code(1), Some(Outcome::Miss));
    assert_eq!(Outcome::from_code(2), None);
    assert_eq!(Outcome::from_code(255), None);
}

#[test]
fn commitments_compare_by_their_bytes() {
    let mut other = [4u8; 32];
    assert!(digest(4).same(&Commitment { bytes: other }));
    other[31] = 5;
    assert!(!digest(4).same(&Commitment { bytes: other }));
    other[31] = 4;
    other[0] = 0;
    assert!(!digest(4).same(&Commitment { bytes: other }));
}

#[test]
fn texts_of_all_errors() {
    let cases = [
        (GameError::InvalidAttestation, "Could not verify receipt"),
        (GameError::DecodeFailure, "Failed to decode journal"),
        (GameError::GameNotFound, "Game G7 not found"),
        (GameError::PlayerNotFound, "Player not found"),
        (GameError::DuplicatePlayer, "Player ID is already taken"),
        (
            GameError::InvalidFleetLayout(FleetError::WrongComposition),
            "Fleet error: Ship sizes differ from 1, 1, 2, 2, 3, 4, 5",
        ),
        (
            GameError::InvalidFleetLayout(FleetError::Overlap { x: 3, y: 4 }),
            "Fleet error: Ships overlap at: (3,4)",
        ),
        (GameError::NotYourTurn, "Not your turn"),
        (GameError::PendingReportExists, "A shot is waiting for its report"),
        (GameError::TargetAlreadyEliminated, "Target already eliminated"),
        (GameError::ReportMismatch, "Report does not match the pending shot"),
        (GameError::CommitmentMismatch, "Commitment mismatch"),
        (GameError::AlreadyHit, "Shot already hit"),
        (GameError::WinConditionUnmet, "Win condition not met"),
    ];
    for (error, text) in cases {
        assert_eq!(error_message(error, "G7"), text);
    }
}

#[test]
fn texts_of_fleet_faults() {
    assert_eq!(
        fleet_error_message(FleetError::OutOfBounds { x: 10, y: 255 }),
        "Ship off the board: (10,255)"
    );
    assert_eq!(fleet_error_message(FleetError::Overlap { x: 0, y: 9 }), "Ships overlap at: (0,9)");
}

#[test]
fn event_texts() {
    let (g, a, b) = (name("G1"), name("A"), name("B"));
    assert_eq!(joined_event(&g, &a), "[Game G1] Player with fleet ID A joined");
    assert_eq!(shot_event(&g, &a, 5, &b), "[Game G1] Player A shot on position F0 of Player B");
    assert_eq!(delta_event(Outcome::Hit, &b, 5), "__HIT__|B|5");
    assert_eq!(delta_event(Outcome::Miss, &b, 99), "__MISS__|B|99");
    assert_eq!(
        resolved_event(&g, Outcome::Hit, 23, &Some(name("B"))),
        "[Game G1] Hit confirmed at D2. Next player: B"
    );
    assert_eq!(
        resolved_event(&g, Outcome::Miss, 0, &None),
        "[Game G1] Missed shot at A0. Next player: None"
    );
    assert_eq!(
        waved_event(&g, &a, &Some(name("B"))),
        "[Game G1] Player A waved the turn. Next player: B"
    );
    assert_eq!(won_event(&g, &a), "Player A won the game G1! Game over.");
    assert_eq!(
        rejected_event(Action::Fire, &g, &b, GameError::NotYourTurn),
        "[Game G1] Rejected fire by player B: Not your turn"
    );
    assert_eq!(
        rejected_event(Action::Win, &g, &b, GameError::GameNotFound),
        "[Game G1] Rejected win by player B: Game G1 not found"
    );
    assert_eq!(
        unattested_event(Action::Report, GameError::DecodeFailure),
        "Rejected report: Failed to decode journal"
    );
}

#[test]
fn joining_texts_with_a_separator() {
    assert_eq!(join_texts(&vec![], ","), "");
    assert_eq!(join_texts(&vec![name("a")], ","), "a");
    assert_eq!(join_texts(&vec![name("a"), name("b"), name("")], "||"), "a||b||");
    assert_eq!(join_texts(&vec![name(""), name("")], ";"), ";");
}

#[test]
fn snapshot_of_an_empty_registry() {
    assert_eq!(full_state_event(&Registry::new()), "__FULL_STATE__|");
}

#[test]
fn join_publishes_the_newcomer() {
    let mut registry = Registry::new();
    assert_eq!(join(&mut registry, "G1", "A"), vec![name("[Game G1] Player with fleet ID A joined")]);
}

#[test]
fn fire_publishes_the_shot() {
    let mut registry = Registry::new();
    join(&mut registry, "G1", "A");
    join(&mut registry, "G1", "B");
    let claim = FireClaim {
        game_id: name("G1"),
        fleet_id: name("A"),
        commitment: digest(1),
        target: name("B"),
        pos: 5,
    };
    let reply = handle_fire(&mut registry, Attested::Verified(claim));
    assert!(reply.accepted());
    assert_eq!(reply.text, "OK");
    assert_eq!(reply.events, vec![name("[Game G1] Player A shot on position F0 of Player B")]);
}

#[test]
fn report_publishes_mark_narration_and_snapshot() {
    let mut registry = Registry::new();
    join(&mut registry, "G1", "A");
    join(&mut registry, "G1", "B");
    join(&mut registry, "G2", "C");
    for (pos, outcome) in [(5u8, Outcome::Miss), (17, Outcome::Hit)] {
        let claim = FireClaim {
            game_id: name("G1"),
            fleet_id: name("A"),
            commitment: digest(1),
            target: name("B"),
            pos,
        };
        assert!(handle_fire(&mut registry, Attested::Verified(claim)).accepted());
        let claim = ReportClaim {
            game_id: name("G1"),
            fleet_id: name("B"),
            prior: digest(1),
            next: digest(1),
            pos,
            outcome,
        };
        let reply = handle_report(&mut registry, Attested::Verified(claim));
        assert_eq!(reply.error, None);
        assert_eq!(reply.text, "OK");
        if pos == 5 {
            assert_eq!(
                reply.events,
                vec![
                    name("__MISS__|B|5"),
                    name("[Game G1] Missed shot at F0. Next player: B"),
                    name(
                        "__FULL_STATE__|GAME:G1|PLAYER:A|HITS:0|SHOTS:||GAME:G1|PLAYER:B|HITS:0|SHOTS:5:1||GAME:G2|PLAYER:C|HITS:0|SHOTS:"
                    ),
                ]
            );
            // B passes the turn back: it fires at A, who reports a miss
            let claim = FireClaim {
                game_id: name("G1"),
                fleet_id: name("B"),
                commitment: digest(1),
                target: name("A"),
                pos: 0,
            };
            assert!(handle_fire(&mut registry, Attested::Verified(claim)).accepted());
            let claim = ReportClaim {
                game_id: name("G1"),
                fleet_id: name("A"),
                prior: digest(1),
                next: digest(1),
                pos: 0,
                outcome: Outcome::Hit,
            };
            assert!(handle_report(&mut registry, Attested::Verified(claim)).accepted());
        } else {
            assert_eq!(
                reply.events,
                vec![
                    name("__HIT__|B|17"),
                    name("[Game G1] Hit confirmed at H1. Next player: B"),
                    name(
                        "__FULL_STATE__|GAME:G1|PLAYER:A|HITS:1|SHOTS:0:2||GAME:G1|PLAYER:B|HITS:1|SHOTS:5:1,17:2||GAME:G2|PLAYER:C|HITS:0|SHOTS:"
                    ),
                ]
            );
        }
    }
    assert_eq!(
        full_state_event(&registry),
        "__FULL_STATE__|GAME:G1|PLAYER:A|HITS:1|SHOTS:0:2||GAME:G1|PLAYER:B|HITS:1|SHOTS:5:1,17:2||GAME:G2|PLAYER:C|HITS:0|SHOTS:"
    );
}
