use fleet_coordinator::board::xy_pos;
use fleet_coordinator::claims::{Attested, FireClaim, JoinClaim, ReportClaim, WinClaim};
use fleet_coordinator::coordinator::{handle_fire, handle_join, handle_report, handle_win};
use fleet_coordinator::errors::GameError;
use fleet_coordinator::fleet::{validar_frota, FleetError};
use fleet_coordinator::player::{Commitment, Outcome, Shot};
use fleet_coordinator::registry::Registry;

fn name(s: &str) -> String {
    s.to_string()
}

fn digest(seed: u8) -> Commitment {
    Commitment { bytes: [seed; 32] }
}

/// Ships of 5, 4, 3, 2, 2, 1 and 1 cells on every other row, as (x, y).
fn valid_fleet() -> Vec<(u8, u8)> {
    let mut cells = Vec::new();
    for x in 0..5u8 {
        cells.push((x, 0));
    }
    for x in 0..4u8 {
        cells.push((x, 2));
    }
    for x in 0..3u8 {
        cells.push((x, 4));
    }
    cells.push((0, 6));
    cells.push((1, 6));
    cells.push((3, 6));
    cells.push((4, 6));
    cells.push((0, 8));
    cells.push((2, 8));
    cells
}

fn join(registry: &mut Registry, game: &str, player: &str, seed: u8) -> Option<GameError> {
    let claim = JoinClaim {
        game_id: name(game),
        fleet_id: name(player),
        commitment: digest(seed),
        cells: valid_fleet(),
    };
    handle_join(registry, Attested::Verified(claim)).error
}

fn fire(registry: &mut Registry, game: &str, actor: &str, target: &str, pos: u8) -> Option<GameError> {
    let claim = FireClaim {
        game_id: name(game),
        fleet_id: name(actor),
        commitment: digest(1),
        target: name(target),
        pos,
    };
    handle_fire(registry, Attested::Verified(claim)).error
}

fn report(
    registry: &mut Registry,
    game: &str,
    reporter: &str,
    prior: u8,
    pos: u8,
    outcome: Outcome,
) -> Option<GameError> {
    let claim = ReportClaim {
        game_id: name(game),
        fleet_id: name(reporter),
        prior: digest(prior),
        next: digest(prior),
        pos,
        outcome,
    };
    handle_report(registry, Attested::Verified(claim)).error
}

fn queue(registry: &Registry, game: &str) -> Vec<String> {
    registry.get(&name(game)).unwrap().turn_queue()
}

fn active(registry: &Registry, game: &str) -> Option<String> {
    registry.get(&name(game)).unwrap().active_player()
}

#[test]
fn valid_fleet_is_accepted() {
    assert_eq!(validar_frota(&valid_fleet()), Ok(()));
}

#[test]
fn first_join_opens_the_game_and_makes_the_player_active() {
    let mut registry = Registry::new();
    assert_eq!(join(&mut registry, "G1", "A", 1), None);
    assert_eq!(queue(&registry, "G1"), vec![name("A")]);
    assert_eq!(active(&registry, "G1"), Some(name("A")));
}

#[test]
fn second_join_takes_the_last_place() {
    let mut registry = Registry::new();
    assert_eq!(join(&mut registry, "G1", "A", 1), None);
    assert_eq!(join(&mut registry, "G1", "B", 2), None);
    assert_eq!(queue(&registry, "G1"), vec![name("A"), name("B")]);
    assert_eq!(active(&registry, "G1"), Some(name("A")));
}

#[test]
fn fire_sets_the_pending_shot_and_keeps_the_turn() {
    let mut registry = Registry::new();
    join(&mut registry, "G1", "A", 1);
    join(&mut registry, "G1", "B", 2);
    assert_eq!(fire(&mut registry, "G1", "A", "B", 5), None);
    let session = registry.get(&name("G1")).unwrap();
    assert_eq!(session.pending_shot(), Some((5, name("B"))));
    assert_eq!(session.active_player(), Some(name("A")));
}

#[test]
fn second_fire_before_the_report_is_rejected() {
    let mut registry = Registry::new();
    join(&mut registry, "G1", "A", 1);
    join(&mut registry, "G1", "B", 2);
    assert_eq!(fire(&mut registry, "G1", "A", "B", 5), None);
    assert_eq!(fire(&mut registry, "G1", "A", "B", 6), Some(GameError::PendingReportExists));
    let session = registry.get(&name("G1")).unwrap();
    assert_eq!(session.pending_shot(), Some((5, name("B"))));
}

#[test]
fn matching_miss_report_marks_the_cell_and_passes_the_turn() {
    let mut registry = Registry::new();
    join(&mut registry, "G1", "A", 1);
    join(&mut registry, "G1", "B", 2);
    fire(&mut registry, "G1", "A", "B", 5);
    assert_eq!(report(&mut registry, "G1", "B", 2, 5, Outcome::Miss), None);
    let board = registry.get_board(&name("G1"), &name("B")).unwrap();
    assert_eq!(board[5], Shot::Miss);
    let session = registry.get(&name("G1")).unwrap();
    assert_eq!(session.pending_shot(), None);
    assert_eq!(session.turn_queue(), vec![name("B"), name("A")]);
    assert_eq!(session.active_player(), Some(name("B")));
}

#[test]
fn win_closes_the_game() {
    let mut registry = Registry::new();
    join(&mut registry, "G1", "A", 1);
    join(&mut registry, "G1", "B", 2);
    // A sinks all 18 cells of B; B hits A three times in between.
    let fleet = valid_fleet();
    for (n, &(x, y)) in fleet.iter().enumerate() {
        let pos = y * 10 + x;
        assert_eq!(fire(&mut registry, "G1", "A", "B", pos), None);
        assert_eq!(report(&mut registry, "G1", "B", if n == 0 { 2 } else { 1 }, pos, Outcome::Hit), None);
        // now B is active
        if n < 3 {
            assert_eq!(fire(&mut registry, "G1", "B", "A", pos), None);
            assert_eq!(report(&mut registry, "G1", "A", 1, pos, Outcome::Hit), None);
        } else {
            let claim = fleet_coordinator::claims::WaveClaim {
                game_id: name("G1"),
                fleet_id: name("B"),
                commitment: digest(2),
            };
            let reply = fleet_coordinator::coordinator::handle_wave(&mut registry, Attested::Verified(claim));
            assert_eq!(reply.error, None);
        }
    }
    {
        let session = registry.get(&name("G1")).unwrap();
        assert_eq!(session.player(&name("B")).unwrap().hit_count(), 18);
        assert_eq!(session.player(&name("A")).unwrap().hit_count(), 3);
    }
    let claim = WinClaim { game_id: name("G1"), fleet_id: name("A"), commitment: digest(1) };
    let reply = handle_win(&mut registry, Attested::Verified(claim));
    assert_eq!(reply.error, None);
    assert_eq!(reply.text, "BIG WIN!");
    assert!(registry.get(&name("G1")).is_none());
    assert_eq!(fire(&mut registry, "G1", "A", "B", 7), Some(GameError::GameNotFound));
}

#[test]
fn grid_coordinates() {
    assert_eq!(xy_pos(5), "F0");
    assert_eq!(xy_pos(23), "D2");
    assert_eq!(xy_pos(99), "J9");
    assert_eq!(xy_pos(0), "A0");
}

#[test]
fn touching_ships_are_one_ship() {
    let mut cells = valid_fleet();
    // move the ship of four cells next to the ship of five
    for c in cells.iter_mut() {
        if c.1 == 2 {
            c.1 = 1;
        }
    }
    assert_eq!(validar_frota(&cells), Err(FleetError::WrongComposition));
}
