use fleet_coordinator::actions::{fire, fleet_of, join_game, report, wave, win};
use fleet_coordinator::attested::{
    board_after_shot, commit, fire_record, join_record, positions_of, report_record, shot_hits,
    sorted_bytes, wave_record, win_record,
};
use fleet_coordinator::actions::{BaseInputs, FireInputs};
use fleet_coordinator::claims::Attested;
use fleet_coordinator::coordinator::handle_join;
use fleet_coordinator::decode::{fire_claim, join_claim, report_claim, wave_claim, win_claim};
use fleet_coordinator::fleet::FleetError;
use fleet_coordinator::notation::{fleet_string, parse_fleet};
use fleet_coordinator::player::Outcome;
use fleet_coordinator::registry::Registry;
use sha2::{Digest, Sha256};

fn name(s: &str) -> String {
    s.to_string()
}

/// Linear positions of ships of 5, 4, 3, 2, 2, 1 and 1 cells.
fn board() -> Vec<u8> {
    vec![0, 1, 2, 3, 4, 20, 21, 22, 23, 40, 41, 42, 60, 61, 63, 64, 80, 82]
}

fn hex(bytes: &[u8]) -> String {
    let mut s = String::new();
    for b in bytes {
        s.push_str(&format!("{:02x}", b));
    }
    s
}

const SHA256_ABC: &str = "ba7816bf8f01cfea414140de5dae2223b00361a396177a9cb410ff61f20015ad";
const SHA256_EMPTY: &str = "e3b0c44298fc1c149afbf4c8996fb92427ae41e4649b934ca495991b7852b855";

#[test]
fn positions_become_cells() {
    assert_eq!(fleet_of(&vec![0, 9, 10, 57, 99]), vec![(0, 0), (9, 0), (0, 1), (7, 5), (9, 9)]);
    assert_eq!(fleet_of(&vec![100, 255]), vec![(0, 10), (5, 25)]);
    assert!(fleet_of(&vec![]).is_empty());
}

#[test]
fn cells_as_text() {
    assert_eq!(fleet_string(&vec![]), "");
    assert_eq!(fleet_string(&vec![(3, 4)]), "3,4");
    assert_eq!(fleet_string(&vec![(0, 0), (9, 0), (0, 10), (255, 7)]), "0,0;9,0;0,10;255,7");
}

#[test]
fn text_as_cells() {
    assert_eq!(parse_fleet("0,0;9,0;0,10;255,7"), vec![(0, 0), (9, 0), (0, 10), (255, 7)]);
    assert_eq!(parse_fleet("3,4"), vec![(3, 4)]);
    assert!(parse_fleet("").is_empty());
}

#[test]
fn segments_that_denote_no_cell_are_skipped() {
    assert_eq!(parse_fleet("1,2;;3,4;"), vec![(1, 2), (3, 4)]);
    assert_eq!(parse_fleet(";1,2"), vec![(1, 2)]);
    assert_eq!(parse_fleet("1;2,3"), vec![(2, 3)]);
    assert_eq!(parse_fleet("a,1;2,b;5,6"), vec![(5, 6)]);
    assert_eq!(parse_fleet("1, 2;3,4"), vec![(3, 4)]);
    assert_eq!(parse_fleet(" 1,2;3,4"), vec![(3, 4)]);
    assert_eq!(parse_fleet("-1,2;3,4"), vec![(3, 4)]);
    assert_eq!(parse_fleet(",;,1;1,"), Vec::<(u8, u8)>::new());
    assert_eq!(parse_fleet("1.0,2"), Vec::<(u8, u8)>::new());
}

#[test]
fn numbers_of_the_notation() {
    assert_eq!(parse_fleet("255,0"), vec![(255, 0)]);
    assert_eq!(parse_fleet("256,0"), Vec::<(u8, u8)>::new());
    assert_eq!(parse_fleet("0,1000"), Vec::<(u8, u8)>::new());
    assert_eq!(parse_fleet("007,000"), vec![(7, 0)]);
    assert_eq!(parse_fleet("0000000000000000000000255,1"), vec![(255, 1)]);
    assert_eq!(parse_fleet("+5,+6"), vec![(5, 6)]);
    assert_eq!(parse_fleet("+,6"), Vec::<(u8, u8)>::new());
    assert_eq!(parse_fleet("++5,6"), Vec::<(u8, u8)>::new());
    assert_eq!(parse_fleet("5+,6"), Vec::<(u8, u8)>::new());
}

#[test]
fn further_pieces_of_a_segment_are_ignored() {
    assert_eq!(parse_fleet("1,2,3;4,5,x,y"), vec![(1, 2), (4, 5)]);
    assert_eq!(parse_fleet("1,2,"), vec![(1, 2)]);
}

#[test]
fn notation_agrees_with_the_standard_library() {
    for text in ["", "0,0", "1,2;3,4", "+1,02;x;9,9,9;300,1;;7,+8", "1,,2", ",1,2"] {
        let expected: Vec<(u8, u8)> = text
            .split(';')
            .filter_map(|pair| {
                let mut coords = pair.split(',');
                if let (Some(x), Some(y)) = (coords.next(), coords.next()) {
                    Some((x.parse().ok()?, y.parse().ok()?))
                } else {
                    None
                }
            })
            .collect();
        assert_eq!(parse_fleet(text), expected);
    }
}

#[test]
fn text_and_cells_round_trip() {
    let cells = fleet_of(&board());
    assert_eq!(parse_fleet(&fleet_string(&cells)), cells);
}

#[test]
fn join_is_prepared_for_a_legal_board() {
    let inputs = join_game(name("G"), name("A"), board(), name("salt")).ok().unwrap();
    assert_eq!(inputs.gameid, "G");
    assert_eq!(inputs.fleetid, "A");
    assert_eq!(inputs.board, board());
    assert_eq!(inputs.random, "salt");
    assert_eq!(
        inputs.fleet,
        "0,0;1,0;2,0;3,0;4,0;0,2;1,2;2,2;3,2;0,4;1,4;2,4;0,6;1,6;3,6;4,6;0,8;2,8"
    );
}

#[test]
fn join_is_not_prepared_for_an_illegal_board() {
    let mut cells = board();
    cells.push(99);
    assert_eq!(
        join_game(name("G"), name("A"), cells, name("")).err(),
        Some(FleetError::WrongComposition)
    );
    let mut cells = board();
    cells[0] = 100;
    assert_eq!(
        join_game(name("G"), name("A"), cells, name("")).err(),
        Some(FleetError::OutOfBounds { x: 0, y: 10 })
    );
    let mut cells = board();
    cells[5] = 4;
    assert_eq!(
        join_game(name("G"), name("A"), cells, name("")).err(),
        Some(FleetError::Overlap { x: 4, y: 0 })
    );
}

#[test]
fn shot_is_prepared_for_column_and_row() {
    let inputs = fire(name("G"), name("A"), vec![3, 4], name("r"), name("B"), 5, 2).unwrap();
    assert_eq!(inputs.pos, 25);
    assert_eq!(inputs.target, "B");
    assert_eq!(inputs.fleet, "3,0;4,0");
    assert_eq!(inputs.gameid, "G");
    assert_eq!(inputs.fleetid, "A");
    assert_eq!(inputs.board, vec![3, 4]);
    assert_eq!(inputs.random, "r");
}

#[test]
fn shot_position_must_fit_in_a_byte() {
    assert_eq!(fire(name("G"), name("A"), vec![], name(""), name("B"), 5, 25).unwrap().pos, 255);
    assert!(fire(name("G"), name("A"), vec![], name(""), name("B"), 6, 25).is_none());
    assert!(fire(name("G"), name("A"), vec![], name(""), name("B"), 0, 26).is_none());
    assert!(fire(name("G"), name("A"), vec![], name(""), name("B"), 255, 255).is_none());
    assert_eq!(fire(name("G"), name("A"), vec![], name(""), name("B"), 15, 0).unwrap().pos, 15);
}

#[test]
fn report_is_prepared_like_a_shot() {
    let inputs = report(name("G"), name("B"), vec![8], name("r"), name("hit"), 9, 9).unwrap();
    assert_eq!(inputs.pos, 99);
    assert_eq!(inputs.target, "hit");
    assert_eq!(inputs.fleet, "8,0");
    assert!(report(name("G"), name("B"), vec![8], name("r"), name("hit"), 0, 30).is_none());
}

#[test]
fn wave_and_win_are_prepared_for_any_board() {
    let inputs = wave(name("G"), name("A"), vec![11, 200], name("r"));
    assert_eq!(inputs.fleet, "1,1;0,20");
    assert_eq!(inputs.board, vec![11, 200]);
    let inputs = win(name("G"), name("A"), vec![], name("r"));
    assert_eq!(inputs.fleet, "");
    assert_eq!(inputs.gameid, "G");
    assert_eq!(inputs.fleetid, "A");
    assert_eq!(inputs.random, "r");
}

#[test]
fn commitment_is_the_sha256_digest() {
    assert_eq!(hex(&commit(&b"abc".to_vec()).bytes), SHA256_ABC);
    assert_eq!(hex(&commit(&vec![]).bytes), SHA256_EMPTY);
    let data: Vec<u8> = (0..=255u8).collect();
    assert_eq!(commit(&data).bytes.to_vec(), Sha256::digest(&data).to_vec());
}

#[test]
fn bytes_in_ascending_order() {
    assert_eq!(sorted_bytes(&vec![]), Vec::<u8>::new());
    assert_eq!(sorted_bytes(&vec![9]), vec![9]);
    assert_eq!(sorted_bytes(&vec![3, 1, 2]), vec![1, 2, 3]);
    assert_eq!(sorted_bytes(&vec![5, 5, 0, 255, 5, 0]), vec![0, 0, 5, 5, 5, 255]);
    let mut all: Vec<u8> = (0..=255u8).rev().collect();
    let sorted = sorted_bytes(&all);
    all.sort();
    assert_eq!(sorted, all);
}

#[test]
fn positions_of_cells_on_the_board() {
    assert_eq!(positions_of(&vec![(0, 0), (9, 9), (5, 2)]), Some(vec![0, 99, 25]));
    assert_eq!(positions_of(&vec![]), Some(vec![]));
    assert_eq!(positions_of(&vec![(0, 0), (10, 0)]), None);
    assert_eq!(positions_of(&vec![(0, 10)]), None);
}

#[test]
fn join_record_commits_to_the_sorted_positions() {
    // the cells at positions 99, 97 and 98; the bytes 97, 98, 99 spell "abc"
    let inputs = BaseInputs {
        fleetid: name("A"),
        fleet: name("9,9;7,9;8,9"),
        gameid: name("G"),
        board: vec![],
        random: name(""),
    };
    let claim = join_record(&inputs).unwrap();
    assert_eq!(claim.game_id, "G");
    assert_eq!(claim.fleet_id, "A");
    assert_eq!(claim.cells, vec![(9, 9), (7, 9), (8, 9)]);
    assert_eq!(hex(&claim.commitment.bytes), SHA256_ABC);
}

#[test]
fn join_record_needs_every_cell_on_the_board() {
    let inputs = BaseInputs {
        fleetid: name("A"),
        fleet: name("0,0;10,0"),
        gameid: name("G"),
        board: vec![],
        random: name(""),
    };
    assert!(join_record(&inputs).is_none());
}

#[test]
fn join_record_of_prepared_inputs_is_accepted() {
    let inputs = join_game(name("G"), name("A"), board(), name("salt")).ok().unwrap();
    let claim = join_record(&inputs).unwrap();
    let mut sorted = board();
    sorted.sort();
    assert_eq!(claim.commitment.bytes.to_vec(), Sha256::digest(&sorted).to_vec());
    let mut registry = Registry::new();
    let reply = handle_join(&mut registry, Attested::Verified(claim));
    assert_eq!(reply.error, None);
    assert_eq!(registry.get(&name("G")).unwrap().turn_queue(), vec![name("A")]);
}

#[test]
fn fire_record_commits_to_the_board() {
    let inputs = FireInputs {
        fleetid: name("A"),
        gameid: name("G"),
        fleet: name(""),
        board: b"abc".to_vec(),
        random: name("ignored"),
        target: name("B"),
        pos: 42,
    };
    let claim = fire_record(&inputs);
    assert_eq!(claim.game_id, "G");
    assert_eq!(claim.fleet_id, "A");
    assert_eq!(claim.target, "B");
    assert_eq!(claim.pos, 42);
    assert_eq!(hex(&claim.commitment.bytes), SHA256_ABC);
}

#[test]
fn shot_strikes_the_cells_of_the_fleet() {
    let cells = vec![(5, 2), (6, 2)];
    assert!(shot_hits(&cells, 25));
    assert!(shot_hits(&cells, 26));
    assert!(!shot_hits(&cells, 27));
    assert!(!shot_hits(&cells, 52));
    assert!(!shot_hits(&vec![], 0));
    assert!(shot_hits(&vec![(5, 25)], 255));
}

#[test]
fn board_changes_only_where_a_hit_meets_a_one() {
    assert_eq!(board_after_shot(&vec![1, 1, 1], 1, true), Some(vec![1, 2, 1]));
    assert_eq!(board_after_shot(&vec![1, 0, 1], 1, true), Some(vec![1, 0, 1]));
    assert_eq!(board_after_shot(&vec![1, 2, 1], 1, true), Some(vec![1, 2, 1]));
    assert_eq!(board_after_shot(&vec![1, 1, 1], 1, false), Some(vec![1, 1, 1]));
    assert_eq!(board_after_shot(&vec![1, 1, 1], 3, false), Some(vec![1, 1, 1]));
    assert_eq!(board_after_shot(&vec![1, 1, 1], 3, true), None);
    assert_eq!(board_after_shot(&vec![], 0, true), None);
}

#[test]
fn report_record_of_a_hit() {
    let mut board = vec![0u8; 100];
    board[25] = 1;
    let inputs = FireInputs {
        fleetid: name("B"),
        gameid: name("G"),
        fleet: name("5,2"),
        board: board.clone(),
        random: name(""),
        target: name(""),
        pos: 25,
    };
    let claim = report_record(&inputs).unwrap();
    assert_eq!(claim.outcome, Outcome::Hit);
    assert_eq!(claim.pos, 25);
    assert_eq!(claim.game_id, "G");
    assert_eq!(claim.fleet_id, "B");
    assert_eq!(claim.prior.bytes.to_vec(), Sha256::digest(&board).to_vec());
    board[25] = 2;
    assert_eq!(claim.next.bytes.to_vec(), Sha256::digest(&board).to_vec());
    assert!(!claim.prior.same(&claim.next));
}

#[test]
fn report_record_of_a_miss() {
    let inputs = FireInputs {
        fleetid: name("B"),
        gameid: name("G"),
        fleet: name("5,2"),
        board: b"abc".to_vec(),
        random: name(""),
        target: name(""),
        pos: 26,
    };
    let claim = report_record(&inputs).unwrap();
    assert_eq!(claim.outcome, Outcome::Miss);
    assert_eq!(hex(&claim.prior.bytes), SHA256_ABC);
    assert_eq!(hex(&claim.next.bytes), SHA256_ABC);
}

#[test]
fn report_record_needs_the_struck_index_on_the_board() {
    let inputs = FireInputs {
        fleetid: name("B"),
        gameid: name("G"),
        fleet: name("5,2"),
        board: vec![1; 25],
        random: name(""),
        target: name(""),
        pos: 25,
    };
    assert!(report_record(&inputs).is_none());
}

#[test]
fn wave_and_win_records_commit_to_board_and_random_text() {
    let inputs = BaseInputs {
        fleetid: name("A"),
        fleet: name(""),
        gameid: name("G"),
        board: b"ab".to_vec(),
        random: name("c"),
    };
    let claim = wave_record(&inputs);
    assert_eq!(claim.game_id, "G");
    assert_eq!(claim.fleet_id, "A");
    assert_eq!(hex(&claim.commitment.bytes), SHA256_ABC);
    let claim = win_record(&inputs);
    assert_eq!(claim.game_id, "G");
    assert_eq!(claim.fleet_id, "A");
    assert_eq!(hex(&claim.commitment.bytes), SHA256_ABC);
    let empty = BaseInputs {
        fleetid: name("A"),
        fleet: name(""),
        gameid: name("G"),
        board: vec![],
        random: name(""),
    };
    assert_eq!(hex(&wave_record(&empty).commitment.bytes), SHA256_EMPTY);
}

#[test]
fn random_text_enters_as_utf8() {
    let inputs = BaseInputs {
        fleetid: name("A"),
        fleet: name(""),
        gameid: name("G"),
        board: vec![1, 2],
        random: name("\u{e9}\u{4e16}"),
    };
    let mut data = vec![1u8, 2];
    data.extend_from_slice("\u{e9}\u{4e16}".as_bytes());
    assert_eq!(win_record(&inputs).commitment.bytes.to_vec(), Sha256::digest(&data).to_vec());
}

#[test]
fn join_claim_reads_the_fleet_of_the_record() {
    match join_claim(name("G"), name("A"), [7; 32], Some(name("1,2;x;3,4"))) {
        Attested::Verified(claim) => {
            assert_eq!(claim.game_id, "G");
            assert_eq!(claim.fleet_id, "A");
            assert_eq!(claim.commitment.bytes, [7; 32]);
            assert_eq!(claim.cells, vec![(1, 2), (3, 4)]);
        }
        _ => panic!("the record is readable"),
    }
    assert!(matches!(join_claim(name("G"), name("A"), [7; 32], None), Attested::Undecodable));
}

#[test]
fn fire_claim_needs_a_position_on_the_board() {
    match fire_claim(name("G"), name("A"), [7; 32], name("B"), 99) {
        Attested::Verified(claim) => {
            assert_eq!(claim.target, "B");
            assert_eq!(claim.pos, 99);
            assert_eq!(claim.commitment.bytes, [7; 32]);
        }
        _ => panic!("the record is readable"),
    }
    assert!(matches!(
        fire_claim(name("G"), name("A"), [7; 32], name("B"), 100),
        Attested::Undecodable
    ));
}

#[test]
fn report_claim_reads_the_code_of_the_outcome() {
    match report_claim(name("G"), name("B"), [1; 32], [2; 32], 5, 0) {
        Attested::Verified(claim) => {
            assert_eq!(claim.outcome, Outcome::Hit);
            assert_eq!(claim.prior.bytes, [1; 32]);
            assert_eq!(claim.next.bytes, [2; 32]);
            assert_eq!(claim.pos, 5);
        }
        _ => panic!("the record is readable"),
    }
    assert!(matches!(
        report_claim(name("G"), name("B"), [1; 32], [2; 32], 5, 1),
        Attested::Verified(claim) if claim.outcome == Outcome::Miss
    ));
    assert!(matches!(
        report_claim(name("G"), name("B"), [1; 32], [2; 32], 5, 2),
        Attested::Undecodable
    ));
    assert!(matches!(
        report_claim(name("G"), name("B"), [1; 32], [2; 32], 100, 0),
        Attested::Undecodable
    ));
}

#[test]
fn wave_and_win_claims_carry_the_record() {
    assert!(matches!(
        wave_claim(name("G"), name("A"), [3; 32]),
        Attested::Verified(claim) if claim.game_id == "G" && claim.fleet_id == "A" && claim.commitment.bytes == [3; 32]
    ));
    assert!(matches!(
        win_claim(name("G"), name("A"), [3; 32]),
        Attested::Verified(claim) if claim.game_id == "G" && claim.fleet_id == "A" && claim.commitment.bytes == [3; 32]
    ));
}
