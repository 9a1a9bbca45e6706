use fleet_coordinator::fleet::{validar_frota, FleetError};

/// Ships of 5, 4, 3, 2, 2, 1 and 1 cells on every other row, as (x, y).
fn spaced_fleet() -> Vec<(u8, u8)> {
    vec![
        (0, 0), (1, 0), (2, 0), (3, 0), (4, 0),
        (0, 2), (1, 2), (2, 2), (3, 2),
        (0, 4), (1, 4), (2, 4),
        (0, 6), (1, 6),
        (3, 6), (4, 6),
        (0, 8),
        (2, 8),
    ]
}

#[test]
fn spaced_fleet_is_legal() {
    assert_eq!(validar_frota(&spaced_fleet()), Ok(()));
}

#[test]
fn order_of_the_cells_does_not_matter() {
    let mut cells = spaced_fleet();
    cells.reverse();
    assert_eq!(validar_frota(&cells), Ok(()));
    cells.swap(0, 9);
    cells.swap(3, 17);
    assert_eq!(validar_frota(&cells), Ok(()));
}

#[test]
fn vertical_ships_are_legal() {
    let cells: Vec<(u8, u8)> = spaced_fleet().iter().map(|&(x, y)| (y, x)).collect();
    assert_eq!(validar_frota(&cells), Ok(()));
}

#[test]
fn ships_in_the_far_corner_are_legal() {
    let cells: Vec<(u8, u8)> = spaced_fleet().iter().map(|&(x, y)| (9 - x, 9 - y)).collect();
    assert_eq!(validar_frota(&cells), Ok(()));
}

#[test]
fn empty_list_has_the_wrong_composition() {
    assert_eq!(validar_frota(&[]), Err(FleetError::WrongComposition));
}

#[test]
fn column_off_the_board_is_reported() {
    let mut cells = spaced_fleet();
    cells[4] = (10, 0);
    assert_eq!(validar_frota(&cells), Err(FleetError::OutOfBounds { x: 10, y: 0 }));
}

#[test]
fn row_off_the_board_is_reported() {
    let mut cells = spaced_fleet();
    cells[17] = (2, 200);
    assert_eq!(validar_frota(&cells), Err(FleetError::OutOfBounds { x: 2, y: 200 }));
}

#[test]
fn repeated_cell_is_reported() {
    let mut cells = spaced_fleet();
    cells[17] = (0, 0);
    assert_eq!(validar_frota(&cells), Err(FleetError::Overlap { x: 0, y: 0 }));
}

#[test]
fn first_fault_in_the_list_decides() {
    let mut cells = spaced_fleet();
    cells[3] = (1, 0); // repeats an earlier cell
    cells[10] = (12, 4); // off the board, but later in the list
    assert_eq!(validar_frota(&cells), Err(FleetError::Overlap { x: 1, y: 0 }));
    let mut cells = spaced_fleet();
    cells[3] = (12, 0);
    cells[10] = (0, 0);
    assert_eq!(validar_frota(&cells), Err(FleetError::OutOfBounds { x: 12, y: 0 }));
}

#[test]
fn faulty_cell_is_reported_before_the_composition() {
    assert_eq!(validar_frota(&[(0, 0), (0, 0)]), Err(FleetError::Overlap { x: 0, y: 0 }));
    assert_eq!(validar_frota(&[(0, 10)]), Err(FleetError::OutOfBounds { x: 0, y: 10 }));
}

#[test]
fn missing_ship_is_the_wrong_composition() {
    let mut cells = spaced_fleet();
    cells.pop();
    assert_eq!(validar_frota(&cells), Err(FleetError::WrongComposition));
}

#[test]
fn extra_ship_is_the_wrong_composition() {
    let mut cells = spaced_fleet();
    cells.push((9, 9));
    assert_eq!(validar_frota(&cells), Err(FleetError::WrongComposition));
}

#[test]
fn too_long_ship_is_the_wrong_composition() {
    let mut cells = spaced_fleet();
    cells.push((5, 0));
    assert_eq!(validar_frota(&cells), Err(FleetError::WrongComposition));
}

#[test]
fn ships_that_touch_side_by_side_count_as_one() {
    let mut cells = spaced_fleet();
    for c in cells.iter_mut() {
        if c.1 == 2 {
            c.1 = 1;
        }
    }
    assert_eq!(validar_frota(&cells), Err(FleetError::WrongComposition));
}

#[test]
fn ships_that_touch_end_to_end_count_as_one() {
    let mut cells = spaced_fleet();
    // the two ships of two cells in row 6 close the gap between them
    for c in cells.iter_mut() {
        if *c == (3, 6) {
            *c = (2, 6);
        } else if *c == (4, 6) {
            *c = (3, 6);
        }
    }
    assert_eq!(validar_frota(&cells), Err(FleetError::WrongComposition));
}

#[test]
fn ships_that_touch_at_a_corner_stay_apart() {
    let mut cells = spaced_fleet();
    // the single cell (2, 8) moves to (2, 7), diagonal to (1, 6) and (3, 6)
    for c in cells.iter_mut() {
        if *c == (2, 8) {
            *c = (2, 7);
        }
    }
    assert_eq!(validar_frota(&cells), Ok(()));
}

#[test]
fn bent_ship_counts_by_its_size() {
    let mut cells = spaced_fleet();
    // the ship of five cells bends down at its end
    for c in cells.iter_mut() {
        if *c == (4, 0) {
            *c = (9, 5);
        } else if *c == (3, 0) {
            *c = (9, 4);
        } else if *c == (2, 0) {
            *c = (9, 3);
        } else if *c == (1, 0) {
            *c = (8, 3);
        } else if *c == (0, 0) {
            *c = (7, 3);
        }
    }
    assert_eq!(validar_frota(&cells), Ok(()));
}

#[test]
fn ring_of_cells_is_one_ship() {
    // eight cells around (5, 5) form one ship of eight
    let ring = [(4, 4), (5, 4), (6, 4), (4, 5), (6, 5), (4, 6), (5, 6), (6, 6)];
    assert_eq!(validar_frota(&ring), Err(FleetError::WrongComposition));
}

#[test]
fn full_board_is_one_ship() {
    let mut cells = Vec::new();
    for y in 0..10u8 {
        for x in 0..10u8 {
            cells.push((x, y));
        }
    }
    assert_eq!(validar_frota(&cells), Err(FleetError::WrongComposition));
}

#[test]
fn checkerboard_has_only_single_cells() {
    let mut cells = Vec::new();
    for y in 0..10u8 {
        for x in 0..10u8 {
            if (x + y) % 2 == 0 {
                cells.push((x, y));
            }
        }
    }
    assert_eq!(validar_frota(&cells), Err(FleetError::WrongComposition));
}

#[test]
fn row_ends_do_not_wrap_around() {
    // (9, 5) and (0, 6) are neighbours in the linear order only
    let mut cells = spaced_fleet();
    for c in cells.iter_mut() {
        if *c == (0, 6) {
            *c = (9, 5);
        } else if *c == (1, 6) {
            *c = (0, 6);
        }
    }
    // the ship of two has become two single cells
    assert_eq!(validar_frota(&cells), Err(FleetError::WrongComposition));
}
