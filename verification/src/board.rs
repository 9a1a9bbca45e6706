//! The ten-by-ten board: positions, shot marks and grid coordinates.

use vstd::prelude::*;
use vstd::string::*;
use crate::text::{decimal, push_decimal};

verus! {

/// Cells on the whole board.
pub const BOARD_CELLS: usize = 100;

/// Cells covered by a complete fleet: 5 + 4 + 3 + 2 + 2 + 1 + 1.
pub const FULL_FLEET_CELLS: u32 = 18;

/// The letter that names column `x`: `A` for 0, `B` for 1 and so on.
pub open spec fn column_letter(x: nat) -> char {
    if x == 0 {
        'A'
    } else if x == 1 {
        'B'
    } else if x == 2 {
        'C'
    } else if x == 3 {
        'D'
    } else if x == 4 {
        'E'
    } else if x == 5 {
        'F'
    } else if x == 6 {
        'G'
    } else if x == 7 {
        'H'
    } else if x == 8 {
        'I'
    } else {
        'J'
    }
}

/// The grid coordinate of a linear position: the column letter of
/// `pos % 10` followed by the row number `pos / 10`.
pub open spec fn xy_text(pos: nat) -> Seq<char> {
    seq![column_letter(pos % 10)] + decimal(pos / 10)
}

fn column_str(x: u8) -> (s: &'static str)
    requires
        x < 10,
    ensures
        s@ == seq![column_letter(x as nat)],
{
    proof {
        reveal_strlit("A");
        reveal_strlit("B");
        reveal_strlit("C");
        reveal_strlit("D");
        reveal_strlit("E");
        reveal_strlit("F");
        reveal_strlit("G");
        reveal_strlit("H");
        reveal_strlit("I");
        reveal_strlit("J");
    }
    let s: &'static str = if x == 0 {
        "A"
    } else if x == 1 {
        "B"
    } else if x == 2 {
        "C"
    } else if x == 3 {
        "D"
    } else if x == 4 {
        "E"
    } else if x == 5 {
        "F"
    } else if x == 6 {
        "G"
    } else if x == 7 {
        "H"
    } else if x == 8 {
        "I"
    } else {
        "J"
    };
    assert(s@ =~= seq![column_letter(x as nat)]);
    s
}

/// Human-readable grid coordinate of a linear board position, such as
/// `F0` for position 5 or `D2` for position 23.
pub fn xy_pos(pos: u8) -> (s: String)
    ensures
        s@ == xy_text(pos as nat),
{
    let x: u8 = pos % 10;
    let y: u8 = pos / 10;
    let mut s = String::from_str(column_str(x));
    push_decimal(&mut s, y as u64);
    s
}

} // verus!
