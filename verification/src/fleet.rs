//! Fleet layouts: which sets of occupied cells form a legal fleet.
//!
//! Two occupied cells belong to the same ship when one can be reached from
//! the other by steps of one cell, horizontally or vertically, over
//! occupied cells only. A layout is legal when its ships have exactly the
//! sizes 5, 4, 3, 2, 2, 1 and 1.

use vstd::prelude::*;

verus! {

/// A cell of the board as column `x` and row `y`.
pub type Cell = (u8, u8);

/// Why a layout is not a legal fleet.
#[derive(Clone, Copy, PartialEq, Eq, Debug, Structural)]
pub enum FleetError {
    /// A cell lies outside the ten-by-ten board.
    OutOfBounds { x: u8, y: u8 },
    /// A cell is listed twice.
    Overlap { x: u8, y: u8 },
    /// The ships do not have the sizes 5, 4, 3, 2, 2, 1 and 1.
    WrongComposition,
}

/// Whether the cell lies on the board.
pub open spec fn in_bounds(c: Cell) -> bool {
    c.0 < 10 && c.1 < 10
}

/// Whether two cells are one step apart, horizontally or vertically.
pub open spec fn adjacent(a: Cell, b: Cell) -> bool {
    ||| (a.0 == b.0 && (a.1 + 1 == b.1 || b.1 + 1 == a.1))
    ||| (a.1 == b.1 && (a.0 + 1 == b.0 || b.0 + 1 == a.0))
}

/// A walk over occupied cells in which each cell is adjacent to the next.
pub open spec fn is_path(cells: Set<Cell>, path: Seq<Cell>) -> bool {
    &&& path.len() > 0
    &&& forall|i: int| 0 <= i < path.len() ==> cells.contains(#[trigger] path[i])
    &&& forall|i: int| 0 <= i < path.len() - 1 ==> adjacent(#[trigger] path[i], path[i + 1])
}

/// Whether a path over occupied cells leads from `a` to `b`.
pub open spec fn connected(cells: Set<Cell>, a: Cell, b: Cell) -> bool {
    exists|path: Seq<Cell>| #[trigger]
        is_path(cells, path) && path.first() == a && path.last() == b
}

/// The ship that the occupied cell `a` belongs to: every cell connected
/// to it.
pub open spec fn ship_of(cells: Set<Cell>, a: Cell) -> Set<Cell> {
    Set::new(|b: Cell| connected(cells, a, b))
}

/// Whether `ship` is one of the ships of the layout.
pub open spec fn is_ship(cells: Set<Cell>, ship: Set<Cell>) -> bool {
    exists|a: Cell| cells.contains(a) && ship == #[trigger] ship_of(cells, a)
}

/// The ships of the layout that cover exactly `size` cells.
pub open spec fn ships_sized(cells: Set<Cell>, size: nat) -> Set<Set<Cell>> {
    Set::new(|ship: Set<Cell>| is_ship(cells, ship) && ship.len() == size)
}

/// How many ships of `size` cells a complete fleet has.
pub open spec fn fleet_count(size: nat) -> nat {
    if size == 1 || size == 2 {
        2
    } else if size == 3 || size == 4 || size == 5 {
        1
    } else {
        0
    }
}

/// Whether the ships of the layout are exactly those of a complete fleet:
/// for every size, as many ships as the fleet has of that size.
pub open spec fn legal_composition(cells: Set<Cell>) -> bool {
    forall|size: nat|
        #![trigger ships_sized(cells, size)]
        ships_sized(cells, size).finite() && ships_sized(cells, size).len() == fleet_count(size)
}

/// Whether the cell at index `i` of the list is off the board or repeats
/// an earlier cell.
pub open spec fn misplaced(fleet: Seq<Cell>, i: int) -> bool {
    !in_bounds(fleet[i]) || exists|j: int| 0 <= j < i && fleet[j] == fleet[i]
}

/// Whether index `i` is the first misplaced cell of the list.
pub open spec fn first_misplaced(fleet: Seq<Cell>, i: int) -> bool {
    &&& 0 <= i < fleet.len()
    &&& misplaced(fleet, i)
    &&& forall|j: int| 0 <= j < i ==> !misplaced(fleet, j)
}

/// The verdict on a list of occupied cells. The first cell that is off the
/// board or repeats an earlier one decides; a list without such a cell is
/// judged by the sizes of its ships.
pub open spec fn fleet_fault(fleet: Seq<Cell>) -> Option<FleetError> {
    if exists|i: int| first_misplaced(fleet, i) {
        let i = choose|i: int| first_misplaced(fleet, i);
        if !in_bounds(fleet[i]) {
            Some(FleetError::OutOfBounds { x: fleet[i].0, y: fleet[i].1 })
        } else {
            Some(FleetError::Overlap { x: fleet[i].0, y: fleet[i].1 })
        }
    } else if legal_composition(fleet.to_set()) {
        None
    } else {
        Some(FleetError::WrongComposition)
    }
}

/// Whether the list is a legal fleet: every cell on the board, no cell
/// twice, and ships of the sizes 5, 4, 3, 2, 2, 1 and 1.
pub open spec fn legal_fleet(fleet: Seq<Cell>) -> bool {
    &&& forall|i: int| 0 <= i < fleet.len() ==> in_bounds(#[trigger] fleet[i])
    &&& fleet.no_duplicates()
    &&& legal_composition(fleet.to_set())
}

/// A list has no fault exactly when it is a legal fleet.
pub proof fn lemma_fault_free_is_legal(fleet: Seq<Cell>)
    ensures
        fleet_fault(fleet) is None <==> legal_fleet(fleet),
{
    if exists|i: int| first_misplaced(fleet, i) {
        let i = choose|i: int| first_misplaced(fleet, i);
        assert(fleet_fault(fleet) is Some);
        if in_bounds(fleet[i]) {
            let j = choose|j: int| 0 <= j < i && fleet[j] == fleet[i];
            assert(fleet[j] == fleet[i] && j != i);
            assert(!fleet.no_duplicates());
        } else {
            assert(!in_bounds(fleet[i]));
        }
        assert(!legal_fleet(fleet));
    } else {
        lemma_no_misplaced(fleet, fleet.len() as int);
        assert forall|i: int| 0 <= i < fleet.len() implies in_bounds(#[trigger] fleet[i]) by {
            assert(!misplaced(fleet, i));
        }
        assert forall|i: int, j: int|
            0 <= i < fleet.len() && 0 <= j < fleet.len() && i != j implies fleet[i] != fleet[j] by {
            if i < j {
                assert(!misplaced(fleet, j));
            } else {
                assert(!misplaced(fleet, i));
            }
        }
        assert(fleet.no_duplicates());
    }
}

/// If no index is the first misplaced one, no index is misplaced at all.
proof fn lemma_no_misplaced(fleet: Seq<Cell>, upto: int)
    requires
        0 <= upto <= fleet.len(),
        !(exists|i: int| first_misplaced(fleet, i)),
    ensures
        forall|i: int| 0 <= i < upto ==> !misplaced(fleet, i),
    decreases upto,
{
    if upto > 0 {
        lemma_no_misplaced(fleet, upto - 1);
        if misplaced(fleet, upto - 1) {
            assert(first_misplaced(fleet, upto - 1));
        }
    }
}

/// Every occupied cell is connected to itself.
pub proof fn lemma_connected_refl(cells: Set<Cell>, a: Cell)
    requires
        cells.contains(a),
    ensures
        connected(cells, a, a),
{
    let path = seq![a];
    assert(is_path(cells, path));
    assert(path.first() == a && path.last() == a);
}

/// A connection can be extended by one step to an adjacent occupied cell.
pub proof fn lemma_connected_step(cells: Set<Cell>, a: Cell, b: Cell, c: Cell)
    requires
        connected(cells, a, b),
        cells.contains(c),
        adjacent(b, c),
    ensures
        connected(cells, a, c),
{
    let path = choose|path: Seq<Cell>| #[trigger]
        is_path(cells, path) && path.first() == a && path.last() == b;
    let longer = path.push(c);
    assert forall|i: int| 0 <= i < longer.len() implies cells.contains(#[trigger] longer[i]) by {
        if i < path.len() {
            assert(longer[i] == path[i]);
        }
    }
    assert forall|i: int| 0 <= i < longer.len() - 1 implies adjacent(
        #[trigger] longer[i],
        longer[i + 1],
    ) by {
        if i < path.len() - 1 {
            assert(longer[i] == path[i]);
            assert(longer[i + 1] == path[i + 1]);
        } else {
            assert(longer[i] == path.last());
        }
    }
    assert(is_path(cells, longer));
    assert(longer.first() == a && longer.last() == c);
}

/// Whether every occupied cell adjacent to a member is a member too.
pub open spec fn closed_under_steps(cells: Set<Cell>, group: Set<Cell>) -> bool {
    forall|a: Cell, b: Cell|
        group.contains(a) && cells.contains(b) && #[trigger] adjacent(a, b) ==> group.contains(b)
}

proof fn lemma_path_stays(cells: Set<Cell>, group: Set<Cell>, path: Seq<Cell>, i: int)
    requires
        closed_under_steps(cells, group),
        is_path(cells, path),
        group.contains(path.first()),
        0 <= i < path.len(),
    ensures
        group.contains(path[i]),
    decreases i,
{
    if i > 0 {
        lemma_path_stays(cells, group, path, i - 1);
        assert(adjacent(path[i - 1], path[i - 1 + 1]));
        assert(cells.contains(path[i]));
    }
}

/// A group of cells that no step leaves contains the whole ship of each of
/// its members.
pub proof fn lemma_closed_holds_ship(cells: Set<Cell>, group: Set<Cell>, a: Cell)
    requires
        closed_under_steps(cells, group),
        group.contains(a),
    ensures
        ship_of(cells, a).subset_of(group),
{
    assert forall|b: Cell| ship_of(cells, a).contains(b) implies group.contains(b) by {
        let path = choose|path: Seq<Cell>| #[trigger]
            is_path(cells, path) && path.first() == a && path.last() == b;
        lemma_path_stays(cells, group, path, path.len() - 1);
    }
}

/// Connections can be walked backwards.
pub proof fn lemma_connected_sym(cells: Set<Cell>, a: Cell, b: Cell)
    requires
        connected(cells, a, b),
    ensures
        connected(cells, b, a),
{
    let path = choose|path: Seq<Cell>| #[trigger]
        is_path(cells, path) && path.first() == a && path.last() == b;
    let n = path.len() as int;
    let back = Seq::new(path.len(), |i: int| path[n - 1 - i]);
    assert forall|i: int| 0 <= i < back.len() implies cells.contains(#[trigger] back[i]) by {
        assert(cells.contains(path[n - 1 - i]));
    }
    assert forall|i: int| 0 <= i < back.len() - 1 implies adjacent(
        #[trigger] back[i],
        back[i + 1],
    ) by {
        assert(adjacent(path[n - 2 - i], path[n - 2 - i + 1]));
    }
    assert(is_path(cells, back));
    assert(back.first() == b && back.last() == a);
}

/// A ship is closed: no step over occupied cells leaves it.
pub proof fn lemma_ship_closed(cells: Set<Cell>, a: Cell)
    ensures
        closed_under_steps(cells, ship_of(cells, a)),
{
    assert forall|b: Cell, c: Cell|
        ship_of(cells, a).contains(b) && cells.contains(c) && #[trigger] adjacent(
            b,
            c,
        ) implies ship_of(cells, a).contains(c) by {
        lemma_connected_step(cells, a, b, c);
    }
}

/// Every member of a ship spans the same ship.
pub proof fn lemma_same_ship(cells: Set<Cell>, a: Cell, b: Cell)
    requires
        connected(cells, a, b),
    ensures
        ship_of(cells, a) == ship_of(cells, b),
{
    lemma_connected_sym(cells, a, b);
    lemma_ship_closed(cells, a);
    lemma_ship_closed(cells, b);
    lemma_closed_holds_ship(cells, ship_of(cells, a), b);
    lemma_closed_holds_ship(cells, ship_of(cells, b), a);
    assert(ship_of(cells, a) =~= ship_of(cells, b));
}

/// The cells of a path are occupied, so a ship lies within the layout.
pub proof fn lemma_ship_within(cells: Set<Cell>, a: Cell)
    ensures
        ship_of(cells, a).subset_of(cells),
{
    assert forall|b: Cell| ship_of(cells, a).contains(b) implies cells.contains(b) by {
        let path = choose|path: Seq<Cell>| #[trigger]
            is_path(cells, path) && path.first() == a && path.last() == b;
        assert(cells.contains(path[path.len() - 1]));
    }
}

/// The cell at a linear position of the grid, row by row.
#[verifier::opaque]
pub open spec fn cell_at(i: int) -> Cell {
    ((i % 10) as u8, (i / 10) as u8)
}

/// The linear position of a cell of the board.
#[verifier::opaque]
pub open spec fn index_of(c: Cell) -> int {
    c.1 as int * 10 + c.0 as int
}

/// Number of flags that are set.
pub open spec fn count_true(flags: Seq<bool>) -> nat
    decreases flags.len(),
{
    if flags.len() == 0 {
        0
    } else {
        count_true(flags.drop_last()) + if flags.last() {
            1nat
        } else {
            0nat
        }
    }
}

proof fn lemma_count_true_bound(flags: Seq<bool>)
    ensures
        count_true(flags) <= flags.len(),
    decreases flags.len(),
{
    if flags.len() > 0 {
        lemma_count_true_bound(flags.drop_last());
    }
}

proof fn lemma_count_true_clear(flags: Seq<bool>, i: int)
    requires
        0 <= i < flags.len(),
        flags[i],
    ensures
        count_true(flags.update(i, false)) + 1 == count_true(flags),
    decreases flags.len(),
{
    let after = flags.update(i, false);
    if i == flags.len() - 1 {
        assert(after.drop_last() =~= flags.drop_last());
    } else {
        lemma_count_true_clear(flags.drop_last(), i);
        assert(after.drop_last() =~= flags.drop_last().update(i, false));
    }
}

/// A cell of the board is the cell at its own position.
proof fn lemma_index_roundtrip(c: Cell)
    requires
        in_bounds(c),
    ensures
        0 <= index_of(c) < 100,
        index_of(c) == c.1 * 10 + c.0,
        cell_at(index_of(c)) == c,
{
    reveal(cell_at);
    reveal(index_of);
}

/// A position of the grid is the position of its own cell.
proof fn lemma_cell_roundtrip(i: int)
    requires
        0 <= i < 100,
    ensures
        in_bounds(cell_at(i)),
        index_of(cell_at(i)) == i,
        cell_at(i).0 == i % 10,
        cell_at(i).1 == i / 10,
{
    reveal(cell_at);
    reveal(index_of);
}

/// Different positions of the grid hold different cells.
proof fn lemma_cells_differ(i: int, j: int)
    requires
        0 <= i < 100,
        0 <= j < 100,
        i != j,
    ensures
        cell_at(i) != cell_at(j),
{
    lemma_cell_roundtrip(i);
    lemma_cell_roundtrip(j);
}

/// The positions one step left, right, up and down of a position hold
/// adjacent cells.
proof fn lemma_step_adjacent(p: int, q: int)
    requires
        0 <= p < 100,
        (q == p - 1 && p % 10 > 0) || (q == p + 1 && p % 10 < 9) || (q == p - 10 && p / 10 > 0) || (
        q == p + 10 && p / 10 < 9),
    ensures
        0 <= q < 100,
        adjacent(cell_at(p), cell_at(q)),
{
    reveal(cell_at);
}

/// A cell of the board adjacent to the cell at `p` lies one step left,
/// right, up or down of `p`.
proof fn lemma_neighbor_positions(p: int, b: Cell)
    requires
        0 <= p < 100,
        in_bounds(b),
        adjacent(cell_at(p), b),
    ensures
        (index_of(b) == p - 1 && p % 10 > 0) || (index_of(b) == p + 1 && p % 10 < 9) || (index_of(b)
            == p - 10 && p / 10 > 0) || (index_of(b) == p + 10 && p / 10 < 9),
{
    reveal(cell_at);
    reveal(index_of);
}

/// Whether adjacent occupied cells always carry the same flag, so that the
/// flagged cells are whole ships.
spec fn saturated(cells: Set<Cell>, flags: Seq<bool>) -> bool {
    forall|a: Cell, b: Cell|
        cells.contains(a) && cells.contains(b) && #[trigger] adjacent(a, b) ==> flags[index_of(a)]
            == flags[index_of(b)]
}

/// Whether every occupied neighbour of `a` has been reached.
spec fn all_neighbors_in(cells: Set<Cell>, a: Cell, visited: Set<Cell>) -> bool {
    forall|b: Cell| cells.contains(b) && #[trigger] adjacent(a, b) ==> visited.contains(b)
}

/// What the grid says about the layout before a ship is removed from it.
spec fn grid_fits(cells: Set<Cell>, flags: Seq<bool>) -> bool {
    &&& flags.len() == 100
    &&& forall|c: Cell| cells.contains(c) ==> in_bounds(c)
    &&& forall|i: int| 0 <= i < 100 && #[trigger] flags[i] ==> cells.contains(cell_at(i))
    &&& saturated(cells, flags)
}

/// The state of a flood fill that started at `origin`: `visited` holds the
/// cells taken off the grid so far, all of them part of the origin's ship,
/// and every visited cell either waits on the stack or has all its
/// occupied neighbours visited. The cell `busy` is being expanded.
#[verifier::opaque]
spec fn flooding(
    cells: Set<Cell>,
    before: Seq<bool>,
    rem: Seq<bool>,
    stack: Seq<usize>,
    visited: Set<Cell>,
    size: int,
    origin: Cell,
    busy: Option<Cell>,
) -> bool {
    &&& rem.len() == 100
    &&& visited.finite()
    &&& visited.len() == size
    &&& size + count_true(rem) == count_true(before)
    &&& visited.contains(origin)
    &&& forall|c: Cell| #[trigger]
        visited.contains(c) ==> in_bounds(c) && connected(cells, origin, c) && before[index_of(c)]
    &&& forall|i: int|
        0 <= i < 100 ==> #[trigger] rem[i] == (before[i] && !visited.contains(cell_at(i)))
    &&& forall|k: int|
        0 <= k < stack.len() ==> #[trigger] stack[k] < 100 && visited.contains(
            cell_at(stack[k] as int),
        )
    &&& forall|a: Cell| #[trigger]
        visited.contains(a) && busy != Some(a) ==> stack.contains(index_of(a) as usize)
            || all_neighbors_in(cells, a, visited)
}

/// Takes the cell at position `q`, a neighbour of the cell being expanded,
/// off the grid if it is still there.
fn visit(
    rem: &mut Vec<bool>,
    stack: &mut Vec<usize>,
    size: &mut u8,
    q: usize,
    Ghost(cells): Ghost<Set<Cell>>,
    Ghost(before): Ghost<Seq<bool>>,
    Ghost(visited): Ghost<Set<Cell>>,
    Ghost(origin): Ghost<Cell>,
    Ghost(from): Ghost<Cell>,
) -> (now: Ghost<Set<Cell>>)
    requires
        q < 100,
        grid_fits(cells, before),
        flooding(cells, before, old(rem)@, old(stack)@, visited, *old(size) as int, origin, Some(from)),
        visited.contains(from),
        adjacent(from, cell_at(q as int)),
    ensures
        flooding(cells, before, final(rem)@, final(stack)@, now@, *final(size) as int, origin, Some(from)),
        visited.subset_of(now@),
        before[q as int] ==> now@.contains(cell_at(q as int)),
        2 * count_true(final(rem)@) + final(stack)@.len() <= 2 * count_true(old(rem)@) + old(
            stack,
        )@.len(),
        final(stack)@.len() >= old(stack)@.len(),
{
    let ghost c = cell_at(q as int);
    proof {
        reveal(flooding);
    }
    if rem[q] {
        proof {
            lemma_count_true_clear(rem@, q as int);
            lemma_count_true_bound(before);
            lemma_connected_step(cells, origin, from, c);
        }
        rem.set(q, false);
        stack.push(q);
        *size = *size + 1;
        let ghost now = visited.insert(c);
        proof {
            lemma_cell_roundtrip(q as int);
            assert(stack@[stack@.len() - 1] == q);
            assert forall|k: int| 0 <= k < stack@.len() implies #[trigger] stack@[k] < 100
                && now.contains(cell_at(stack@[k] as int)) by {
                if k < old(stack)@.len() {
                    assert(stack@[k] == old(stack)@[k]);
                }
            }
            assert forall|a: Cell| #[trigger] now.contains(a) && Some(from) != Some(a) implies stack@.contains(
                index_of(a) as usize,
            ) || all_neighbors_in(cells, a, now) by {
                if a == c {
                    assert(stack@[stack@.len() - 1] == index_of(a) as usize);
                } else {
                    assert(visited.contains(a));
                    if old(stack)@.contains(index_of(a) as usize) {
                        let k = choose|k: int|
                            0 <= k < old(stack)@.len() && old(stack)@[k] == index_of(a) as usize;
                        assert(stack@[k] == index_of(a) as usize);
                    } else {
                        assert(all_neighbors_in(cells, a, visited));
                    }
                }
            }
            assert forall|i: int| 0 <= i < 100 implies #[trigger] rem@[i] == (before[i]
                && !now.contains(cell_at(i))) by {
                assert(old(rem)@[i] == (before[i] && !visited.contains(cell_at(i))));
                if i != q {
                    lemma_cells_differ(i, q as int);
                }
            }
        }
        Ghost(now)
    } else {
        Ghost(visited)
    }
}

/// The flood fill as it starts: only the origin is off the grid, and it
/// waits on the stack.
proof fn lemma_flood_starts(cells: Set<Cell>, before: Seq<bool>, start: int)
    requires
        0 <= start < 100,
        grid_fits(cells, before),
        before[start],
    ensures
        flooding(
            cells,
            before,
            before.update(start, false),
            seq![start as usize],
            Set::empty().insert(cell_at(start)),
            1,
            cell_at(start),
            None,
        ),
{
    reveal(flooding);
    let origin = cell_at(start);
    let visited: Set<Cell> = Set::empty().insert(origin);
    let rem = before.update(start, false);
    let stack = seq![start as usize];
    lemma_connected_refl(cells, origin);
    lemma_count_true_clear(before, start);
    lemma_cell_roundtrip(start);
    assert(stack[0] == start);
    assert forall|i: int| 0 <= i < 100 implies #[trigger] rem[i] == (before[i]
        && !visited.contains(cell_at(i))) by {
        if i != start {
            lemma_cells_differ(i, start);
        }
    }
    assert forall|a: Cell| #[trigger] visited.contains(a) implies stack.contains(
        index_of(a) as usize,
    ) by {
        assert(stack[0] == index_of(a) as usize);
    }
}

/// Taking the top cell off the stack leaves a state in which that cell
/// is being expanded.
proof fn lemma_flood_pops(
    cells: Set<Cell>,
    before: Seq<bool>,
    rem: Seq<bool>,
    stack: Seq<usize>,
    visited: Set<Cell>,
    size: int,
    origin: Cell,
)
    requires
        stack.len() > 0,
        flooding(cells, before, rem, stack, visited, size, origin, None),
    ensures
        stack.last() < 100,
        visited.contains(cell_at(stack.last() as int)),
        before[stack.last() as int],
        flooding(
            cells,
            before,
            rem,
            stack.drop_last(),
            visited,
            size,
            origin,
            Some(cell_at(stack.last() as int)),
        ),
{
    reveal(flooding);
    let rest = stack.drop_last();
    let p = stack.last();
    let a0 = cell_at(p as int);
    assert(stack[stack.len() - 1] == p);
    lemma_cell_roundtrip(p as int);
    assert forall|a: Cell| #[trigger] visited.contains(a) && Some(a0) != Some(a) implies rest.contains(
        index_of(a) as usize,
    ) || all_neighbors_in(cells, a, visited) by {
        if stack.contains(index_of(a) as usize) {
            let k = choose|k: int| 0 <= k < stack.len() && stack[k] == index_of(a) as usize;
            if k == stack.len() - 1 {
                lemma_index_roundtrip(a);
                assert(index_of(a) == p);
            } else {
                assert(rest[k] == index_of(a) as usize);
            }
        }
    }
    assert forall|k: int| 0 <= k < rest.len() implies #[trigger] rest[k] < 100 && visited.contains(
        cell_at(rest[k] as int),
    ) by {
        assert(rest[k] == stack[k]);
    }
}

/// Once the four neighbours of the expanded cell have been visited, the
/// cell is done.
proof fn lemma_flood_expanded(
    cells: Set<Cell>,
    before: Seq<bool>,
    rem: Seq<bool>,
    stack: Seq<usize>,
    visited: Set<Cell>,
    size: int,
    origin: Cell,
    p: int,
)
    requires
        0 <= p < 100,
        grid_fits(cells, before),
        before[p],
        flooding(cells, before, rem, stack, visited, size, origin, Some(cell_at(p))),
        p % 10 > 0 && before[p - 1] ==> visited.contains(cell_at(p - 1)),
        p % 10 < 9 && before[p + 1] ==> visited.contains(cell_at(p + 1)),
        p / 10 > 0 && before[p - 10] ==> visited.contains(cell_at(p - 10)),
        p / 10 < 9 && before[p + 10] ==> visited.contains(cell_at(p + 10)),
    ensures
        flooding(cells, before, rem, stack, visited, size, origin, None),
{
    reveal(flooding);
    let a0 = cell_at(p);
    lemma_cell_roundtrip(p);
    assert(cells.contains(a0));
    assert forall|b: Cell| cells.contains(b) && #[trigger] adjacent(a0, b) implies visited.contains(
        b,
    ) by {
        assert(in_bounds(b));
        assert(before[index_of(a0)] == before[index_of(b)]);
        lemma_index_roundtrip(b);
        lemma_neighbor_positions(p, b);
    }
    assert(all_neighbors_in(cells, a0, visited));
}

/// When the stack is empty, the visited cells are the origin's ship.
proof fn lemma_flood_done(
    cells: Set<Cell>,
    before: Seq<bool>,
    rem: Seq<bool>,
    visited: Set<Cell>,
    size: int,
    origin: Cell,
)
    requires
        grid_fits(cells, before),
        flooding(cells, before, rem, Seq::<usize>::empty(), visited, size, origin, None),
    ensures
        visited == ship_of(cells, origin),
        visited.finite(),
        visited.len() == size,
        1 <= size <= 100,
        rem.len() == 100,
        forall|i: int|
            0 <= i < 100 ==> #[trigger] rem[i] == (before[i] && !visited.contains(cell_at(i))),
{
    reveal(flooding);
    let stack = Seq::<usize>::empty();
    assert forall|a: Cell, b: Cell|
        visited.contains(a) && cells.contains(b) && #[trigger] adjacent(
            a,
            b,
        ) implies visited.contains(b) by {
        assert(!stack.contains(index_of(a) as usize));
        assert(all_neighbors_in(cells, a, visited));
    }
    assert(closed_under_steps(cells, visited));
    lemma_closed_holds_ship(cells, visited, origin);
    assert(visited =~= ship_of(cells, origin));
    lemma_count_true_bound(before);
    assert(visited.len() > 0) by {
        if visited.len() == 0 {
            assert(visited =~= Set::empty());
        }
    }
}

/// Removes from the grid the whole ship of the cell at `start` and returns
/// the number of its cells.
fn flood(rem: &mut Vec<bool>, start: usize, Ghost(cells): Ghost<Set<Cell>>) -> (size: u8)
    requires
        start < 100,
        grid_fits(cells, old(rem)@),
        old(rem)@[start as int],
    ensures
        final(rem)@.len() == 100,
        ship_of(cells, cell_at(start as int)).finite(),
        ship_of(cells, cell_at(start as int)).len() == size,
        1 <= size <= 100,
        forall|i: int|
            0 <= i < 100 ==> #[trigger] final(rem)@[i] == (old(rem)@[i] && !ship_of(
                cells,
                cell_at(start as int),
            ).contains(cell_at(i))),
{
    let ghost before = rem@;
    let ghost origin = cell_at(start as int);
    let ghost mut visited: Set<Cell> = Set::empty().insert(origin);
    let mut stack: Vec<usize> = Vec::new();
    let mut size: u8 = 1;
    rem.set(start, false);
    stack.push(start);
    proof {
        lemma_flood_starts(cells, before, start as int);
        assert(stack@ =~= seq![start]);
    }
    while stack.len() > 0
        invariant
            grid_fits(cells, before),
            flooding(cells, before, rem@, stack@, visited, size as int, origin, None),
        decreases 2 * count_true(rem@) + stack@.len(),
    {
        proof {
            lemma_flood_pops(cells, before, rem@, stack@, visited, size as int, origin);
        }
        let p: usize = stack.pop().unwrap();
        let ghost a0 = cell_at(p as int);
        let x: usize = p % 10;
        let y: usize = p / 10;
        if x > 0 {
            proof {
                lemma_step_adjacent(p as int, p - 1);
            }
            let now = visit(
                rem,
                &mut stack,
                &mut size,
                p - 1,
                Ghost(cells),
                Ghost(before),
                Ghost(visited),
                Ghost(origin),
                Ghost(a0),
            );
            proof {
                visited = now@;
            }
        }
        if x < 9 {
            proof {
                lemma_step_adjacent(p as int, p + 1);
            }
            let now = visit(
                rem,
                &mut stack,
                &mut size,
                p + 1,
                Ghost(cells),
                Ghost(before),
                Ghost(visited),
                Ghost(origin),
                Ghost(a0),
            );
            proof {
                visited = now@;
            }
        }
        if y > 0 {
            proof {
                lemma_step_adjacent(p as int, p - 10);
            }
            let now = visit(
                rem,
                &mut stack,
                &mut size,
                p - 10,
                Ghost(cells),
                Ghost(before),
                Ghost(visited),
                Ghost(origin),
                Ghost(a0),
            );
            proof {
                visited = now@;
            }
        }
        if y < 9 {
            proof {
                lemma_step_adjacent(p as int, p + 10);
            }
            let now = visit(
                rem,
                &mut stack,
                &mut size,
                p + 10,
                Ghost(cells),
                Ghost(before),
                Ghost(visited),
                Ghost(origin),
                Ghost(a0),
            );
            proof {
                visited = now@;
            }
        }
        proof {
            lemma_flood_expanded(cells, before, rem@, stack@, visited, size as int, origin, p as int);
        }
    }
    proof {
        assert(stack@ =~= Seq::<usize>::empty());
        lemma_flood_done(cells, before, rem@, visited, size as int, origin);
    }
    size
}

/// Number of listed ships that cover `size` cells.
spec fn count_sized(found: Seq<Set<Cell>>, size: nat) -> nat
    decreases found.len(),
{
    if found.len() == 0 {
        0
    } else {
        count_sized(found.drop_last(), size) + if found.last().len() == size {
            1nat
        } else {
            0nat
        }
    }
}

/// The listed ships that cover `size` cells, as a set.
spec fn picked(found: Seq<Set<Cell>>, size: nat) -> Set<Set<Cell>> {
    Set::new(
        |ship: Set<Cell>|
            exists|j: int| 0 <= j < found.len() && #[trigger] found[j] == ship && ship.len() == size,
    )
}

proof fn lemma_count_sized_bound(found: Seq<Set<Cell>>, size: nat)
    ensures
        count_sized(found, size) <= found.len(),
    decreases found.len(),
{
    if found.len() > 0 {
        lemma_count_sized_bound(found.drop_last(), size);
    }
}

proof fn lemma_count_sized_none(found: Seq<Set<Cell>>, size: nat)
    requires
        forall|j: int| 0 <= j < found.len() ==> (#[trigger] found[j]).len() != size,
    ensures
        count_sized(found, size) == 0,
    decreases found.len(),
{
    if found.len() > 0 {
        let prev = found.drop_last();
        assert forall|j: int| 0 <= j < prev.len() implies (#[trigger] prev[j]).len() != size by {
            assert(prev[j] == found[j]);
        }
        lemma_count_sized_none(prev, size);
    }
}

/// A list of distinct ships has as many ships of a size as the list counts.
proof fn lemma_picked_len(found: Seq<Set<Cell>>, size: nat)
    requires
        forall|i: int, j: int| 0 <= i < j < found.len() ==> found[i] != found[j],
    ensures
        picked(found, size).finite(),
        picked(found, size).len() == count_sized(found, size),
    decreases found.len(),
{
    if found.len() == 0 {
        assert(picked(found, size) =~= Set::empty());
    } else {
        let prev = found.drop_last();
        let last = found.last();
        assert forall|i: int, j: int| 0 <= i < j < prev.len() implies prev[i] != prev[j] by {
            assert(prev[i] == found[i] && prev[j] == found[j]);
        }
        lemma_picked_len(prev, size);
        assert(!picked(prev, size).contains(last)) by {
            if picked(prev, size).contains(last) {
                let j = choose|j: int|
                    0 <= j < prev.len() && #[trigger] prev[j] == last && last.len() == size;
                assert(found[j] == prev[j]);
                assert(found[j] == found[found.len() - 1]);
            }
        }
        let grown = if last.len() == size {
            picked(prev, size).insert(last)
        } else {
            picked(prev, size)
        };
        assert forall|ship: Set<Cell>| picked(found, size).contains(ship) implies grown.contains(
            ship,
        ) by {
            let j = choose|j: int|
                0 <= j < found.len() && #[trigger] found[j] == ship && ship.len() == size;
            if j < prev.len() {
                assert(prev[j] == ship);
            }
        }
        assert forall|ship: Set<Cell>| grown.contains(ship) implies picked(found, size).contains(
            ship,
        ) by {
            if picked(prev, size).contains(ship) {
                let j = choose|j: int|
                    0 <= j < prev.len() && #[trigger] prev[j] == ship && ship.len() == size;
                assert(found[j] == ship);
            } else {
                assert(found[found.len() - 1] == ship);
            }
        }
        assert(picked(found, size) =~= grown);
    }
}

/// The state of the search for ships after the positions below `start`
/// have been looked at: `found` lists distinct ships of the layout, the
/// grid still flags exactly the occupied cells outside of them, and `hist`
/// counts the found ships by size.
#[verifier::opaque]
spec fn tallying(
    cells: Set<Cell>,
    rem: Seq<bool>,
    found: Seq<Set<Cell>>,
    hist: Seq<u8>,
    start: int,
) -> bool {
    &&& grid_fits(cells, rem)
    &&& hist.len() == 101
    &&& found.len() <= start
    &&& forall|i: int| 0 <= i < start && i < 100 ==> !#[trigger] rem[i]
    &&& forall|j: int|
        0 <= j < found.len() ==> is_ship(cells, #[trigger] found[j]) && found[j].finite()
            && found[j].len() <= 100
    &&& forall|i: int, j: int| 0 <= i < j < found.len() ==> found[i] != found[j]
    &&& forall|j: int, i: int|
        0 <= j < found.len() && 0 <= i < 100 && (#[trigger] found[j]).contains(cell_at(i))
            ==> !#[trigger] rem[i]
    &&& forall|i: int|
        0 <= i < 100 && cells.contains(cell_at(i)) ==> #[trigger] rem[i] || exists|j: int|
            0 <= j < found.len() && (#[trigger] found[j]).contains(cell_at(i))
    &&& forall|size: int| 0 <= size <= 100 ==> #[trigger] hist[size] == count_sized(found, size as nat)
}

proof fn lemma_tally_starts(cells: Set<Cell>, grid: Seq<bool>, hist: Seq<u8>)
    requires
        grid.len() == 100,
        hist.len() == 101,
        forall|size: int| 0 <= size <= 100 ==> #[trigger] hist[size] == 0,
        forall|c: Cell| cells.contains(c) ==> in_bounds(c),
        forall|i: int| 0 <= i < 100 ==> #[trigger] grid[i] == cells.contains(cell_at(i)),
    ensures
        tallying(cells, grid, Seq::empty(), hist, 0),
{
    reveal(tallying);
    assert forall|a: Cell, b: Cell|
        cells.contains(a) && cells.contains(b) && #[trigger] adjacent(a, b) implies grid[index_of(
        a,
    )] == grid[index_of(b)] by {
        lemma_index_roundtrip(a);
        lemma_index_roundtrip(b);
    }
}

proof fn lemma_tally_skips(
    cells: Set<Cell>,
    rem: Seq<bool>,
    found: Seq<Set<Cell>>,
    hist: Seq<u8>,
    start: int,
)
    requires
        0 <= start < 100,
        tallying(cells, rem, found, hist, start),
        !rem[start],
    ensures
        tallying(cells, rem, found, hist, start + 1),
{
    reveal(tallying);
}

/// What the search knows before it removes the ship at `start`.
proof fn lemma_tally_before_flood(
    cells: Set<Cell>,
    rem: Seq<bool>,
    found: Seq<Set<Cell>>,
    hist: Seq<u8>,
    start: int,
    size: int,
)
    requires
        0 <= start < 100,
        0 <= size <= 100,
        tallying(cells, rem, found, hist, start),
    ensures
        grid_fits(cells, rem),
        hist.len() == 101,
        hist[size] < 100,
{
    reveal(tallying);
    lemma_count_sized_bound(found, size as nat);
}

/// Taking a whole ship off the grid leaves whole ships on it.
proof fn lemma_grid_fits_after(cells: Set<Cell>, rem: Seq<bool>, after: Seq<bool>, origin: Cell)
    requires
        grid_fits(cells, rem),
        after.len() == 100,
        forall|i: int|
            0 <= i < 100 ==> #[trigger] after[i] == (rem[i] && !ship_of(cells, origin).contains(
                cell_at(i),
            )),
    ensures
        grid_fits(cells, after),
{
    let ship = ship_of(cells, origin);
    lemma_ship_closed(cells, origin);
    assert forall|a: Cell, b: Cell|
        cells.contains(a) && cells.contains(b) && #[trigger] adjacent(a, b) implies after[index_of(
        a,
    )] == after[index_of(b)] by {
        lemma_index_roundtrip(a);
        lemma_index_roundtrip(b);
        assert(rem[index_of(a)] == rem[index_of(b)]);
        lemma_adjacent_sym(a, b);
        if ship.contains(a) {
            assert(ship.contains(b));
        }
        if ship.contains(b) {
            assert(ship.contains(a));
        }
    }
    assert forall|i: int| 0 <= i < 100 && #[trigger] after[i] implies cells.contains(cell_at(i)) by {
        assert(rem[i]);
    }
}

/// Removing the ship at `start` and counting it keeps the search state.
proof fn lemma_tally_grows(
    cells: Set<Cell>,
    rem: Seq<bool>,
    after: Seq<bool>,
    found: Seq<Set<Cell>>,
    hist: Seq<u8>,
    start: int,
)
    requires
        0 <= start < 100,
        tallying(cells, rem, found, hist, start),
        rem[start],
        after.len() == 100,
        ship_of(cells, cell_at(start)).finite(),
        1 <= ship_of(cells, cell_at(start)).len() <= 100,
        forall|i: int|
            0 <= i < 100 ==> #[trigger] after[i] == (rem[i] && !ship_of(
                cells,
                cell_at(start),
            ).contains(cell_at(i))),
    ensures
        hist[ship_of(cells, cell_at(start)).len() as int] < 100,
        tallying(
            cells,
            after,
            found.push(ship_of(cells, cell_at(start))),
            hist.update(
                ship_of(cells, cell_at(start)).len() as int,
                (hist[ship_of(cells, cell_at(start)).len() as int] + 1) as u8,
            ),
            start + 1,
        ),
{
    reveal(tallying);
    let origin = cell_at(start);
    let ship = ship_of(cells, origin);
    let n = ship.len() as int;
    let more = found.push(ship);
    let counts = hist.update(n, (hist[n] + 1) as u8);
    lemma_count_sized_bound(found, n as nat);
    lemma_connected_refl(cells, origin);
    lemma_ship_closed(cells, origin);
    lemma_ship_within(cells, origin);
    assert(ship.contains(origin));
    assert(more.drop_last() =~= found);
    assert(more.last() == ship);
    lemma_grid_fits_after(cells, rem, after, origin);
    assert(grid_fits(cells, after));
    assert forall|j: int| 0 <= j < more.len() implies is_ship(cells, #[trigger] more[j])
        && more[j].finite() && more[j].len() <= 100 by {
        if j < found.len() {
            assert(more[j] == found[j]);
        }
    }
    assert forall|i: int, j: int| 0 <= i < j < more.len() implies more[i] != more[j] by {
        if j < found.len() {
            assert(more[i] == found[i] && more[j] == found[j]);
        } else {
            assert(more[i] == found[i]);
            assert(ship.contains(cell_at(start)));
            if found[i] == ship {
                assert(found[i].contains(cell_at(start)));
                assert(!rem[start]);
            }
        }
    }
    assert forall|j: int, i: int|
        0 <= j < more.len() && 0 <= i < 100 && (#[trigger] more[j]).contains(
            cell_at(i),
        ) implies !#[trigger] after[i] by {
        if j < found.len() {
            assert(more[j] == found[j]);
            assert(!rem[i]);
        }
    }
    assert forall|i: int| 0 <= i < 100 && cells.contains(cell_at(i)) implies #[trigger] after[i]
        || exists|j: int| 0 <= j < more.len() && (#[trigger] more[j]).contains(cell_at(i)) by {
        if !after[i] {
            if rem[i] {
                assert(more[more.len() - 1].contains(cell_at(i)));
            } else {
                let j = choose|j: int|
                    0 <= j < found.len() && (#[trigger] found[j]).contains(cell_at(i));
                assert(more[j] == found[j]);
                assert(more[j].contains(cell_at(i)));
            }
        }
    }
    assert forall|size: int| 0 <= size <= 100 implies #[trigger] counts[size] == count_sized(
        more,
        size as nat,
    ) by {
        assert(hist[size] == count_sized(found, size as nat));
    }
    assert forall|i: int| 0 <= i < start + 1 && i < 100 implies !#[trigger] after[i] by {
        if i < start {
            assert(!rem[i]);
        }
    }
}

/// Adjacency does not depend on the order of the two cells.
pub proof fn lemma_adjacent_sym(a: Cell, b: Cell)
    ensures
        adjacent(a, b) == adjacent(b, a),
{
}

/// When the whole grid has been looked at, the found ships are all the
/// ships of the layout.
proof fn lemma_tally_done(
    cells: Set<Cell>,
    rem: Seq<bool>,
    found: Seq<Set<Cell>>,
    hist: Seq<u8>,
)
    requires
        tallying(cells, rem, found, hist, 100),
    ensures
        hist.len() == 101,
        forall|size: nat|
            #![trigger ships_sized(cells, size)]
            ships_sized(cells, size).finite() && ships_sized(cells, size).len() == (if size
                <= 100 {
                hist[size as int] as nat
            } else {
                0nat
            }),
{
    reveal(tallying);
    assert forall|size: nat| #![trigger ships_sized(cells, size)]
        ships_sized(cells, size).finite() && ships_sized(cells, size).len() == (if size <= 100 {
            hist[size as int] as nat
        } else {
            0nat
        }) by {
        lemma_picked_len(found, size);
        assert forall|ship: Set<Cell>| ships_sized(cells, size).contains(ship) implies picked(
            found,
            size,
        ).contains(ship) by {
            let a = choose|a: Cell| cells.contains(a) && ship == #[trigger] ship_of(cells, a);
            let i = index_of(a);
            assert(in_bounds(a));
            lemma_index_roundtrip(a);
            assert(!rem[i]);
            let j = choose|j: int| 0 <= j < found.len() && (#[trigger] found[j]).contains(cell_at(i));
            let b = choose|b: Cell| cells.contains(b) && found[j] == #[trigger] ship_of(cells, b);
            lemma_same_ship(cells, b, a);
            assert(found[j] == ship);
        }
        assert forall|ship: Set<Cell>| picked(found, size).contains(ship) implies ships_sized(
            cells,
            size,
        ).contains(ship) by {
            let j = choose|j: int|
                0 <= j < found.len() && #[trigger] found[j] == ship && ship.len() == size;
            assert(is_ship(cells, found[j]));
        }
        assert(ships_sized(cells, size) =~= picked(found, size));
        if size <= 100 {
            assert(hist[size as int] == count_sized(found, size));
        } else {
            assert forall|j: int| 0 <= j < found.len() implies (#[trigger] found[j]).len()
                != size by {}
            lemma_count_sized_none(found, size);
        }
    }
}

/// Counts the ships of the layout by size: entry `n` of the result is the
/// number of ships that cover `n` cells.
fn tally(grid: Vec<bool>, Ghost(cells): Ghost<Set<Cell>>) -> (hist: Vec<u8>)
    requires
        grid@.len() == 100,
        forall|c: Cell| cells.contains(c) ==> in_bounds(c),
        forall|i: int| 0 <= i < 100 ==> #[trigger] grid@[i] == cells.contains(cell_at(i)),
    ensures
        hist@.len() == 101,
        forall|size: nat|
            #![trigger ships_sized(cells, size)]
            ships_sized(cells, size).finite() && ships_sized(cells, size).len() == (if size
                <= 100 {
                hist@[size as int] as nat
            } else {
                0nat
            }),
{
    let mut rem = grid;
    let mut hist: Vec<u8> = Vec::new();
    let mut k: usize = 0;
    while k < 101
        invariant
            k <= 101,
            hist@.len() == k,
            forall|size: int| 0 <= size < k ==> #[trigger] hist@[size] == 0,
        decreases 101 - k,
    {
        hist.push(0);
        k = k + 1;
    }
    let ghost mut found: Seq<Set<Cell>> = Seq::empty();
    proof {
        lemma_tally_starts(cells, rem@, hist@);
    }
    let mut start: usize = 0;
    while start < 100
        invariant
            start <= 100,
            rem@.len() == 100,
            hist@.len() == 101,
            tallying(cells, rem@, found, hist@, start as int),
        decreases 100 - start,
    {
        if rem[start] {
            let ghost before = rem@;
            proof {
                lemma_tally_before_flood(cells, rem@, found, hist@, start as int, 0);
            }
            let size: u8 = flood(&mut rem, start, Ghost(cells));
            proof {
                lemma_tally_grows(cells, before, rem@, found, hist@, start as int);
                found = found.push(ship_of(cells, cell_at(start as int)));
            }
            let seen: u8 = hist[size as usize];
            hist.set(size as usize, seen + 1);
        } else {
            proof {
                lemma_tally_skips(cells, rem@, found, hist@, start as int);
            }
        }
        start = start + 1;
    }
    proof {
        lemma_tally_done(cells, rem@, found, hist@);
    }
    hist
}

/// How many ships of `size` cells a complete fleet has.
fn expected_ships(size: usize) -> (n: u8)
    ensures
        n == fleet_count(size as nat),
{
    if size == 1 || size == 2 {
        2
    } else if size == 3 || size == 4 || size == 5 {
        1
    } else {
        0
    }
}

/// Marks the listed cells on an empty grid, or reports the first cell that
/// is off the board or listed twice.
fn place(fleet: &[Cell]) -> (r: Result<Vec<bool>, FleetError>)
    ensures
        match r {
            Ok(grid) => {
                &&& !(exists|i: int| first_misplaced(fleet@, i))
                &&& grid@.len() == 100
                &&& forall|c: Cell| fleet@.to_set().contains(c) ==> in_bounds(c)
                &&& forall|i: int|
                    0 <= i < 100 ==> #[trigger] grid@[i] == fleet@.to_set().contains(cell_at(i))
            },
            Err(e) => (exists|i: int| first_misplaced(fleet@, i)) && fleet_fault(fleet@) == Some(e),
        },
{
    let mut grid: Vec<bool> = Vec::new();
    let mut k: usize = 0;
    while k < 100
        invariant
            k <= 100,
            grid@.len() == k,
            forall|i: int| 0 <= i < k ==> !#[trigger] grid@[i],
        decreases 100 - k,
    {
        grid.push(false);
        k = k + 1;
    }
    let mut n: usize = 0;
    while n < fleet.len()
        invariant
            n <= fleet@.len(),
            grid@.len() == 100,
            forall|j: int| 0 <= j < n ==> !misplaced(fleet@, j),
            forall|i: int|
                0 <= i < 100 ==> #[trigger] grid@[i] == (exists|j: int|
                    0 <= j < n && fleet@[j] == cell_at(i)),
        decreases fleet@.len() - n,
    {
        let c: Cell = fleet[n];
        if c.0 >= 10 || c.1 >= 10 {
            proof {
                assert(misplaced(fleet@, n as int));
                lemma_first_misplaced_decides(fleet@, n as int);
            }
            return Err(FleetError::OutOfBounds { x: c.0, y: c.1 });
        }
        let p: usize = c.1 as usize * 10 + c.0 as usize;
        proof {
            lemma_index_roundtrip(c);
        }
        if grid[p] {
            proof {
                let j = choose|j: int| 0 <= j < n && fleet@[j] == cell_at(p as int);
                assert(fleet@[j] == fleet@[n as int]);
                assert(misplaced(fleet@, n as int));
                lemma_first_misplaced_decides(fleet@, n as int);
            }
            return Err(FleetError::Overlap { x: c.0, y: c.1 });
        }
        let ghost before = grid@;
        grid.set(p, true);
        proof {
            assert(!misplaced(fleet@, n as int)) by {
                if exists|j: int| 0 <= j < n && fleet@[j] == fleet@[n as int] {
                    let j = choose|j: int| 0 <= j < n && fleet@[j] == fleet@[n as int];
                    assert(fleet@[j] == cell_at(p as int));
                    assert(before[p as int]);
                }
            }
            assert forall|i: int| 0 <= i < 100 implies #[trigger] grid@[i] == (exists|j: int|
                0 <= j < n + 1 && fleet@[j] == cell_at(i)) by {
                if i == p {
                    assert(fleet@[n as int] == cell_at(i));
                } else {
                    lemma_cells_differ(i, p as int);
                    if before[i] {
                        let j = choose|j: int| 0 <= j < n && fleet@[j] == cell_at(i);
                        assert(0 <= j < n + 1 && fleet@[j] == cell_at(i));
                    }
                    if exists|j: int| 0 <= j < n + 1 && fleet@[j] == cell_at(i) {
                        let j = choose|j: int| 0 <= j < n + 1 && fleet@[j] == cell_at(i);
                        assert(j != n);
                        assert(0 <= j < n && fleet@[j] == cell_at(i));
                    }
                }
            }
        }
        n = n + 1;
    }
    proof {
        assert(!(exists|i: int| first_misplaced(fleet@, i)));
        assert forall|c: Cell| fleet@.to_set().contains(c) implies in_bounds(c) by {
            let j = choose|j: int| 0 <= j < fleet@.len() && fleet@[j] == c;
            assert(!misplaced(fleet@, j));
        }
        assert forall|i: int| 0 <= i < 100 implies #[trigger] grid@[i] == fleet@.to_set().contains(
            cell_at(i),
        ) by {
            if grid@[i] {
                let j = choose|j: int| 0 <= j < n && fleet@[j] == cell_at(i);
                assert(fleet@.contains(cell_at(i)));
            }
            if fleet@.to_set().contains(cell_at(i)) {
                let j = choose|j: int| 0 <= j < fleet@.len() && fleet@[j] == cell_at(i);
                assert(0 <= j < n && fleet@[j] == cell_at(i));
            }
        }
    }
    Ok(grid)
}

/// The first misplaced cell of a list is the one that the verdict names.
proof fn lemma_first_misplaced_decides(fleet: Seq<Cell>, i: int)
    requires
        first_misplaced(fleet, i),
    ensures
        exists|k: int| first_misplaced(fleet, k),
        fleet_fault(fleet) == Some(
            if !in_bounds(fleet[i]) {
                FleetError::OutOfBounds { x: fleet[i].0, y: fleet[i].1 }
            } else {
                FleetError::Overlap { x: fleet[i].0, y: fleet[i].1 }
            },
        ),
{
    let k = choose|k: int| first_misplaced(fleet, k);
    assert(k == i) by {
        if k < i {
            assert(!misplaced(fleet, k));
        }
        if i < k {
            assert(!misplaced(fleet, i));
        }
    }
}

/// Decides whether a list of occupied cells is a legal fleet.
///
/// The first cell that lies off the board or repeats an earlier cell is
/// reported. Otherwise the cells are grouped into ships, a ship being a
/// maximal group of cells joined by horizontal and vertical steps, and the
/// layout is accepted exactly when the ships have the sizes 5, 4, 3, 2, 2,
/// 1 and 1.
pub fn validar_frota(fleet: &[Cell]) -> (r: Result<(), FleetError>)
    ensures
        r is Ok <==> legal_fleet(fleet@),
        match r {
            Ok(_) => fleet_fault(fleet@) is None,
            Err(e) => fleet_fault(fleet@) == Some(e),
        },
{
    proof {
        lemma_fault_free_is_legal(fleet@);
    }
    let grid = match place(fleet) {
        Ok(grid) => grid,
        Err(e) => {
            return Err(e);
        },
    };
    let ghost cells = fleet@.to_set();
    let hist = tally(grid, Ghost(cells));
    let mut size: usize = 0;
    while size <= 100
        invariant
            size <= 101,
            hist@.len() == 101,
            cells == fleet@.to_set(),
            !(exists|i: int| first_misplaced(fleet@, i)),
            fleet_fault(fleet@) is None <==> legal_fleet(fleet@),
            forall|k: int| 0 <= k < size ==> #[trigger] hist@[k] == fleet_count(k as nat),
            forall|k: nat|
                #![trigger ships_sized(cells, k)]
                ships_sized(cells, k).finite() && ships_sized(cells, k).len() == (if k <= 100 {
                    hist@[k as int] as nat
                } else {
                    0nat
                }),
        decreases 101 - size,
    {
        if hist[size] != expected_ships(size) {
            proof {
                assert(ships_sized(cells, size as nat).len() != fleet_count(size as nat));
                assert(!legal_composition(cells));
            }
            return Err(FleetError::WrongComposition);
        }
        size = size + 1;
    }
    proof {
        assert forall|k: nat| #![trigger ships_sized(cells, k)]
            ships_sized(cells, k).finite() && ships_sized(cells, k).len() == fleet_count(k) by {
            if k <= 100 {
                assert(hist@[k as int] == fleet_count(k));
            }
        }
        assert(legal_composition(cells));
    }
    Ok(())
}

/// A ship laid in a straight line: `len` cells that start at column `x`
/// and row `y` and run to the right if `across`, downwards otherwise.
pub struct Placement {
    pub x: int,
    pub y: int,
    pub len: int,
    pub across: bool,
}

impl Placement {
    /// The cell `k` steps from the start of the ship.
    pub open spec fn cell(self, k: int) -> Cell {
        if self.across {
            ((self.x + k) as u8, self.y as u8)
        } else {
            (self.x as u8, (self.y + k) as u8)
        }
    }

    /// The cells of the ship.
    pub open spec fn cells(self) -> Set<Cell> {
        Set::new(|c: Cell| exists|k: int| 0 <= k < self.len && c == #[trigger] self.cell(k))
    }

    /// Whether the ship has at least one cell and lies on the board.
    pub open spec fn on_board(self) -> bool {
        &&& self.len >= 1
        &&& 0 <= self.x
        &&& 0 <= self.y
        &&& if self.across {
            self.x + self.len <= 10 && self.y < 10
        } else {
            self.x < 10 && self.y + self.len <= 10
        }
    }
}

/// Whether two ships neither share a cell nor touch side by side or end
/// to end.
pub open spec fn apart(a: Placement, b: Placement) -> bool {
    forall|c: Cell, d: Cell|
        #![trigger a.cells().contains(c), b.cells().contains(d)]
        a.cells().contains(c) && b.cells().contains(d) ==> c != d && !adjacent(c, d)
}

/// The sizes of the ships of a complete fleet, largest first.
pub open spec fn fleet_sizes() -> Seq<int> {
    seq![5, 4, 3, 2, 2, 1, 1]
}

/// Whether the ships are a complete fleet, largest ship first, laid on the
/// board apart from each other.
pub open spec fn placed_fleet(ships: Seq<Placement>) -> bool {
    &&& ships.len() == 7
    &&& forall|i: int|
        0 <= i < 7 ==> (#[trigger] ships[i]).on_board() && ships[i].len == fleet_sizes()[i]
    &&& forall|i: int, j: int| 0 <= i < 7 && 0 <= j < 7 && i != j ==> apart(ships[i], ships[j])
}

/// Whether the cell belongs to one of the ships.
pub open spec fn covered(ships: Seq<Placement>, c: Cell) -> bool {
    exists|i: int| 0 <= i < ships.len() && (#[trigger] ships[i]).cells().contains(c)
}

proof fn lemma_placement_connected(cells: Set<Cell>, p: Placement, k: int)
    requires
        p.on_board(),
        0 <= k < p.len,
        p.cells().subset_of(cells),
    ensures
        connected(cells, p.cell(0), p.cell(k)),
    decreases k,
{
    assert(p.cells().contains(p.cell(0)));
    if k == 0 {
        lemma_connected_refl(cells, p.cell(0));
    } else {
        lemma_placement_connected(cells, p, k - 1);
        assert(p.cells().contains(p.cell(k)));
        lemma_connected_step(cells, p.cell(0), p.cell(k - 1), p.cell(k));
    }
}

/// The first `k` cells of a placed ship are `k` different cells.
proof fn lemma_placement_prefix(p: Placement, k: int)
    requires
        p.on_board(),
        0 <= k <= p.len,
    ensures
        Set::new(|c: Cell| exists|j: int| 0 <= j < k && c == #[trigger] p.cell(j)).finite(),
        Set::new(|c: Cell| exists|j: int| 0 <= j < k && c == #[trigger] p.cell(j)).len() == k,
    decreases k,
{
    let now = Set::new(|c: Cell| exists|j: int| 0 <= j < k && c == #[trigger] p.cell(j));
    if k == 0 {
        assert(now =~= Set::empty());
    } else {
        lemma_placement_prefix(p, k - 1);
        let prev = Set::new(|c: Cell| exists|j: int| 0 <= j < k - 1 && c == #[trigger] p.cell(j));
        assert(!prev.contains(p.cell(k - 1))) by {
            if prev.contains(p.cell(k - 1)) {
                let j = choose|j: int| 0 <= j < k - 1 && p.cell(k - 1) == #[trigger] p.cell(j);
                assert(p.cell(j) != p.cell(k - 1));
            }
        }
        assert forall|c: Cell| now.contains(c) implies prev.insert(p.cell(k - 1)).contains(c) by {
            let j = choose|j: int| 0 <= j < k && c == #[trigger] p.cell(j);
            if j < k - 1 {
                assert(prev.contains(c));
            }
        }
        assert forall|c: Cell| prev.insert(p.cell(k - 1)).contains(c) implies now.contains(c) by {
            if prev.contains(c) {
                let j = choose|j: int| 0 <= j < k - 1 && c == #[trigger] p.cell(j);
                assert(0 <= j < k && c == p.cell(j));
            } else {
                assert(c == p.cell(k - 1));
            }
        }
        assert(now =~= prev.insert(p.cell(k - 1)));
    }
}

/// In a fleet of ships laid apart, each ship is one ship of the layout,
/// of its own size.
proof fn lemma_placement_is_ship(cells: Set<Cell>, ships: Seq<Placement>, i: int)
    requires
        placed_fleet(ships),
        forall|c: Cell| cells.contains(c) <==> covered(ships, c),
        0 <= i < 7,
    ensures
        ships[i].cells() == ship_of(cells, ships[i].cell(0)),
        cells.contains(ships[i].cell(0)),
        ships[i].cells().finite(),
        ships[i].cells().len() == ships[i].len,
{
    let p = ships[i];
    let own = p.cells();
    assert(own.contains(p.cell(0)));
    assert forall|c: Cell| own.contains(c) implies cells.contains(c) by {
        assert(covered(ships, c));
    }
    assert forall|a: Cell, b: Cell|
        own.contains(a) && cells.contains(b) && #[trigger] adjacent(a, b) implies own.contains(
        b,
    ) by {
        assert(covered(ships, b));
        let j = choose|j: int| 0 <= j < ships.len() && (#[trigger] ships[j]).cells().contains(b);
        if j != i {
            assert(apart(ships[i], ships[j]));
            assert(ships[i].cells().contains(a) && ships[j].cells().contains(b));
        }
    }
    lemma_closed_holds_ship(cells, own, p.cell(0));
    assert forall|c: Cell| own.contains(c) implies ship_of(cells, p.cell(0)).contains(c) by {
        let k = choose|k: int| 0 <= k < p.len && c == #[trigger] p.cell(k);
        lemma_placement_connected(cells, p, k);
    }
    assert(own =~= ship_of(cells, p.cell(0)));
    lemma_placement_prefix(p, p.len);
    assert(own =~= Set::new(|c: Cell| exists|j: int| 0 <= j < p.len && c == #[trigger] p.cell(j)));
}

proof fn lemma_count_sized_next(found: Seq<Set<Cell>>, n: int, size: nat)
    requires
        0 <= n < found.len(),
    ensures
        count_sized(found.subrange(0, n + 1), size) == count_sized(found.subrange(0, n), size) + (
        if found[n].len() == size {
            1nat
        } else {
            0nat
        }),
{
    let more = found.subrange(0, n + 1);
    assert(more.drop_last() =~= found.subrange(0, n));
    assert(more.last() == found[n]);
}

/// A complete fleet of straight ships, laid on the board so that no two
/// ships share a cell or touch side by side or end to end, is a legal
/// fleet in whatever order its cells are listed.
pub proof fn law_placed_fleet_is_legal(ships: Seq<Placement>, fleet: Seq<Cell>)
    requires
        placed_fleet(ships),
        fleet.no_duplicates(),
        forall|c: Cell| fleet.contains(c) <==> covered(ships, c),
    ensures
        legal_fleet(fleet),
        fleet_fault(fleet) is None,
{
    let cells = fleet.to_set();
    assert forall|c: Cell| cells.contains(c) <==> covered(ships, c) by {}
    let found = Seq::new(7, |i: int| ships[i].cells());
    assert forall|i: int| 0 <= i < 7 implies (#[trigger] found[i]) == ship_of(
        cells,
        ships[i].cell(0),
    ) && cells.contains(ships[i].cell(0)) && found[i].finite() && found[i].len()
        == fleet_sizes()[i] by {
        lemma_placement_is_ship(cells, ships, i);
    }
    assert forall|i: int, j: int| 0 <= i < j < found.len() implies found[i] != found[j] by {
        assert(ships[i].cells().contains(ships[i].cell(0)));
        assert(ships[j].cells().contains(ships[i].cell(0)) ==> false) by {
            if ships[j].cells().contains(ships[i].cell(0)) {
                assert(apart(ships[i], ships[j]));
            }
        }
    }
    assert forall|size: nat| #![trigger ships_sized(cells, size)]
        ships_sized(cells, size).finite() && ships_sized(cells, size).len() == fleet_count(
            size,
        ) by {
        lemma_picked_len(found, size);
        assert forall|ship: Set<Cell>| ships_sized(cells, size).contains(ship) implies picked(
            found,
            size,
        ).contains(ship) by {
            let a = choose|a: Cell| cells.contains(a) && ship == #[trigger] ship_of(cells, a);
            assert(covered(ships, a));
            let j = choose|j: int| 0 <= j < ships.len() && (#[trigger] ships[j]).cells().contains(a);
            assert(found[j].contains(a));
            lemma_same_ship(cells, ships[j].cell(0), a);
            assert(found[j] == ship);
        }
        assert forall|ship: Set<Cell>| picked(found, size).contains(ship) implies ships_sized(
            cells,
            size,
        ).contains(ship) by {
            let j = choose|j: int|
                0 <= j < found.len() && #[trigger] found[j] == ship && ship.len() == size;
            assert(ship == ship_of(cells, ships[j].cell(0)));
        }
        assert(ships_sized(cells, size) =~= picked(found, size));
        assert(found.subrange(0, 0) =~= Seq::<Set<Cell>>::empty());
        lemma_count_sized_next(found, 0, size);
        lemma_count_sized_next(found, 1, size);
        lemma_count_sized_next(found, 2, size);
        lemma_count_sized_next(found, 3, size);
        lemma_count_sized_next(found, 4, size);
        lemma_count_sized_next(found, 5, size);
        lemma_count_sized_next(found, 6, size);
        assert(found.subrange(0, 7) =~= found);
        assert(found[0].len() == 5 && found[1].len() == 4 && found[2].len() == 3 && found[3].len()
            == 2 && found[4].len() == 2 && found[5].len() == 1 && found[6].len() == 1);
    }
    assert(legal_composition(cells));
    assert forall|i: int| 0 <= i < fleet.len() implies in_bounds(#[trigger] fleet[i]) by {
        assert(fleet.contains(fleet[i]));
        assert(covered(ships, fleet[i]));
        let j = choose|j: int|
            0 <= j < ships.len() && (#[trigger] ships[j]).cells().contains(fleet[i]);
        let k = choose|k: int| 0 <= k < ships[j].len && fleet[i] == #[trigger] ships[j].cell(k);
        assert(ships[j].on_board());
    }
    lemma_fault_free_is_legal(fleet);
}

} // verus!
