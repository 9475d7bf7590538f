//! The guard patrol: a watchman walks a grid of blocked and open cells,
//! stepping forward when the next cell is free and turning clockwise when
//! it is blocked, until a step would leave the grid.
//!
//! The walk is specified by small step functions over the grid's cell
//! buffer, and the two simulations — counting distinct visited cells, and
//! detecting a closed patrol loop — are proved against them.

use crate::counting::{count_false, lemma_count_false_set_true};
use crate::grid_2d::{Coordinates, Grid};
use crate::{GenericError, GenericResult};
use vstd::prelude::*;

verus! {

/// A facing for the patrolling guard.
#[derive(Clone, Copy, Debug, PartialEq, Eq, Structural)]
pub enum Direction {
    Up,
    Down,
    Left,
    Right,
}

/// The clockwise turn.
pub open spec fn spec_turn_right(d: Direction) -> Direction {
    match d {
        Direction::Up => Direction::Right,
        Direction::Right => Direction::Down,
        Direction::Down => Direction::Left,
        Direction::Left => Direction::Up,
    }
}

/// The cell one step ahead of `c` when facing `d` (truncated at the
/// representable range, which the walk never reaches).
pub open spec fn spec_step(c: Coordinates, d: Direction) -> Coordinates {
    match d {
        Direction::Up => Coordinates { x: c.x, y: (c.y - 1) as i64 },
        Direction::Down => Coordinates { x: c.x, y: (c.y + 1) as i64 },
        Direction::Left => Coordinates { x: (c.x - 1) as i64, y: c.y },
        Direction::Right => Coordinates { x: (c.x + 1) as i64, y: c.y },
    }
}

/// A dense encoding of a facing, used to index per-direction bookkeeping.
pub open spec fn spec_dir_index(d: Direction) -> int {
    match d {
        Direction::Up => 0,
        Direction::Down => 1,
        Direction::Left => 2,
        Direction::Right => 3,
    }
}

/// Whether `c` lies inside the `w` by `h` rectangle.
pub open spec fn in_rect(w: int, h: int, c: Coordinates) -> bool {
    &&& 0 <= c.x < w
    &&& 0 <= c.y < h
}

/// The row-major buffer position of `c` in a grid of width `w`.
pub open spec fn cell_index(w: int, c: Coordinates) -> int {
    c.y * w + c.x
}

/// The bookkeeping slot of the state (cell, facing) when each of the
/// `cells` buffer positions has four per-facing slots.
pub open spec fn state_index(cells: int, w: int, c: Coordinates, d: Direction) -> int {
    cell_index(w, c) + cells * spec_dir_index(d)
}

/// Distinct in-rectangle coordinates occupy distinct buffer positions.
pub proof fn lemma_cell_index_injective(w: int, h: int, a: Coordinates, b: Coordinates)
    requires
        in_rect(w, h, a),
        in_rect(w, h, b),
        cell_index(w, a) == cell_index(w, b),
    ensures
        a == b,
{
    assert(a.y == b.y && a.x == b.x) by (nonlinear_arith)
        requires
            0 <= a.x < w,
            0 <= b.x < w,
            a.y * w + a.x == b.y * w + b.x,
    ;
}

/// An in-rectangle coordinate's buffer position lies inside a buffer of
/// length `w * h`.
pub proof fn lemma_cell_index_in_range(w: int, h: int, c: Coordinates)
    requires
        in_rect(w, h, c),
    ensures
        0 <= cell_index(w, c) < w * h,
{
    assert(0 <= c.y * w + c.x < w * h) by (nonlinear_arith)
        requires
            0 <= c.x < w,
            0 <= c.y < h,
    ;
}

/// Whether the guard leaves the grid within `fuel` moves or turns,
/// starting at `c` facing `d`, on the cell buffer `cells` of a `w` by
/// `h` grid.
pub open spec fn patrol_exits(
    cells: Seq<bool>,
    w: int,
    h: int,
    c: Coordinates,
    d: Direction,
    fuel: nat,
) -> bool
    decreases fuel,
{
    if fuel == 0 {
        false
    } else {
        let n = spec_step(c, d);
        if !in_rect(w, h, n) {
            true
        } else if cells[cell_index(w, n)] {
            patrol_exits(cells, w, h, c, spec_turn_right(d), (fuel - 1) as nat)
        } else {
            patrol_exits(cells, w, h, n, d, (fuel - 1) as nat)
        }
    }
}

/// The set of cells the guard stands on within `fuel` moves or turns
/// (the starting cell included).
pub open spec fn patrol_cells(
    cells: Seq<bool>,
    w: int,
    h: int,
    c: Coordinates,
    d: Direction,
    fuel: nat,
) -> Set<Coordinates>
    decreases fuel,
{
    if fuel == 0 {
        set!{c}
    } else {
        let n = spec_step(c, d);
        if !in_rect(w, h, n) {
            set!{c}
        } else if cells[cell_index(w, n)] {
            patrol_cells(cells, w, h, c, spec_turn_right(d), (fuel - 1) as nat).insert(c)
        } else {
            patrol_cells(cells, w, h, n, d, (fuel - 1) as nat).insert(c)
        }
    }
}

/// The walk's own cell is always among the visited cells.
proof fn lemma_patrol_cells_has_start(
    cells: Seq<bool>,
    w: int,
    h: int,
    c: Coordinates,
    d: Direction,
    fuel: nat,
)
    ensures
        patrol_cells(cells, w, h, c, d, fuel).contains(c),
    decreases fuel,
{
}

/// The simulation budget that makes the bounded walk exhaustive: one
/// step per (cell, facing) state, plus one.
pub open spec fn patrol_fuel(cells: nat) -> nat {
    4 * cells + 1
}

/// The clockwise turn.
pub fn turn_right(direction: &Direction) -> (r: Direction)
    ensures
        r == spec_turn_right(*direction),
{
    match direction {
        Direction::Up => Direction::Right,
        Direction::Right => Direction::Down,
        Direction::Down => Direction::Left,
        Direction::Left => Direction::Up,
    }
}

/// The coordinate one step ahead of `coordinate` when facing
/// `direction`.
pub fn coordinate_in_direction(coordinate: &Coordinates, direction: &Direction) -> (r: Coordinates)
    requires
        i64::MIN < coordinate.x < i64::MAX,
        i64::MIN < coordinate.y < i64::MAX,
    ensures
        r == spec_step(*coordinate, *direction),
{
    match direction {
        Direction::Up => Coordinates { x: coordinate.x, y: coordinate.y - 1 },
        Direction::Down => Coordinates { x: coordinate.x, y: coordinate.y + 1 },
        Direction::Left => Coordinates { x: coordinate.x - 1, y: coordinate.y },
        Direction::Right => Coordinates { x: coordinate.x + 1, y: coordinate.y },
    }
}

/// The dense encoding of a facing.
pub fn dir_index(direction: &Direction) -> (r: usize)
    ensures
        r == spec_dir_index(*direction),
{
    match direction {
        Direction::Up => 0,
        Direction::Down => 1,
        Direction::Left => 2,
        Direction::Right => 3,
    }
}

/// A size bound under which all the patrol bookkeeping arithmetic stays
/// comfortably inside the machine integer ranges.
pub open spec fn patrol_size_ok(g: Grid<bool>) -> bool {
    &&& g.wf()
    &&& g@.len() <= 0x1000_0000
    &&& g.spec_width() <= 0x1000_0000
}

/// Walks the patrol from `start` facing `facing` and counts the
/// distinct cells stood upon, the starting cell included.  Returns
/// `None` when the guard has not left the grid after one step per
/// (cell, facing) state — that is, exactly when the patrol never exits.
pub fn count_patrol_positions(grid: &Grid<bool>, start: Coordinates, facing: Direction) -> (r:
    Option<u64>)
    requires
        patrol_size_ok(*grid),
        grid.in_bounds(start),
    ensures
        r.is_some() == patrol_exits(
            grid@,
            grid.spec_width() as int,
            grid.spec_height() as int,
            start,
            facing,
            patrol_fuel(grid@.len()),
        ),
        r matches Some(n) ==> n == patrol_cells(
            grid@,
            grid.spec_width() as int,
            grid.spec_height() as int,
            start,
            facing,
            patrol_fuel(grid@.len()),
        ).len(),
{
    let ghost w = grid.spec_width() as int;
    let ghost h = grid.spec_height() as int;
    let cells = grid.num_cells();
    proof {
        crate::grid_2d::lemma_shape_consistent(*grid);
    }

    let mut visited: Vec<bool> = Vec::new();
    let mut filled: usize = 0;
    while filled < cells
        invariant
            visited@.len() == filled,
            filled <= cells,
            forall|k: int| 0 <= k < filled ==> !visited@[k],
        decreases cells - filled,
    {
        visited.push(false);
        filled = filled + 1;
    }

    proof {
        lemma_cell_index_in_range(w, h, start);
    }
    let start_index = (start.y as usize) * grid.num_columns() + (start.x as usize);
    visited[start_index] = true;

    let ghost mut collected: Set<Coordinates> = set!{start};
    let mut count: u64 = 1;
    let mut cur = start;
    let mut dir = facing;
    let mut fuel: u64 = 4 * (cells as u64) + 1;

    proof {
        assert(collected.finite());
        assert(collected.len() == 1) by {
            assert(collected =~= Set::empty().insert(start));
        }
        assert forall|c: Coordinates| in_rect(w, h, c) implies visited@[cell_index(w, c)]
            == collected.contains(c) by {
            lemma_cell_index_in_range(w, h, c);
            if cell_index(w, c) == cell_index(w, start) {
                lemma_cell_index_injective(w, h, c, start);
            }
        }
    }

    while fuel > 0
        invariant
            patrol_size_ok(*grid),
            w == grid.spec_width() as int,
            h == grid.spec_height() as int,
            cells == grid@.len(),
            w * h == cells,
            grid.in_bounds(cur),
            visited@.len() == cells,
            collected.finite(),
            count == collected.len(),
            count as int <= 1 + (4 * (cells as int) + 1 - fuel),
            fuel <= 4 * (cells as int) + 1,
            collected.contains(cur),
            forall|c: Coordinates| in_rect(w, h, c) ==> #[trigger] collected.contains(c)
                == visited@[cell_index(w, c)],
            forall|c: Coordinates| collected.contains(c) ==> in_rect(w, h, c),
            patrol_exits(grid@, w, h, start, facing, patrol_fuel(grid@.len())) == patrol_exits(
                grid@,
                w,
                h,
                cur,
                dir,
                fuel as nat,
            ),
            patrol_cells(grid@, w, h, start, facing, patrol_fuel(grid@.len())) =~= collected.union(
                patrol_cells(grid@, w, h, cur, dir, fuel as nat),
            ),
        decreases fuel,
    {
        let next = coordinate_in_direction(&cur, &dir);
        proof {
            lemma_patrol_cells_has_start(grid@, w, h, cur, spec_turn_right(dir), (fuel - 1) as nat);
            lemma_patrol_cells_has_start(grid@, w, h, next, dir, (fuel - 1) as nat);
        }
        match grid.get_value(next) {
            None => {
                proof {
                    assert(patrol_cells(grid@, w, h, cur, dir, fuel as nat) =~= set!{cur});
                    assert(patrol_cells(grid@, w, h, start, facing, patrol_fuel(grid@.len()))
                        =~= collected);
                }
                return Some(count);
            },
            Some(is_blocked) => {
                if *is_blocked {
                    dir = turn_right(&dir);
                } else {
                    cur = next;
                    proof {
                        lemma_cell_index_in_range(w, h, cur);
                    }
                    let cur_index = (cur.y as usize) * grid.num_columns() + (cur.x as usize);
                    if !visited[cur_index] {
                        visited[cur_index] = true;
                        count = count + 1;
                        proof {
                            collected = collected.insert(cur);
                            assert forall|c: Coordinates| in_rect(w, h, c) implies
                                #[trigger] collected.contains(c) == visited@[cell_index(w, c)] by {
                                lemma_cell_index_in_range(w, h, c);
                                if cell_index(w, c) == cell_index(w, cur) {
                                    lemma_cell_index_injective(w, h, c, cur);
                                }
                            }
                        }
                    }
                }
            },
        }
        fuel = fuel - 1;
    }
    None
}

/// Whether walking from `(c, d)` on the cell buffer, marking each
/// reached (cell, facing) state in `visited`, meets an already-marked
/// state before leaving the grid.  This is the exact meaning of the
/// bookkeeping the loop detector performs.
pub open spec fn loops_from(
    cells: Seq<bool>,
    w: int,
    h: int,
    c: Coordinates,
    d: Direction,
    visited: Seq<bool>,
) -> bool
    decreases count_false(visited),
    via loops_from_decreases
{
    let n = spec_step(c, d);
    if !in_rect(w, h, n) {
        false
    } else {
        let blocked = cells[cell_index(w, n)];
        let c2 = if blocked {
            c
        } else {
            n
        };
        let d2 = if blocked {
            spec_turn_right(d)
        } else {
            d
        };
        let si = state_index(cells.len() as int, w, c2, d2);
        if 0 <= si < visited.len() {
            if visited[si] {
                true
            } else {
                loops_from(cells, w, h, c2, d2, visited.update(si, true))
            }
        } else {
            true
        }
    }
}

#[via_fn]
proof fn loops_from_decreases(
    cells: Seq<bool>,
    w: int,
    h: int,
    c: Coordinates,
    d: Direction,
    visited: Seq<bool>,
) {
    let n = spec_step(c, d);
    if in_rect(w, h, n) {
        let blocked = cells[cell_index(w, n)];
        let c2 = if blocked {
            c
        } else {
            n
        };
        let d2 = if blocked {
            spec_turn_right(d)
        } else {
            d
        };
        let si = state_index(cells.len() as int, w, c2, d2);
        if 0 <= si < visited.len() && !visited[si] {
            lemma_count_false_set_true(visited, si);
        }
    }
}

/// Walks from `start_location` facing `start_facing`, marking each
/// reached (cell, facing) state in `visited`, and reports whether an
/// already-marked state is met before the guard leaves the grid — the
/// signature of a closed patrol loop (states seeded by the caller
/// count as already met).
pub fn does_infinite_loop(
    grid: &Grid<bool>,
    visited: Vec<bool>,
    start_location: Coordinates,
    start_facing: Direction,
) -> (r: bool)
    requires
        patrol_size_ok(*grid),
        grid.in_bounds(start_location),
        visited@.len() == 4 * grid@.len(),
    ensures
        r == loops_from(
            grid@,
            grid.spec_width() as int,
            grid.spec_height() as int,
            start_location,
            start_facing,
            visited@,
        ),
{
    let ghost w = grid.spec_width() as int;
    let ghost h = grid.spec_height() as int;
    let ghost visited0 = visited@;
    let cells = grid.num_cells();
    proof {
        crate::grid_2d::lemma_shape_consistent(*grid);
    }

    let mut visited = visited;
    let mut cur = start_location;
    let mut dir = start_facing;
    let mut outcome: Option<bool> = None;

    while outcome.is_none()
        invariant
            patrol_size_ok(*grid),
            w == grid.spec_width() as int,
            h == grid.spec_height() as int,
            cells == grid@.len(),
            w * h == cells,
            visited@.len() == 4 * cells,
            grid.in_bounds(cur),
            outcome is None ==> loops_from(grid@, w, h, start_location, start_facing, visited0)
                == loops_from(grid@, w, h, cur, dir, visited@),
            outcome matches Some(b) ==> b == loops_from(
                grid@,
                w,
                h,
                start_location,
                start_facing,
                visited0,
            ),
        decreases (if outcome is None { 1int } else { 0int }), count_false(visited@),
    {
        let next = coordinate_in_direction(&cur, &dir);
        match grid.get_value(next) {
            None => {
                outcome = Some(false);
            },
            Some(is_blocked) => {
                if *is_blocked {
                    dir = turn_right(&dir);
                } else {
                    cur = next;
                }
                proof {
                    lemma_cell_index_in_range(w, h, cur);
                    assert(0 <= spec_dir_index(dir) <= 3);
                    assert(cells * spec_dir_index(dir) <= 3 * cells) by (nonlinear_arith)
                        requires
                            0 <= spec_dir_index(dir) <= 3,
                            cells >= 0,
                    ;
                    assert(cell_index(w, cur) + cells * spec_dir_index(dir) < 4 * cells);
                }
                let state = (cur.y as usize) * grid.num_columns() + (cur.x as usize) + cells
                    * dir_index(&dir);
                if visited[state] {
                    outcome = Some(true);
                } else {
                    proof {
                        lemma_count_false_set_true(visited@, state as int);
                    }
                    visited[state] = true;
                }
            },
        }
    }
    match outcome {
        Some(b) => b,
        None => false,
    }
}

/// An exact copy of a flag buffer.
fn copy_flags(v: &Vec<bool>) -> (r: Vec<bool>)
    ensures
        r@ == v@,
{
    let mut out: Vec<bool> = Vec::new();
    let mut i: usize = 0;
    while i < v.len()
        invariant
            i <= v@.len(),
            out@ =~= v@.take(i as int),
        decreases v@.len() - i,
    {
        out.push(v[i]);
        i = i + 1;
    }
    proof {
        assert(v@.take(v@.len() as int) =~= v@);
    }
    out
}

/// Whether the coordinate already occurs in the list.
fn coords_contains(v: &Vec<Coordinates>, c: Coordinates) -> (r: bool)
    ensures
        r == v@.contains(c),
{
    let mut i: usize = 0;
    while i < v.len()
        invariant
            i <= v@.len(),
            forall|k: int| 0 <= k < i ==> v@[k] != c,
        decreases v@.len() - i,
    {
        if v[i] == c {
            return true;
        }
        i = i + 1;
    }
    false
}

/// The per-state bookkeeping at the start of a patrol: every slot clear
/// but the one for the guard's own starting state.
pub open spec fn initial_patrol_states(
    cells: nat,
    w: int,
    start: Coordinates,
    facing: Direction,
) -> Seq<bool> {
    Seq::new(4 * cells, |i: int| false).update(
        state_index(cells as int, w, start, facing),
        true,
    )
}

/// The exact meaning of the obstruction hunt: walk the patrol, and at
/// every forward step onto a cell never stood upon in any facing, test
/// whether blocking that cell would close the patrol into a loop; a
/// cell that would is recorded once.  `None` means the walk itself
/// never left the grid within its budget.
pub open spec fn obstruction_search(
    cells: Seq<bool>,
    w: int,
    h: int,
    c: Coordinates,
    d: Direction,
    visited: Seq<bool>,
    found: Seq<Coordinates>,
    fuel: nat,
) -> Option<Seq<Coordinates>>
    decreases fuel,
{
    if fuel == 0 {
        None
    } else {
        let len = cells.len() as int;
        let n = spec_step(c, d);
        if !in_rect(w, h, n) {
            Some(found)
        } else if cells[cell_index(w, n)] {
            let d2 = spec_turn_right(d);
            obstruction_search(
                cells,
                w,
                h,
                c,
                d2,
                visited.update(state_index(len, w, c, d2), true),
                found,
                (fuel - 1) as nat,
            )
        } else {
            let ci = cell_index(w, n);
            let seen_any = visited[ci] || visited[ci + len] || visited[ci + 2 * len] || visited[ci
                + 3 * len];
            let closes_loop = loops_from(
                cells.update(ci, true),
                w,
                h,
                c,
                spec_turn_right(d),
                visited,
            );
            let found2 = if !seen_any && closes_loop && !found.contains(n) {
                found.push(n)
            } else {
                found
            };
            obstruction_search(
                cells,
                w,
                h,
                n,
                d,
                visited.update(state_index(len, w, n, d), true),
                found2,
                (fuel - 1) as nat,
            )
        }
    }
}

/// The outcome of the obstruction hunt on a grid, from the guard's
/// starting state, with the exhaustive budget.
pub open spec fn obstruction_outcome(
    g: Grid<bool>,
    start: Coordinates,
    facing: Direction,
) -> Option<Seq<Coordinates>> {
    obstruction_search(
        g@,
        g.spec_width() as int,
        g.spec_height() as int,
        start,
        facing,
        initial_patrol_states(g@.len(), g.spec_width() as int, start, facing),
        Seq::empty(),
        patrol_fuel(g@.len()),
    )
}

/// Counts the open cells that, if blocked, would close the guard's
/// patrol into a loop — testing, at each forward step onto a cell not
/// yet stood upon, a hypothetical blockage of that cell.  Returns
/// `None` when the unobstructed walk itself never leaves the grid
/// within its exhaustive budget.
#[verifier::rlimit(100)]
pub fn count_loop_obstructions(grid: Grid<bool>, start: Coordinates, facing: Direction) -> (r:
    Option<u64>)
    requires
        patrol_size_ok(grid),
        grid.in_bounds(start),
    ensures
        r.is_some() == obstruction_outcome(grid, start, facing).is_some(),
        r matches Some(n) ==> obstruction_outcome(grid, start, facing) matches Some(s) && n
            == s.len(),
{
    let ghost g0 = grid;
    let ghost w = grid.spec_width() as int;
    let ghost h = grid.spec_height() as int;
    let mut grid = grid;
    let cells = grid.num_cells();
    proof {
        crate::grid_2d::lemma_shape_consistent(grid);
    }

    let total_states: usize = 4 * cells;
    let mut visited: Vec<bool> = Vec::new();
    let mut filled: usize = 0;
    while filled < total_states
        invariant
            visited@.len() == filled,
            filled <= total_states,
            forall|k: int| 0 <= k < filled ==> !visited@[k],
        decreases total_states - filled,
    {
        visited.push(false);
        filled = filled + 1;
    }

    proof {
        lemma_cell_index_in_range(w, h, start);
        assert(cell_index(w, start) + cells * spec_dir_index(facing) < 4 * cells);
    }
    let start_state = (start.y as usize) * grid.num_columns() + (start.x as usize) + cells
        * dir_index(&facing);
    visited[start_state] = true;
    proof {
        assert(visited@ =~= initial_patrol_states(cells as nat, w, start, facing));
    }

    let mut found: Vec<Coordinates> = Vec::new();
    let mut cur = start;
    let mut dir = facing;
    let mut fuel: u64 = 4 * (cells as u64) + 1;

    #[verifier::loop_isolation(false)]
    while fuel > 0
        invariant
            grid@ =~= g0@,
            grid.spec_width() == g0.spec_width(),
            patrol_size_ok(grid),
            w == grid.spec_width() as int,
            h == grid.spec_height() as int,
            cells == grid@.len(),
            w * h == cells,
            grid.in_bounds(cur),
            visited@.len() == 4 * cells,
            fuel <= 4 * (cells as int) + 1,
            found@.len() as int <= 4 * (cells as int) + 1 - fuel,
            obstruction_outcome(g0, start, facing) == obstruction_search(
                g0@,
                w,
                h,
                cur,
                dir,
                visited@,
                found@,
                fuel as nat,
            ),
        decreases fuel,
    {
        let next = coordinate_in_direction(&cur, &dir);
        match grid.get_value(next) {
            None => {
                return Some(found.len() as u64);
            },
            Some(is_blocked) => {
                if *is_blocked {
                    dir = turn_right(&dir);
                    proof {
                        lemma_cell_index_in_range(w, h, cur);
                        assert(0 <= spec_dir_index(dir) <= 3);
                        assert(cells * spec_dir_index(dir) <= 3 * cells) by (nonlinear_arith)
                            requires
                                0 <= spec_dir_index(dir) <= 3,
                                cells >= 0,
                        ;
                        assert(cell_index(w, cur) + cells * spec_dir_index(dir) < 4 * cells);
                    }
                    let state = (cur.y as usize) * grid.num_columns() + (cur.x as usize) + cells
                        * dir_index(&dir);
                    visited[state] = true;
                } else {
                    proof {
                        lemma_cell_index_in_range(w, h, next);
                    }
                    let ci = (next.y as usize) * grid.num_columns() + (next.x as usize);
                    let seen_any = visited[ci] || visited[ci + cells] || visited[ci + 2 * cells]
                        || visited[ci + 3 * cells];
                    if !seen_any {
                        let right_direction = turn_right(&dir);
                        grid.set_value(next, true);
                        let trail = copy_flags(&visited);
                        let closes_loop = does_infinite_loop(&grid, trail, cur, right_direction);
                        grid.set_value(next, false);
                        proof {
                            assert(grid@ =~= g0@);
                        }
                        if closes_loop && !coords_contains(&found, next) {
                            found.push(next);
                        }
                    }
                    cur = next;
                    proof {
                        assert(cell_index(w, cur) + cells * spec_dir_index(dir) < 4 * cells);
                    }
                    let state = ci + cells * dir_index(&dir);
                    visited[state] = true;
                }
            },
        }
        fuel = fuel - 1;
    }
    None
}

/// Whether the byte marks the guard's starting cell (and encodes its
/// facing).
pub open spec fn is_marker_byte(b: u8) -> bool {
    b == 94 || b == 118 || b == 60 || b == 62
}

/// The facing a marker byte encodes.
pub open spec fn facing_of_byte(b: u8) -> Direction {
    if b == 94 {
        Direction::Up
    } else if b == 118 {
        Direction::Down
    } else if b == 60 {
        Direction::Left
    } else {
        Direction::Right
    }
}

/// The bytes a patrol map may contain: open, blocked, or a guard
/// marker.
pub open spec fn valid_map_byte(b: u8) -> bool {
    b == 46 || b == 35 || is_marker_byte(b)
}

/// Every line is as long as the first.
pub open spec fn map_rectangular(lines: Seq<Vec<u8>>) -> bool {
    forall|y: int| 0 <= y < lines.len() ==> (#[trigger] lines[y])@.len() == lines[0]@.len()
}

/// Every byte is a legal map byte.
pub open spec fn map_bytes_valid(lines: Seq<Vec<u8>>) -> bool {
    forall|y: int, x: int|
        0 <= y < lines.len() && 0 <= x < lines[y]@.len() ==> valid_map_byte(#[trigger] lines[y]@[x])
}

/// A guard marker stands at column `x` of line `y`.
pub open spec fn marker_at(lines: Seq<Vec<u8>>, x: int, y: int) -> bool {
    0 <= y < lines.len() && 0 <= x < lines[y]@.len() && is_marker_byte(lines[y]@[x])
}

/// Some guard marker occurs somewhere in the map.
pub open spec fn map_has_marker(lines: Seq<Vec<u8>>) -> bool {
    exists|y: int, x: int| marker_at(lines, x, y)
}

/// A loadable map: non-empty, rectangular, legal bytes, and a guard
/// somewhere.
pub open spec fn map_ok(lines: Seq<Vec<u8>>) -> bool {
    &&& lines.len() > 0
    &&& lines[0]@.len() > 0
    &&& map_rectangular(lines)
    &&& map_bytes_valid(lines)
    &&& map_has_marker(lines)
}

/// The machine limit on map sizes accepted by the loader.
pub open spec fn map_size_ok(lines: Seq<Vec<u8>>) -> bool {
    &&& lines.len() * lines[0]@.len() <= 0x1000_0000
    &&& lines[0]@.len() <= 0x1000_0000
}

/// `c` is the last guard marker of the map in row-major order.
pub open spec fn last_marker(lines: Seq<Vec<u8>>, c: Coordinates) -> bool {
    &&& marker_at(lines, c.x as int, c.y as int)
    &&& forall|y: int, x: int|
        marker_at(lines, x, y) ==> (y < c.y || (y == c.y && x <= c.x))
}

/// Reads a rectangular block of map text into a grid of blocked flags,
/// together with the guard's starting cell and facing (the last marker
/// in row-major order, should several occur).  Fails on an empty
/// block, a first line of width zero, ragged lines, a byte outside the
/// map alphabet, a missing guard, or a map over the size limit.
#[verifier::rlimit(100)]
pub fn parse_patrol_map(lines: &Vec<Vec<u8>>) -> (r: GenericResult<
    (Grid<bool>, Coordinates, Direction),
>)
    ensures
        r.is_ok() == (map_ok(lines@) && map_size_ok(lines@)),
        r matches Ok(t) ==> ({
            &&& t.0.wf()
            &&& patrol_size_ok(t.0)
            &&& t.0.spec_width() == lines@[0]@.len()
            &&& t.0.spec_height() == lines@.len()
            &&& forall|c: Coordinates|
                t.0.in_bounds(c) ==> t.0@[cell_index(t.0.spec_width() as int, c)] == (
                lines@[c.y as int]@[c.x as int] == 35)
            &&& t.0.in_bounds(t.1)
            &&& last_marker(lines@, t.1)
            &&& t.2 == facing_of_byte(lines@[t.1.y as int]@[t.1.x as int])
        }),
{
    if lines.len() == 0 {
        return Err(GenericError::BasicError("Failed to get first line".to_string()));
    }
    let width = lines[0].len();
    if width == 0 {
        return Err(GenericError::BasicError("Failed to get first line".to_string()));
    }
    let height = lines.len();
    if width > 0x1000_0000 {
        return Err(GenericError::BasicError("Map is too large".to_string()));
    }
    let cell_count = match width.checked_mul(height) {
        Some(n) => n,
        None => {
            return Err(GenericError::BasicError("Map is too large".to_string()));
        },
    };
    if cell_count > 0x1000_0000 {
        return Err(GenericError::BasicError("Map is too large".to_string()));
    }
    proof {
        assert(height <= 0x1000_0000) by (nonlinear_arith)
            requires
                width >= 1,
                width * height <= 0x1000_0000,
                height >= 0,
        ;
    }

    let ghost w = width as int;
    let mut grid: Grid<bool> = Grid::new(width, height, false);
    let mut best: Option<(Coordinates, Direction)> = None;

    proof {
        assert forall|c: Coordinates| grid.in_bounds(c) implies grid@[cell_index(w, c)]
            == false by {
            lemma_cell_index_in_range(w, height as int, c);
        }
    }

    let mut y: usize = 0;
    #[verifier::loop_isolation(false)]
    while y < height
        invariant
            grid.wf(),
            grid.spec_width() == width,
            grid@.len() == width * height,
            grid.spec_height() == height,
            y <= height,
            forall|yp: int| 0 <= yp < y ==> (#[trigger] lines@[yp])@.len() == width,
            forall|yp: int, xp: int|
                0 <= yp < y && 0 <= xp < lines@[yp]@.len() ==> valid_map_byte(
                    #[trigger] lines@[yp]@[xp],
                ),
            forall|c: Coordinates|
                grid.in_bounds(c) && c.y < y ==> grid@[cell_index(w, c)] == (
                lines@[c.y as int]@[c.x as int] == 35),
            forall|c: Coordinates|
                grid.in_bounds(c) && c.y >= y ==> grid@[cell_index(w, c)] == false,
            best is None ==> forall|yp: int, xp: int|
                marker_at(lines@, xp, yp) ==> yp >= y,
            best matches Some(t) ==> ({
                &&& marker_at(lines@, t.0.x as int, t.0.y as int)
                &&& 0 <= t.0.y < y
                &&& 0 <= t.0.x < width
                &&& t.1 == facing_of_byte(lines@[t.0.y as int]@[t.0.x as int])
                &&& forall|yp: int, xp: int|
                    marker_at(lines@, xp, yp) && yp < y ==> (yp < t.0.y || (yp == t.0.y && xp
                        <= t.0.x))
            }),
        decreases height - y,
    {
        if lines[y].len() != width {
            return Err(GenericError::BasicError("Map lines are not all the same width".to_string()));
        }
        let mut x: usize = 0;
        #[verifier::loop_isolation(false)]
        while x < width
            invariant
                x <= width,
                lines@[y as int]@.len() == width,
                grid.wf(),
                grid.spec_width() == width,
                grid@.len() == width * height,
                grid.spec_height() == height,
                forall|xp: int| 0 <= xp < x ==> valid_map_byte(#[trigger] lines@[y as int]@[xp]),
                forall|c: Coordinates|
                    grid.in_bounds(c) && (c.y < y || (c.y == y && c.x < x)) ==> grid@[cell_index(
                        w,
                        c,
                    )] == (lines@[c.y as int]@[c.x as int] == 35),
                forall|c: Coordinates|
                    grid.in_bounds(c) && (c.y > y || (c.y == y && c.x >= x)) ==> grid@[cell_index(
                        w,
                        c,
                    )] == false,
                best is None ==> forall|yp: int, xp: int|
                    marker_at(lines@, xp, yp) ==> (yp > y || (yp == y && xp >= x)),
                best matches Some(t) ==> ({
                    &&& marker_at(lines@, t.0.x as int, t.0.y as int)
                    &&& 0 <= t.0.y <= y
                    &&& 0 <= t.0.x < width
                    &&& (t.0.y == y ==> t.0.x < x)
                    &&& t.1 == facing_of_byte(lines@[t.0.y as int]@[t.0.x as int])
                    &&& forall|yp: int, xp: int|
                        marker_at(lines@, xp, yp) && (yp < y || (yp == y && xp < x)) ==> (yp
                            < t.0.y || (yp == t.0.y && xp <= t.0.x))
                }),
            decreases width - x,
        {
            let b = lines[y][x];
            let coordinate = Coordinates { x: x as i64, y: y as i64 };
            if b == 35 {
                let ghost gprev = grid;
                let updated = grid.set_value(coordinate, true);
                proof {
                    assert(updated);
                    lemma_cell_index_in_range(w, height as int, coordinate);
                    assert(grid@ == gprev@.update(cell_index(w, coordinate), true));
                    assert forall|c: Coordinates|
                        grid.in_bounds(c) && (c.y < y || (c.y == y && c.x < x + 1)) implies grid@[
                        cell_index(w, c)] == (lines@[c.y as int]@[c.x as int] == 35) by {
                        lemma_cell_index_in_range(w, height as int, c);
                        assert(gprev.in_bounds(c));
                        if cell_index(w, c) == cell_index(w, coordinate) {
                            lemma_cell_index_injective(w, height as int, c, coordinate);
                            assert(c == coordinate);
                            assert(grid@[cell_index(w, c)] == true);
                            assert(lines@[c.y as int]@[c.x as int] == 35);
                        } else {
                            assert(grid@[cell_index(w, c)] == gprev@[cell_index(w, c)]);
                            assert(c.y < y || (c.y == y && c.x < x));
                            assert(gprev@[cell_index(w, c)] == (lines@[c.y as int]@[c.x as int]
                                == 35));
                        }
                    }
                    assert forall|c: Coordinates|
                        grid.in_bounds(c) && (c.y > y || (c.y == y && c.x >= x + 1)) implies grid@[
                        cell_index(w, c)] == false by {
                        lemma_cell_index_in_range(w, height as int, c);
                        assert(gprev.in_bounds(c));
                        if cell_index(w, c) == cell_index(w, coordinate) {
                            lemma_cell_index_injective(w, height as int, c, coordinate);
                            assert(false);
                        } else {
                            assert(grid@[cell_index(w, c)] == gprev@[cell_index(w, c)]);
                            assert(gprev@[cell_index(w, c)] == false);
                        }
                    }
                }
            } else if b == 46 {
                // an open cell: the grid already holds false there
            } else if b == 94 {
                best = Some((coordinate, Direction::Up));
            } else if b == 118 {
                best = Some((coordinate, Direction::Down));
            } else if b == 60 {
                best = Some((coordinate, Direction::Left));
            } else if b == 62 {
                best = Some((coordinate, Direction::Right));
            } else {
                return Err(GenericError::BasicError("Invalid character in map".to_string()));
            }
            x = x + 1;
        }
        y = y + 1;
    }

    match best {
        None => Err(GenericError::BasicError("Did not find guard location".to_string())),
        Some((location, facing)) => Ok((grid, location, facing)),
    }
}

} // verus!
