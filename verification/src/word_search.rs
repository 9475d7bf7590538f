//! A word search over a flat character buffer with a row stride:
//! `XMAS` is counted in all eight directions, and crossed `MAS`
//! diagonals are counted around their shared `A`.  Lookups reject an
//! x outside the row even when the raw linear index stays inside the
//! buffer — the same row-wrap guard the grid container uses.

use vstd::prelude::*;

verus! {

/// The byte at `(x, y)` of a buffer with row stride `width`, absent
/// outside the buffer or outside the row.
pub open spec fn value_at(grid: Seq<u8>, width: int, x: int, y: int) -> Option<u8> {
    let test_index = y * width + x;
    if 0 <= test_index < grid.len() && 0 <= x < width {
        Some(grid[test_index])
    } else {
        None
    }
}

/// The coordinate bound under which the lookup arithmetic stays
/// inside `i64`.
pub open spec fn lookup_args_ok(grid: Seq<u8>, width: int, x: int, y: int) -> bool {
    &&& 1 <= width <= 0x4000_0000
    &&& grid.len() <= 0x4000_0000
    &&& -0x4000_0010 <= x <= 0x4000_0010
    &&& -0x4000_0010 <= y <= 0x4000_0010
}

/// The byte at `index`, or `None` outside the buffer or the row.
pub fn get_value_at_index(grid: &Vec<u8>, index: (i64, i64), width: i64) -> (r: Option<u8>)
    requires
        lookup_args_ok(grid@, width as int, index.0 as int, index.1 as int),
    ensures
        r == value_at(grid@, width as int, index.0 as int, index.1 as int),
{
    proof {
        assert(-0x2000_0000_0000_0000 <= index.1 as int * width as int <= 0x2000_0000_0000_0000)
            by (nonlinear_arith)
            requires
                -0x4000_0010 <= index.1 <= 0x4000_0010,
                1 <= width <= 0x4000_0000,
        ;
    }
    let test_index = index.1 * width + index.0;

    // an x at or past the width would wrap around to the next row
    if test_index < 0 || test_index >= grid.len() as i64 || index.0 < 0 || index.0 >= width {
        return None;
    }

    Some(grid[test_index as usize])
}

/// The byte the word `XMAS` holds at offset `k`.
pub open spec fn xmas_byte(k: int) -> u8 {
    if k == 0 {
        88
    } else if k == 1 {
        77
    } else if k == 2 {
        65
    } else {
        83
    }
}

/// The letters `MAS` continue from `pos` in direction `off` (the `X`
/// at `pos` itself is the caller's premise).
pub open spec fn xmas_at(grid: Seq<u8>, width: int, pos: (int, int), off: (int, int)) -> bool {
    forall|k: int|
        1 <= k <= 3 ==> #[trigger] value_at(grid, width, pos.0 + k * off.0, pos.1 + k * off.1)
            == Some(xmas_byte(k))
}

/// Whether `MAS` continues from `initial_index` along `offset`.
pub fn check_for_xmas(grid: &Vec<u8>, initial_index: (i64, i64), offset: (i64, i64), width: i64) -> (r:
    bool)
    requires
        1 <= width <= 0x4000_0000,
        grid@.len() <= 0x4000_0000,
        -0x4000_0000 <= initial_index.0 <= 0x4000_0000,
        -0x4000_0000 <= initial_index.1 <= 0x4000_0000,
        -1 <= offset.0 <= 1,
        -1 <= offset.1 <= 1,
    ensures
        r == xmas_at(
            grid@,
            width as int,
            (initial_index.0 as int, initial_index.1 as int),
            (offset.0 as int, offset.1 as int),
        ),
{
    let ghost pos = (initial_index.0 as int, initial_index.1 as int);
    let ghost off = (offset.0 as int, offset.1 as int);
    let mut search_index: i64 = 1;
    #[verifier::loop_isolation(false)]
    while search_index <= 3
        invariant
            1 <= search_index <= 4,
            forall|k: int|
                1 <= k < search_index ==> #[trigger] value_at(
                    grid@,
                    width as int,
                    pos.0 + k * off.0,
                    pos.1 + k * off.1,
                ) == Some(xmas_byte(k)),
        decreases 4 - search_index,
    {
        proof {
            assert(-3 <= search_index * offset.0 <= 3 && -3 <= search_index * offset.1 <= 3)
                by (nonlinear_arith)
                requires
                    1 <= search_index <= 3,
                    -1 <= offset.0 <= 1,
                    -1 <= offset.1 <= 1,
            ;
        }
        let x_index = initial_index.0 + search_index * offset.0;
        let y_index = initial_index.1 + search_index * offset.1;
        let expected: u8 = if search_index == 1 {
            77
        } else if search_index == 2 {
            65
        } else {
            83
        };
        match get_value_at_index(grid, (x_index, y_index), width) {
            Some(value_at_index) => {
                if value_at_index != expected {
                    return false;
                }
            },
            None => {
                return false;
            },
        }
        search_index = search_index + 1;
    }
    true
}

/// The two cells diagonal to `pos` along `off` spell `M` and `S` in
/// one order or the other.
pub open spec fn diagonal_mas_at(grid: Seq<u8>, width: int, pos: (int, int), off: (int, int)) -> bool {
    ||| (value_at(grid, width, pos.0 + off.0, pos.1 + off.1) == Some(77u8) && value_at(
        grid,
        width,
        pos.0 - off.0,
        pos.1 - off.1,
    ) == Some(83u8))
    ||| (value_at(grid, width, pos.0 + off.0, pos.1 + off.1) == Some(83u8) && value_at(
        grid,
        width,
        pos.0 - off.0,
        pos.1 - off.1,
    ) == Some(77u8))
}

/// Whether the diagonal through `initial_index` along `offset` (and
/// its opposite corner) spells `MAS` either way.  The offset must be
/// one of the four diagonal steps.
pub fn check_for_diagonal_mas(
    grid: &Vec<u8>,
    initial_index: (i64, i64),
    offset: (i64, i64),
    width: i64,
) -> (r: bool)
    requires
        1 <= width <= 0x4000_0000,
        grid@.len() <= 0x4000_0000,
        -0x4000_0000 <= initial_index.0 <= 0x4000_0000,
        -0x4000_0000 <= initial_index.1 <= 0x4000_0000,
        offset.0 == 1 || offset.0 == -1,
        offset.1 == 1 || offset.1 == -1,
    ensures
        r == diagonal_mas_at(
            grid@,
            width as int,
            (initial_index.0 as int, initial_index.1 as int),
            (offset.0 as int, offset.1 as int),
        ),
{
    if let Some(value_at_initial_corner) = get_value_at_index(
        grid,
        (initial_index.0 + offset.0, initial_index.1 + offset.1),
        width,
    ) {
        if value_at_initial_corner == 77 {
            if let Some(value_at_opposite_corner) = get_value_at_index(
                grid,
                (initial_index.0 - offset.0, initial_index.1 - offset.1),
                width,
            ) {
                return value_at_opposite_corner == 83;
            }
        } else if value_at_initial_corner == 83 {
            if let Some(value_at_opposite_corner) = get_value_at_index(
                grid,
                (initial_index.0 - offset.0, initial_index.1 - offset.1),
                width,
            ) {
                return value_at_opposite_corner == 77;
            }
        }
    }
    false
}

/// One where true, zero where false.
pub open spec fn b2i(b: bool) -> int {
    if b {
        1
    } else {
        0
    }
}

/// How many of the eight directions continue `XMAS` from the cell at
/// buffer position `pos`.
pub open spec fn directions_from(grid: Seq<u8>, width: int, pos: int) -> int {
    let p = (pos % width, pos / width);
    b2i(xmas_at(grid, width, p, (0, -1))) + b2i(xmas_at(grid, width, p, (0, 1))) + b2i(
        xmas_at(grid, width, p, (-1, 0)),
    ) + b2i(xmas_at(grid, width, p, (1, 0))) + b2i(xmas_at(grid, width, p, (-1, -1))) + b2i(
        xmas_at(grid, width, p, (-1, 1)),
    ) + b2i(xmas_at(grid, width, p, (1, -1))) + b2i(xmas_at(grid, width, p, (1, 1)))
}

/// The `XMAS` count contributed by buffer positions from `pos` on.
pub open spec fn xmas_count_from(grid: Seq<u8>, width: int, pos: int) -> int
    decreases grid.len() - pos when 0 <= pos <= grid.len()
{
    if pos >= grid.len() {
        0
    } else {
        (if grid[pos] == 88 {
            directions_from(grid, width, pos)
        } else {
            0
        }) + xmas_count_from(grid, width, pos + 1)
    }
}

/// The crossed-`MAS` count contributed by buffer positions from `pos`
/// on: cells holding `A` whose two diagonals both spell `MAS`.
pub open spec fn cross_count_from(grid: Seq<u8>, width: int, pos: int) -> int
    decreases grid.len() - pos when 0 <= pos <= grid.len()
{
    if pos >= grid.len() {
        0
    } else {
        (if grid[pos] == 65 {
            let p = (pos % width, pos / width);
            b2i(diagonal_mas_at(grid, width, p, (-1, -1)) && diagonal_mas_at(
                grid,
                width,
                p,
                (-1, 1),
            ))
        } else {
            0
        }) + cross_count_from(grid, width, pos + 1)
    }
}

/// Counts every occurrence of `XMAS` in the buffer, in all eight
/// directions from each `X`.
pub fn count_xmas(grid: &Vec<u8>, width: i64) -> (r: u64)
    requires
        1 <= width <= 0x4000_0000,
        grid@.len() <= 0x4000_0000,
    ensures
        r == xmas_count_from(grid@, width as int, 0),
{
    let mut result: u64 = 0;
    let mut pos: usize = 0;
    #[verifier::loop_isolation(false)]
    while pos < grid.len()
        invariant
            0 <= pos <= grid@.len(),
            result <= 8 * pos,
            xmas_count_from(grid@, width as int, 0) == result + xmas_count_from(
                grid@,
                width as int,
                pos as int,
            ),
        decreases grid@.len() - pos,
    {
        proof {
            lemma_xmas_count_nonneg(grid@, width as int, pos as int + 1);
        }
        if grid[pos] == 88 {
            proof {
                assert(0 <= (pos as int) % (width as int) < width as int && 0 <= (pos as int) / (
                width as int) <= pos as int) by (nonlinear_arith)
                    requires
                        0 <= pos as int,
                        1 <= width as int,
                ;
            }
            let x_index = (pos as i64) % width;
            let y_index = (pos as i64) / width;
            let mut found: u64 = 0;
            if check_for_xmas(grid, (x_index, y_index), (0, -1), width) {
                found = found + 1;
            }
            if check_for_xmas(grid, (x_index, y_index), (0, 1), width) {
                found = found + 1;
            }
            if check_for_xmas(grid, (x_index, y_index), (-1, 0), width) {
                found = found + 1;
            }
            if check_for_xmas(grid, (x_index, y_index), (1, 0), width) {
                found = found + 1;
            }
            if check_for_xmas(grid, (x_index, y_index), (-1, -1), width) {
                found = found + 1;
            }
            if check_for_xmas(grid, (x_index, y_index), (-1, 1), width) {
                found = found + 1;
            }
            if check_for_xmas(grid, (x_index, y_index), (1, -1), width) {
                found = found + 1;
            }
            if check_for_xmas(grid, (x_index, y_index), (1, 1), width) {
                found = found + 1;
            }
            result = result + found;
        }
        pos = pos + 1;
    }
    result
}

/// Counts the cells whose diagonals cross two `MAS` spellings.
pub fn count_cross_mas(grid: &Vec<u8>, width: i64) -> (r: u64)
    requires
        1 <= width <= 0x4000_0000,
        grid@.len() <= 0x4000_0000,
    ensures
        r == cross_count_from(grid@, width as int, 0),
{
    let mut result: u64 = 0;
    let mut pos: usize = 0;
    #[verifier::loop_isolation(false)]
    while pos < grid.len()
        invariant
            0 <= pos <= grid@.len(),
            result <= pos,
            cross_count_from(grid@, width as int, 0) == result + cross_count_from(
                grid@,
                width as int,
                pos as int,
            ),
        decreases grid@.len() - pos,
    {
        proof {
            lemma_cross_count_nonneg(grid@, width as int, pos as int + 1);
        }
        if grid[pos] == 65 {
            proof {
                assert(0 <= (pos as int) % (width as int) < width as int && 0 <= (pos as int) / (
                width as int) <= pos as int) by (nonlinear_arith)
                    requires
                        0 <= pos as int,
                        1 <= width as int,
                ;
            }
            let x_index = (pos as i64) % width;
            let y_index = (pos as i64) / width;
            if check_for_diagonal_mas(grid, (x_index, y_index), (-1, -1), width)
                && check_for_diagonal_mas(grid, (x_index, y_index), (-1, 1), width) {
                result = result + 1;
            }
        }
        pos = pos + 1;
    }
    result
}

/// The `XMAS` tail count is never negative.
proof fn lemma_xmas_count_nonneg(grid: Seq<u8>, width: int, pos: int)
    requires
        0 <= pos <= grid.len(),
    ensures
        xmas_count_from(grid, width, pos) >= 0,
    decreases grid.len() - pos,
{
    if pos < grid.len() {
        lemma_xmas_count_nonneg(grid, width, pos + 1);
    }
}

/// The crossed-`MAS` tail count is never negative.
proof fn lemma_cross_count_nonneg(grid: Seq<u8>, width: int, pos: int)
    requires
        0 <= pos <= grid.len(),
    ensures
        cross_count_from(grid, width, pos) >= 0,
    decreases grid.len() - pos,
{
    if pos < grid.len() {
        lemma_cross_count_nonneg(grid, width, pos + 1);
    }
}

} // verus!
