//! Antenna fields and their antinodes: every pair of same-labelled
//! antennas projects interference nodes along the line through the
//! pair, which are marked on a grid of flags and counted.
//!
//! Two projections are offered: the double-distance points
//! `2 * a - b` and `2 * b - a` of each pair, and the full rays walked
//! from each pair member away from the other until the first step off
//! the grid.

use crate::counting::{count_true, count_true_cells};
use crate::grid_2d::{Coordinates, Grid};
use crate::patrol::{cell_index, in_rect, lemma_cell_index_in_range, lemma_cell_index_injective};
use vstd::arithmetic::div_mod::lemma_fundamental_div_mod;
use vstd::prelude::*;

verus! {

/// The coordinate bound under which all antinode arithmetic stays
/// inside `i64`.
pub open spec fn coords_bounded(nodes: Seq<Coordinates>) -> bool {
    forall|k: int|
        0 <= k < nodes.len() ==> 0 <= (#[trigger] nodes[k]).x <= 0x1000_0000 && 0 <= nodes[k].y
            <= 0x1000_0000
}

/// Pair `(i, j)` is handled strictly before the loop position `(i0, j0)`.
pub open spec fn pair_before(i: int, j: int, i0: int, j0: int) -> bool {
    i < i0 || (i == i0 && j < j0)
}

/// `c` is one of the two double-distance projections of the pair
/// `(nodes[i], nodes[j])`.
pub open spec fn pair_projects(nodes: Seq<Coordinates>, i: int, j: int, c: Coordinates) -> bool {
    ||| (c.x == 2 * nodes[i].x - nodes[j].x && c.y == 2 * nodes[i].y - nodes[j].y)
    ||| (c.x == 2 * nodes[j].x - nodes[i].x && c.y == 2 * nodes[j].y - nodes[i].y)
}

/// `c` is a double-distance projection of some pair handled before the
/// loop position `(i0, j0)`.
pub open spec fn projected_upto(nodes: Seq<Coordinates>, i0: int, j0: int, c: Coordinates) -> bool {
    exists|i: int, j: int|
        0 <= j < i < nodes.len() && pair_before(i, j, i0, j0) && pair_projects(nodes, i, j, c)
}

/// `c` is a double-distance projection of some pair of the group.
pub open spec fn is_projected_antinode(nodes: Seq<Coordinates>, c: Coordinates) -> bool {
    projected_upto(nodes, nodes.len() as int, 0, c)
}

/// Finishing row `i0` of the pair loop reaches the same pairs as
/// starting row `i0 + 1`.
proof fn lemma_projected_row_end(nodes: Seq<Coordinates>, i0: int, c: Coordinates)
    ensures
        projected_upto(nodes, i0, i0, c) == projected_upto(nodes, i0 + 1, 0, c),
{
    if projected_upto(nodes, i0, i0, c) {
        let (i, j) = choose|i: int, j: int|
            0 <= j < i < nodes.len() && pair_before(i, j, i0, i0) && pair_projects(nodes, i, j, c);
        assert(pair_before(i, j, i0 + 1, 0));
        assert(projected_upto(nodes, i0 + 1, 0, c));
    }
    if projected_upto(nodes, i0 + 1, 0, c) {
        let (i, j) = choose|i: int, j: int|
            0 <= j < i < nodes.len() && pair_before(i, j, i0 + 1, 0) && pair_projects(
                nodes,
                i,
                j,
                c,
            );
        assert(pair_before(i, j, i0, i0));
        assert(projected_upto(nodes, i0, i0, c));
    }
}

/// Marks, for every unordered pair of the group, the two
/// double-distance projections that land on the grid.
pub fn generate_antinodes_part1(nodes_of_same_type: &Vec<Coordinates>, antinode_grid: &mut Grid<
    bool,
>)
    requires
        old(antinode_grid).wf(),
        coords_bounded(nodes_of_same_type@),
    ensures
        final(antinode_grid).wf(),
        final(antinode_grid).spec_width() == old(antinode_grid).spec_width(),
        final(antinode_grid)@.len() == old(antinode_grid)@.len(),
        forall|c: Coordinates|
            final(antinode_grid).in_bounds(c) ==> final(antinode_grid)@[cell_index(
                final(antinode_grid).spec_width() as int,
                c,
            )] == (old(antinode_grid)@[cell_index(old(antinode_grid).spec_width() as int, c)]
                || is_projected_antinode(nodes_of_same_type@, c)),
{
    let ghost nodes = nodes_of_same_type@;
    let ghost g0 = *antinode_grid;
    let ghost w = g0.spec_width() as int;
    let ghost h = g0.spec_height() as int;
    let len = nodes_of_same_type.len();

    proof {
        crate::grid_2d::lemma_shape_consistent(g0);
    }

    let mut i: usize = 1;
    #[verifier::loop_isolation(false)]
    while i < len
        invariant
            1 <= i,
            i <= len || len == 0,
            antinode_grid.wf(),
            antinode_grid.spec_width() == g0.spec_width(),
            antinode_grid@.len() == g0@.len(),
            forall|c: Coordinates|
                antinode_grid.in_bounds(c) ==> #[trigger] antinode_grid@[cell_index(w, c)] == (
                g0@[cell_index(w, c)] || projected_upto(nodes, i as int, 0, c)),
        decreases len - i,
    {
        let mut j: usize = 0;
        #[verifier::loop_isolation(false)]
        while j < i
            invariant
                0 <= j <= i,
                antinode_grid.wf(),
                antinode_grid.spec_width() == g0.spec_width(),
                antinode_grid@.len() == g0@.len(),
                forall|c: Coordinates|
                    antinode_grid.in_bounds(c) ==> #[trigger] antinode_grid@[cell_index(w, c)]
                        == (g0@[cell_index(w, c)] || projected_upto(nodes, i as int, j as int, c)),
            decreases i - j,
        {
            let ni = nodes_of_same_type[i];
            let nj = nodes_of_same_type[j];
            let first = ni.scale(2).subtract(nj);
            let second = nj.scale(2).subtract(ni);

            let ghost gprev = *antinode_grid;
            antinode_grid.set_value(first, true);
            let ghost gmid = *antinode_grid;
            antinode_grid.set_value(second, true);

            proof {
                assert forall|c: Coordinates| antinode_grid.in_bounds(c) implies
                    #[trigger] antinode_grid@[cell_index(w, c)] == (g0@[cell_index(w, c)]
                    || projected_upto(nodes, i as int, j as int + 1, c)) by {
                    lemma_cell_index_in_range(w, h, c);
                    if c == first || c == second {
                        if c == second {
                            assert(antinode_grid@[cell_index(w, c)] == true);
                        } else if c == first {
                            if gmid.in_bounds(second) {
                                lemma_cell_index_in_range(w, h, second);
                                if cell_index(w, c) == cell_index(w, second) {
                                    lemma_cell_index_injective(w, h, c, second);
                                    assert(antinode_grid@[cell_index(w, c)] == true);
                                } else {
                                    assert(antinode_grid@[cell_index(w, c)] == gmid@[cell_index(
                                        w,
                                        c,
                                    )]);
                                    assert(gmid@[cell_index(w, c)] == true);
                                }
                            } else {
                                assert(antinode_grid@[cell_index(w, c)] == gmid@[cell_index(w, c)]);
                                assert(gmid@[cell_index(w, c)] == true);
                            }
                        }
                        assert(pair_projects(nodes, i as int, j as int, c));
                        assert(pair_before(i as int, j as int, i as int, j as int + 1));
                        assert(projected_upto(nodes, i as int, j as int + 1, c));
                    } else {
                        // untouched cell: its flag is carried over
                        if gprev.in_bounds(first) {
                            lemma_cell_index_in_range(w, h, first);
                            if cell_index(w, c) == cell_index(w, first) {
                                lemma_cell_index_injective(w, h, c, first);
                            }
                        }
                        if gmid.in_bounds(second) {
                            lemma_cell_index_in_range(w, h, second);
                            if cell_index(w, c) == cell_index(w, second) {
                                lemma_cell_index_injective(w, h, c, second);
                            }
                        }
                        assert(antinode_grid@[cell_index(w, c)] == gprev@[cell_index(w, c)]);
                        assert(!pair_projects(nodes, i as int, j as int, c));
                        assert(projected_upto(nodes, i as int, j as int + 1, c) == projected_upto(
                            nodes,
                            i as int,
                            j as int,
                            c,
                        )) by {
                            if projected_upto(nodes, i as int, j as int + 1, c) {
                                let (i2, j2) = choose|i2: int, j2: int|
                                    0 <= j2 < i2 < nodes.len() && pair_before(
                                        i2,
                                        j2,
                                        i as int,
                                        j as int + 1,
                                    ) && pair_projects(nodes, i2, j2, c);
                                assert(pair_before(i2, j2, i as int, j as int));
                                assert(projected_upto(nodes, i as int, j as int, c));
                            }
                        }
                    }
                }
            }
            j = j + 1;
        }
        proof {
            assert forall|c: Coordinates| antinode_grid.in_bounds(c) implies
                #[trigger] antinode_grid@[cell_index(w, c)] == (g0@[cell_index(w, c)]
                || projected_upto(nodes, i as int + 1, 0, c)) by {
                lemma_projected_row_end(nodes, i as int, c);
            }
        }
        i = i + 1;
    }
    proof {
        if len == 0 {
            assert forall|c: Coordinates| antinode_grid.in_bounds(c) implies
                #[trigger] antinode_grid@[cell_index(w, c)] == (g0@[cell_index(w, c)]
                || is_projected_antinode(nodes, c)) by {
                assert(!projected_upto(nodes, nodes.len() as int, 0, c));
            }
        } else {
            assert forall|c: Coordinates| antinode_grid.in_bounds(c) implies
                #[trigger] antinode_grid@[cell_index(w, c)] == (g0@[cell_index(w, c)]
                || is_projected_antinode(nodes, c)) by {
                assert(projected_upto(nodes, len as int, 0, c) == is_projected_antinode(nodes, c));
            }
        }
    }
}

/// `c` is the `m`-th point of the ray from `start` with step `d`.
pub open spec fn at_ray_point(start: Coordinates, d: Coordinates, m: int, c: Coordinates) -> bool {
    c.x == start.x + m * d.x && c.y == start.y + m * d.y
}

/// `c` lies on the ray from `start` with step `d` (the start itself
/// included).
pub open spec fn on_ray(start: Coordinates, d: Coordinates, c: Coordinates) -> bool {
    exists|m: int| 0 <= m && at_ray_point(start, d, m, c)
}

/// `c` lies on one of the two rays of the pair `(nodes[i], nodes[j])`:
/// from each pair member, stepping away from the other.
pub open spec fn pair_rays(nodes: Seq<Coordinates>, i: int, j: int, c: Coordinates) -> bool {
    ||| on_ray(nodes[i], nodes[i].spec_subtract(nodes[j]), c)
    ||| on_ray(nodes[j], nodes[j].spec_subtract(nodes[i]), c)
}

/// `c` lies on a ray of some pair handled before the loop position
/// `(i0, j0)`.
pub open spec fn ray_upto(nodes: Seq<Coordinates>, i0: int, j0: int, c: Coordinates) -> bool {
    exists|i: int, j: int|
        0 <= j < i < nodes.len() && pair_before(i, j, i0, j0) && pair_rays(nodes, i, j, c)
}

/// `c` lies on a ray of some pair of the group.
pub open spec fn is_ray_antinode(nodes: Seq<Coordinates>, c: Coordinates) -> bool {
    ray_upto(nodes, nodes.len() as int, 0, c)
}

/// Finishing row `i0` of the pair loop reaches the same pairs as
/// starting row `i0 + 1`.
proof fn lemma_ray_row_end(nodes: Seq<Coordinates>, i0: int, c: Coordinates)
    ensures
        ray_upto(nodes, i0, i0, c) == ray_upto(nodes, i0 + 1, 0, c),
{
    if ray_upto(nodes, i0, i0, c) {
        let (i, j) = choose|i: int, j: int|
            0 <= j < i < nodes.len() && pair_before(i, j, i0, i0) && pair_rays(nodes, i, j, c);
        assert(pair_before(i, j, i0 + 1, 0));
        assert(ray_upto(nodes, i0 + 1, 0, c));
    }
    if ray_upto(nodes, i0 + 1, 0, c) {
        let (i, j) = choose|i: int, j: int|
            0 <= j < i < nodes.len() && pair_before(i, j, i0 + 1, 0) && pair_rays(nodes, i, j, c);
        assert(pair_before(i, j, i0, i0));
        assert(ray_upto(nodes, i0, i0, c));
    }
}

/// A ray and the rectangle meet in a contiguous run of step counts:
/// a point between the start and another in-rectangle point is itself
/// inside.
proof fn lemma_ray_interval(
    x0: int,
    y0: int,
    dx: int,
    dy: int,
    w: int,
    h: int,
    k1: int,
    k2: int,
)
    requires
        0 <= k1 <= k2,
        0 <= x0 < w,
        0 <= y0 < h,
        0 <= x0 + k2 * dx < w,
        0 <= y0 + k2 * dy < h,
    ensures
        0 <= x0 + k1 * dx < w,
        0 <= y0 + k1 * dy < h,
{
    assert(0 <= x0 + k1 * dx < w) by (nonlinear_arith)
        requires
            0 <= k1 <= k2,
            0 <= x0 < w,
            0 <= x0 + k2 * dx < w,
    ;
    assert(0 <= y0 + k1 * dy < h) by (nonlinear_arith)
        requires
            0 <= k1 <= k2,
            0 <= y0 < h,
            0 <= y0 + k2 * dy < h,
    ;
}

/// The walk's termination measure: how far the cursor can still move
/// along the axis its step advances on.
pub open spec fn ray_measure(w: int, h: int, c: Coordinates, d: Coordinates) -> int {
    if d.x > 0 {
        if w - c.x >= 0 {
            w - c.x
        } else {
            0
        }
    } else if d.x < 0 {
        if c.x + 1 >= 0 {
            c.x + 1
        } else {
            0
        }
    } else if d.y > 0 {
        if h - c.y >= 0 {
            h - c.y
        } else {
            0
        }
    } else {
        if c.y + 1 >= 0 {
            c.y + 1
        } else {
            0
        }
    }
}

/// Walks from `start` in steps of `diff`, marking every cell reached,
/// until the first step that lands outside the grid.  Exactly the
/// in-grid cells of the ray end up marked (the grid cannot be
/// re-entered: the ray meets it in one contiguous run).
pub fn mark_ray(grid: &mut Grid<bool>, start: Coordinates, diff: Coordinates)
    requires
        old(grid).wf(),
        old(grid).in_bounds(start),
        old(grid).spec_width() <= 0x1000_0000,
        old(grid)@.len() <= 0x1000_0000,
        diff.x != 0 || diff.y != 0,
        -0x1000_0000 <= diff.x <= 0x1000_0000,
        -0x1000_0000 <= diff.y <= 0x1000_0000,
    ensures
        final(grid).wf(),
        final(grid).spec_width() == old(grid).spec_width(),
        final(grid)@.len() == old(grid)@.len(),
        forall|c: Coordinates|
            final(grid).in_bounds(c) ==> final(grid)@[cell_index(
                final(grid).spec_width() as int,
                c,
            )] == (old(grid)@[cell_index(old(grid).spec_width() as int, c)] || on_ray(
                start,
                diff,
                c,
            )),
{
    let ghost g0 = *grid;
    let ghost w = g0.spec_width() as int;
    let ghost h = g0.spec_height() as int;
    proof {
        crate::grid_2d::lemma_shape_consistent(g0);
    }

    let mut cursor = start;
    let ghost mut k: int = 0;
    let mut active = grid.set_value(cursor, true);

    proof {
        lemma_cell_index_in_range(w, h, start);
        assert forall|c: Coordinates| in_rect(w, h, c) implies #[trigger] grid@[cell_index(w, c)]
            == (g0@[cell_index(w, c)] || exists|m: int|
            0 <= m <= k && at_ray_point(start, diff, m, c)) by {
            lemma_cell_index_in_range(w, h, c);
            if cell_index(w, c) == cell_index(w, start) {
                lemma_cell_index_injective(w, h, c, start);
                assert(at_ray_point(start, diff, 0, c));
                assert(grid@[cell_index(w, c)] == true);
            } else {
                assert(grid@[cell_index(w, c)] == g0@[cell_index(w, c)]);
                if exists|m: int| 0 <= m <= k && at_ray_point(start, diff, m, c) {
                    let m = choose|m: int| 0 <= m <= k && at_ray_point(start, diff, m, c);
                    assert(m == 0);
                    assert(c.x == start.x && c.y == start.y);
                    assert(c == start);
                    assert(false);
                }
            }
        }
    }

    #[verifier::loop_isolation(false)]
    while active
        invariant
            grid.wf(),
            grid.spec_width() == g0.spec_width(),
            grid@.len() == g0@.len(),
            k >= 0,
            at_ray_point(start, diff, k, cursor),
            -0x3000_0000 <= cursor.x <= 0x3000_0000,
            -0x3000_0000 <= cursor.y <= 0x3000_0000,
            active == in_rect(w, h, cursor),
            forall|m: int, c: Coordinates|
                0 <= m < k && at_ray_point(start, diff, m, c) ==> in_rect(w, h, c),
            forall|c: Coordinates|
                in_rect(w, h, c) ==> #[trigger] grid@[cell_index(w, c)] == (g0@[cell_index(w, c)]
                    || exists|m: int| 0 <= m <= k && at_ray_point(start, diff, m, c)),
        decreases ray_measure(w, h, cursor, diff),
    {
        let ghost gprev = *grid;
        let ghost kprev = k;
        let ghost prev_cursor = cursor;
        cursor = cursor.add(diff);
        proof {
            k = k + 1;
        }
        active = grid.set_value(cursor, true);
        proof {
            assert(at_ray_point(start, diff, k, cursor)) by (nonlinear_arith)
                requires
                    at_ray_point(start, diff, kprev, prev_cursor),
                    k == kprev + 1,
                    cursor.x == prev_cursor.x + diff.x,
                    cursor.y == prev_cursor.y + diff.y,
            ;
            assert forall|m: int, c: Coordinates|
                0 <= m < k && at_ray_point(start, diff, m, c) implies in_rect(w, h, c) by {
                if m == kprev {
                    assert(c.x == prev_cursor.x && c.y == prev_cursor.y);
                    assert(c == prev_cursor);
                }
            }
            assert forall|c: Coordinates| in_rect(w, h, c) implies #[trigger] grid@[cell_index(
                w,
                c,
            )] == (g0@[cell_index(w, c)] || exists|m: int|
                0 <= m <= k && at_ray_point(start, diff, m, c)) by {
                lemma_cell_index_in_range(w, h, c);
                if in_rect(w, h, cursor) {
                    lemma_cell_index_in_range(w, h, cursor);
                    if cell_index(w, c) == cell_index(w, cursor) {
                        lemma_cell_index_injective(w, h, c, cursor);
                        assert(grid@[cell_index(w, c)] == true);
                        assert(at_ray_point(start, diff, k, c));
                    } else {
                        assert(grid@[cell_index(w, c)] == gprev@[cell_index(w, c)]);
                        assert((exists|m: int| 0 <= m <= k && at_ray_point(start, diff, m, c))
                            == (exists|m: int|
                            0 <= m <= kprev && at_ray_point(start, diff, m, c))) by {
                            if exists|m: int| 0 <= m <= k && at_ray_point(start, diff, m, c) {
                                let m = choose|m: int|
                                    0 <= m <= k && at_ray_point(start, diff, m, c);
                                if m == k {
                                    assert(c.x == cursor.x && c.y == cursor.y);
                                    assert(c == cursor);
                                    assert(false);
                                }
                            }
                        }
                    }
                } else {
                    assert(grid@[cell_index(w, c)] == gprev@[cell_index(w, c)]);
                    assert((exists|m: int| 0 <= m <= k && at_ray_point(start, diff, m, c)) == (
                    exists|m: int| 0 <= m <= kprev && at_ray_point(start, diff, m, c))) by {
                        if exists|m: int| 0 <= m <= k && at_ray_point(start, diff, m, c) {
                            let m = choose|m: int| 0 <= m <= k && at_ray_point(start, diff, m, c);
                            if m == k {
                                assert(c.x == cursor.x && c.y == cursor.y);
                                assert(c == cursor);
                                assert(false);
                            }
                        }
                    }
                }
            }
        }
    }

    proof {
        assert forall|c: Coordinates| grid.in_bounds(c) implies #[trigger] grid@[cell_index(
            w,
            c,
        )] == (g0@[cell_index(w, c)] || on_ray(start, diff, c)) by {
            if on_ray(start, diff, c) {
                let m = choose|m: int| 0 <= m && at_ray_point(start, diff, m, c);
                if m >= k {
                    lemma_ray_interval(
                        start.x as int,
                        start.y as int,
                        diff.x as int,
                        diff.y as int,
                        w,
                        h,
                        k,
                        m,
                    );
                    assert(in_rect(w, h, cursor));
                    assert(false);
                } else {
                    assert(exists|m2: int| 0 <= m2 <= k && at_ray_point(start, diff, m2, c));
                }
            } else {
                if exists|m2: int| 0 <= m2 <= k && at_ray_point(start, diff, m2, c) {
                    let m2 = choose|m2: int| 0 <= m2 <= k && at_ray_point(start, diff, m2, c);
                    assert(on_ray(start, diff, c));
                }
            }
        }
    }
}

/// Marks, for every unordered pair of the group, both full rays — from
/// each pair member, stepping repeatedly by the pair's displacement
/// away from the other member, until the grid is left.
pub fn generate_antinodes_part2(nodes_of_same_type: &Vec<Coordinates>, antinode_grid: &mut Grid<
    bool,
>)
    requires
        old(antinode_grid).wf(),
        old(antinode_grid).spec_width() <= 0x1000_0000,
        old(antinode_grid)@.len() <= 0x1000_0000,
        forall|kk: int|
            0 <= kk < nodes_of_same_type@.len() ==> old(antinode_grid).in_bounds(
                #[trigger] nodes_of_same_type@[kk],
            ),
        forall|k1: int, k2: int|
            0 <= k1 < k2 < nodes_of_same_type@.len() ==> nodes_of_same_type@[k1]
                != nodes_of_same_type@[k2],
    ensures
        final(antinode_grid).wf(),
        final(antinode_grid).spec_width() == old(antinode_grid).spec_width(),
        final(antinode_grid)@.len() == old(antinode_grid)@.len(),
        forall|c: Coordinates|
            final(antinode_grid).in_bounds(c) ==> final(antinode_grid)@[cell_index(
                final(antinode_grid).spec_width() as int,
                c,
            )] == (old(antinode_grid)@[cell_index(old(antinode_grid).spec_width() as int, c)]
                || is_ray_antinode(nodes_of_same_type@, c)),
{
    let ghost nodes = nodes_of_same_type@;
    let ghost g0 = *antinode_grid;
    let ghost w = g0.spec_width() as int;
    let ghost h = g0.spec_height() as int;
    let len = nodes_of_same_type.len();

    proof {
        crate::grid_2d::lemma_shape_consistent(g0);
    }

    let mut i: usize = 1;
    #[verifier::loop_isolation(false)]
    while i < len
        invariant
            1 <= i,
            i <= len || len == 0,
            antinode_grid.wf(),
            antinode_grid.spec_width() == g0.spec_width(),
            antinode_grid@.len() == g0@.len(),
            forall|c: Coordinates|
                antinode_grid.in_bounds(c) ==> #[trigger] antinode_grid@[cell_index(w, c)] == (
                g0@[cell_index(w, c)] || ray_upto(nodes, i as int, 0, c)),
        decreases len - i,
    {
        let mut j: usize = 0;
        #[verifier::loop_isolation(false)]
        while j < i
            invariant
                0 <= j <= i,
                antinode_grid.wf(),
                antinode_grid.spec_width() == g0.spec_width(),
                antinode_grid@.len() == g0@.len(),
                forall|c: Coordinates|
                    antinode_grid.in_bounds(c) ==> #[trigger] antinode_grid@[cell_index(w, c)]
                        == (g0@[cell_index(w, c)] || ray_upto(nodes, i as int, j as int, c)),
            decreases i - j,
        {
            let ni = nodes_of_same_type[i];
            let nj = nodes_of_same_type[j];
            let diff = ni.subtract(nj);
            let opposite = nj.subtract(ni);

            let ghost gprev = *antinode_grid;
            mark_ray(antinode_grid, ni, diff);
            let ghost gmid = *antinode_grid;
            mark_ray(antinode_grid, nj, opposite);

            proof {
                assert forall|c: Coordinates| antinode_grid.in_bounds(c) implies
                    #[trigger] antinode_grid@[cell_index(w, c)] == (g0@[cell_index(w, c)]
                    || ray_upto(nodes, i as int, j as int + 1, c)) by {
                    assert(gprev.in_bounds(c));
                    assert(gmid.in_bounds(c));
                    assert(gmid@[cell_index(gmid.spec_width() as int, c)] == (gprev@[cell_index(
                        gprev.spec_width() as int,
                        c,
                    )] || on_ray(ni, diff, c)));
                    assert(antinode_grid@[cell_index(antinode_grid.spec_width() as int, c)] == (
                    gmid@[cell_index(gmid.spec_width() as int, c)] || on_ray(nj, opposite, c)));
                    assert(antinode_grid@[cell_index(w, c)] == (gprev@[cell_index(w, c)] || on_ray(
                        ni,
                        diff,
                        c,
                    ) || on_ray(nj, opposite, c)));
                    if on_ray(ni, diff, c) || on_ray(nj, opposite, c) {
                        assert(pair_rays(nodes, i as int, j as int, c));
                        assert(pair_before(i as int, j as int, i as int, j as int + 1));
                        assert(ray_upto(nodes, i as int, j as int + 1, c));
                    } else {
                        assert(ray_upto(nodes, i as int, j as int + 1, c) == ray_upto(
                            nodes,
                            i as int,
                            j as int,
                            c,
                        )) by {
                            if ray_upto(nodes, i as int, j as int + 1, c) {
                                let (i2, j2) = choose|i2: int, j2: int|
                                    0 <= j2 < i2 < nodes.len() && pair_before(
                                        i2,
                                        j2,
                                        i as int,
                                        j as int + 1,
                                    ) && pair_rays(nodes, i2, j2, c);
                                assert(pair_before(i2, j2, i as int, j as int));
                                assert(ray_upto(nodes, i as int, j as int, c));
                            }
                        }
                    }
                }
            }
            j = j + 1;
        }
        proof {
            assert forall|c: Coordinates| antinode_grid.in_bounds(c) implies
                #[trigger] antinode_grid@[cell_index(w, c)] == (g0@[cell_index(w, c)] || ray_upto(
                nodes,
                i as int + 1,
                0,
                c,
            )) by {
                lemma_ray_row_end(nodes, i as int, c);
            }
        }
        i = i + 1;
    }
    proof {
        assert forall|c: Coordinates| antinode_grid.in_bounds(c) implies
            #[trigger] antinode_grid@[cell_index(w, c)] == (g0@[cell_index(w, c)]
            || is_ray_antinode(nodes, c)) by {
            if len == 0 {
                assert(!ray_upto(nodes, nodes.len() as int, 0, c));
            }
        }
    }
}

/// The cell coordinate of a row-major buffer position.
pub open spec fn coordinate_of(w: int, i: int) -> Coordinates {
    Coordinates { x: (i % w) as i64, y: (i / w) as i64 }
}

/// Buffer positions and cell coordinates are in bijection over the
/// rectangle.
pub proof fn lemma_coordinate_of(w: int, h: int, i: int)
    requires
        0 < w <= 0x1000_0000,
        0 < h <= 0x1000_0000,
        0 <= i < w * h,
    ensures
        in_rect(w, h, coordinate_of(w, i)),
        cell_index(w, coordinate_of(w, i)) == i,
{
    lemma_fundamental_div_mod(i, w);
    assert(0 <= i % w < w) by (nonlinear_arith)
        requires
            0 < w,
            0 <= i,
    ;
    assert(0 <= i / w < h) by (nonlinear_arith)
        requires
            0 < w,
            0 <= i < w * h,
            i == w * (i / w) + i % w,
            0 <= i % w < w,
    ;
    assert(cell_index(w, coordinate_of(w, i)) == (i / w) * w + i % w);
    assert((i / w) * w == w * (i / w)) by (nonlinear_arith);
}

/// Every coordinate of every group lies inside the `w` by `h`
/// rectangle.
pub open spec fn groups_in_grid(groups: Seq<(u8, Vec<Coordinates>)>, w: int, h: int) -> bool {
    forall|g: int, k: int|
        0 <= g < groups.len() && 0 <= k < (#[trigger] groups[g]).1@.len() ==> in_rect(
            w,
            h,
            #[trigger] groups[g].1@[k],
        )
}

/// No coordinate repeats within a group.
pub open spec fn groups_distinct(groups: Seq<(u8, Vec<Coordinates>)>) -> bool {
    forall|g: int, k1: int, k2: int|
        0 <= g < groups.len() && 0 <= k1 < k2 < groups[g].1@.len() ==> #[trigger] groups[g].1@[k1]
            != #[trigger] groups[g].1@[k2]
}

/// `c` is a double-distance antinode of some group.
pub open spec fn any_group_projects(groups: Seq<(u8, Vec<Coordinates>)>, c: Coordinates) -> bool {
    exists|g: int| 0 <= g < groups.len() && is_projected_antinode((#[trigger] groups[g]).1@, c)
}

/// `c` is a ray antinode of some group.
pub open spec fn any_group_rays(groups: Seq<(u8, Vec<Coordinates>)>, c: Coordinates) -> bool {
    exists|g: int| 0 <= g < groups.len() && is_ray_antinode((#[trigger] groups[g]).1@, c)
}

/// The flag buffer holding, cell by cell, whether some group projects
/// a double-distance antinode there.
pub open spec fn projected_cells(groups: Seq<(u8, Vec<Coordinates>)>, w: int, h: int) -> Seq<
    bool,
> {
    Seq::new(
        (w * h) as nat,
        |i: int|
            exists|c: Coordinates|
                in_rect(w, h, c) && #[trigger] cell_index(w, c) == i && any_group_projects(
                    groups,
                    c,
                ),
    )
}

/// The flag buffer holding, cell by cell, whether some group's rays
/// pass there.
pub open spec fn ray_cells(groups: Seq<(u8, Vec<Coordinates>)>, w: int, h: int) -> Seq<bool> {
    Seq::new(
        (w * h) as nat,
        |i: int|
            exists|c: Coordinates|
                in_rect(w, h, c) && #[trigger] cell_index(w, c) == i && any_group_rays(groups, c),
    )
}

/// Builds a `width` by `height` grid, marks every double-distance
/// antinode of every group, and counts the marked cells.
pub fn count_projected_antinodes(
    groups: &Vec<(u8, Vec<Coordinates>)>,
    width: usize,
    height: usize,
) -> (r: u64)
    requires
        width * height <= 0x1000_0000,
        width <= 0x1000_0000,
        height <= 0x1000_0000,
        groups_in_grid(groups@, width as int, height as int),
    ensures
        r == count_true(projected_cells(groups@, width as int, height as int)),
{
    let ghost w = width as int;
    let ghost h = height as int;
    let mut antinode_grid: Grid<bool> = Grid::new(width, height, false);

    proof {
        assert forall|c: Coordinates| antinode_grid.in_bounds(c) implies !antinode_grid@[cell_index(
            w,
            c,
        )] by {
            lemma_cell_index_in_range(w, h, c);
        }
    }

    let mut g: usize = 0;
    #[verifier::loop_isolation(false)]
    while g < groups.len()
        invariant
            g <= groups@.len(),
            antinode_grid.wf(),
            antinode_grid.spec_width() == width,
            antinode_grid@.len() == width * height,
            forall|c: Coordinates|
                antinode_grid.in_bounds(c) ==> #[trigger] antinode_grid@[cell_index(w, c)] == (
                exists|g2: int|
                    0 <= g2 < g && is_projected_antinode((#[trigger] groups@[g2]).1@, c)),
        decreases groups@.len() - g,
    {
        let ghost gprev = antinode_grid;
        let pair = &groups[g];
        generate_antinodes_part1(&pair.1, &mut antinode_grid);
        proof {
            assert forall|c: Coordinates| antinode_grid.in_bounds(c) implies
                #[trigger] antinode_grid@[cell_index(w, c)] == (exists|g2: int|
                0 <= g2 < g + 1 && is_projected_antinode((#[trigger] groups@[g2]).1@, c)) by {
                assert(antinode_grid@[cell_index(antinode_grid.spec_width() as int, c)] == (gprev@[
                cell_index(gprev.spec_width() as int, c)] || is_projected_antinode(
                    groups@[g as int].1@,
                    c,
                )));
                if antinode_grid@[cell_index(w, c)] {
                    if gprev@[cell_index(w, c)] {
                        let g2 = choose|g2: int|
                            0 <= g2 < g && is_projected_antinode((#[trigger] groups@[g2]).1@, c);
                        assert(0 <= g2 < g + 1 && is_projected_antinode(groups@[g2].1@, c));
                    } else {
                        assert(is_projected_antinode(groups@[g as int].1@, c));
                    }
                } else {
                    if exists|g2: int|
                        0 <= g2 < g + 1 && is_projected_antinode((#[trigger] groups@[g2]).1@, c) {
                        let g2 = choose|g2: int|
                            0 <= g2 < g + 1 && is_projected_antinode(
                                (#[trigger] groups@[g2]).1@,
                                c,
                            );
                        assert(false);
                    }
                }
            }
        }
        g = g + 1;
    }

    let counted = count_true_cells(antinode_grid.iter());
    proof {
        lemma_marks_match_cells(antinode_grid, groups@, w, h, true);
    }
    counted
}

/// Builds a `width` by `height` grid, marks every ray antinode of
/// every group, and counts the marked cells.
pub fn count_ray_antinodes(groups: &Vec<(u8, Vec<Coordinates>)>, width: usize, height: usize) -> (r:
    u64)
    requires
        width * height <= 0x1000_0000,
        width <= 0x1000_0000,
        height <= 0x1000_0000,
        groups_in_grid(groups@, width as int, height as int),
        groups_distinct(groups@),
    ensures
        r == count_true(ray_cells(groups@, width as int, height as int)),
{
    let ghost w = width as int;
    let ghost h = height as int;
    let mut antinode_grid: Grid<bool> = Grid::new(width, height, false);

    proof {
        assert forall|c: Coordinates| antinode_grid.in_bounds(c) implies !antinode_grid@[cell_index(
            w,
            c,
        )] by {
            lemma_cell_index_in_range(w, h, c);
        }
    }

    let mut g: usize = 0;
    #[verifier::loop_isolation(false)]
    while g < groups.len()
        invariant
            g <= groups@.len(),
            antinode_grid.wf(),
            antinode_grid.spec_width() == width,
            antinode_grid@.len() == width * height,
            forall|c: Coordinates|
                antinode_grid.in_bounds(c) ==> #[trigger] antinode_grid@[cell_index(w, c)] == (
                exists|g2: int| 0 <= g2 < g && is_ray_antinode((#[trigger] groups@[g2]).1@, c)),
        decreases groups@.len() - g,
    {
        let ghost gprev = antinode_grid;
        let pair = &groups[g];
        proof {
            assert forall|kk: int| 0 <= kk < pair.1@.len() implies antinode_grid.in_bounds(
                #[trigger] pair.1@[kk],
            ) by {
                assert(in_rect(w, h, groups@[g as int].1@[kk]));
            }
        }
        generate_antinodes_part2(&pair.1, &mut antinode_grid);
        proof {
            assert forall|c: Coordinates| antinode_grid.in_bounds(c) implies
                #[trigger] antinode_grid@[cell_index(w, c)] == (exists|g2: int|
                0 <= g2 < g + 1 && is_ray_antinode((#[trigger] groups@[g2]).1@, c)) by {
                assert(antinode_grid@[cell_index(antinode_grid.spec_width() as int, c)] == (gprev@[
                cell_index(gprev.spec_width() as int, c)] || is_ray_antinode(
                    groups@[g as int].1@,
                    c,
                )));
                if antinode_grid@[cell_index(w, c)] {
                    if gprev@[cell_index(w, c)] {
                        let g2 = choose|g2: int|
                            0 <= g2 < g && is_ray_antinode((#[trigger] groups@[g2]).1@, c);
                        assert(0 <= g2 < g + 1 && is_ray_antinode(groups@[g2].1@, c));
                    } else {
                        assert(is_ray_antinode(groups@[g as int].1@, c));
                    }
                } else {
                    if exists|g2: int|
                        0 <= g2 < g + 1 && is_ray_antinode((#[trigger] groups@[g2]).1@, c) {
                        let g2 = choose|g2: int|
                            0 <= g2 < g + 1 && is_ray_antinode((#[trigger] groups@[g2]).1@, c);
                        assert(false);
                    }
                }
            }
        }
        g = g + 1;
    }

    let counted = count_true_cells(antinode_grid.iter());
    proof {
        lemma_marks_match_cells(antinode_grid, groups@, w, h, false);
    }
    counted
}

/// A marked grid whose cells agree, coordinate by coordinate, with an
/// antinode predicate has exactly the predicate's flag buffer.
proof fn lemma_marks_match_cells(
    grid: Grid<bool>,
    groups: Seq<(u8, Vec<Coordinates>)>,
    w: int,
    h: int,
    projected: bool,
)
    requires
        grid.wf(),
        grid.spec_width() == w,
        0 <= w <= 0x1000_0000,
        0 <= h <= 0x1000_0000,
        grid@.len() == w * h,
        projected ==> forall|c: Coordinates|
            grid.in_bounds(c) ==> #[trigger] grid@[cell_index(w, c)] == any_group_projects(
                groups,
                c,
            ),
        !projected ==> forall|c: Coordinates|
            grid.in_bounds(c) ==> #[trigger] grid@[cell_index(w, c)] == any_group_rays(groups, c),
    ensures
        projected ==> grid@ == projected_cells(groups, w, h),
        !projected ==> grid@ == ray_cells(groups, w, h),
{
    let target = if projected {
        projected_cells(groups, w, h)
    } else {
        ray_cells(groups, w, h)
    };
    if w > 0 && h > 0 {
        crate::grid_2d::lemma_shape_consistent(grid);
        assert(grid.spec_height() == h) by (nonlinear_arith)
            requires
                grid.spec_height() * w == w * h,
                w > 0,
                grid.spec_height() >= 0,
        ;
        assert forall|i: int| 0 <= i < grid@.len() implies grid@[i] == target[i] by {
            lemma_coordinate_of(w, h, i);
            let c0 = coordinate_of(w, i);
            assert(grid.in_bounds(c0));
            let hit = if projected {
                any_group_projects(groups, c0)
            } else {
                any_group_rays(groups, c0)
            };
            if hit {
                assert(target[i]);
            } else {
                if target[i] {
                    let c = choose|c: Coordinates|
                        in_rect(w, h, c) && #[trigger] cell_index(w, c) == i && (if projected {
                            any_group_projects(groups, c)
                        } else {
                            any_group_rays(groups, c)
                        });
                    lemma_cell_index_injective(w, h, c, c0);
                    assert(false);
                }
            }
        }
        assert(grid@ =~= target);
    } else {
        assert(grid@.len() == 0) by (nonlinear_arith)
            requires
                grid@.len() == w * h,
                w >= 0,
                h >= 0,
                w == 0 || h == 0,
        ;
        assert(grid@ =~= target);
    }
}

/// Renders a marked grid one byte row per grid row, `#` for marked
/// cells and `.` for clear ones — the diagnostic display of an
/// antinode field, ready to be printed line by line.
pub fn render_antinodes(antinode_grid: &Grid<bool>) -> (r: Vec<Vec<u8>>)
    requires
        antinode_grid.wf(),
    ensures
        r@.len() == antinode_grid.spec_height(),
        forall|y: int|
            0 <= y < r@.len() ==> (#[trigger] r@[y])@.len() == antinode_grid.spec_width(),
        forall|y: int, x: int|
            0 <= y < r@.len() && 0 <= x < antinode_grid.spec_width() ==> r@[y]@[x] == (
            if antinode_grid@[y * antinode_grid.spec_width() + x] {
                35u8
            } else {
                46u8
            }),
{
    let ghost w = antinode_grid.spec_width() as int;
    let ghost h = antinode_grid.spec_height() as int;
    proof {
        crate::grid_2d::lemma_shape_consistent(*antinode_grid);
        assert(w * h == h * w) by (nonlinear_arith);
    }
    let width = antinode_grid.num_columns();
    let height = antinode_grid.num_rows();
    let total = antinode_grid.num_cells();
    let cells = antinode_grid.iter();
    proof {
        assert(total == antinode_grid@.len());
    }
    let mut rows: Vec<Vec<u8>> = Vec::new();
    let mut y: usize = 0;
    #[verifier::loop_isolation(false)]
    while y < height
        invariant
            y <= height,
            rows@.len() == y,
            forall|yp: int| 0 <= yp < y ==> (#[trigger] rows@[yp])@.len() == w,
            forall|yp: int, xp: int|
                0 <= yp < y && 0 <= xp < w ==> rows@[yp]@[xp] == (if antinode_grid@[yp * w + xp] {
                    35u8
                } else {
                    46u8
                }),
        decreases height - y,
    {
        let mut row: Vec<u8> = Vec::new();
        let mut x: usize = 0;
        #[verifier::loop_isolation(false)]
        while x < width
            invariant
                x <= width,
                y < height,
                row@.len() == x,
                forall|xp: int|
                    0 <= xp < x ==> row@[xp] == (if antinode_grid@[y * w + xp] {
                        35u8
                    } else {
                        46u8
                    }),
            decreases width - x,
        {
            proof {
                assert(0 <= y * w + x < w * h) by (nonlinear_arith)
                    requires
                        0 <= x < w,
                        0 <= y < h,
                ;
                assert(w * h == antinode_grid@.len());
                assert((y as int) * (width as int) + (x as int) < cells@.len());
            }
            let index = y * width + x;
            if cells[index] {
                row.push(35);
            } else {
                row.push(46);
            }
            x = x + 1;
        }
        rows.push(row);
        y = y + 1;
    }
    rows
}

/// `a` is scanned strictly before `b` in row-major order.
pub open spec fn scan_before(a: Coordinates, b: Coordinates) -> bool {
    a.y < b.y || (a.y == b.y && a.x < b.x)
}

/// Every line is as long as the first.
pub open spec fn antenna_map_rectangular(lines: Seq<Vec<u8>>) -> bool {
    forall|y: int| 0 <= y < lines.len() ==> (#[trigger] lines[y])@.len() == lines[0]@.len()
}

/// The machine limit on antenna maps accepted by the collector.
pub open spec fn antenna_size_ok(lines: Seq<Vec<u8>>) -> bool {
    &&& lines.len() <= 0x1000_0000
    &&& (lines.len() == 0 || (lines[0]@.len() <= 0x1000_0000 && lines.len() * lines[0]@.len()
        <= 0x1000_0000))
}

/// The well-formed grouping of an antenna map: labelled, in-grid,
/// scan-ordered, complete, with distinct labels in first-occurrence
/// order.
pub open spec fn antenna_groups_ok(
    lines: Seq<Vec<u8>>,
    groups: Seq<(u8, Vec<Coordinates>)>,
    width: int,
    height: int,
) -> bool {
    &&& groups_in_grid(groups, width, height)
    &&& groups_distinct(groups)
    &&& forall|g: int| 0 <= g < groups.len() ==> (#[trigger] groups[g]).1@.len() > 0
    &&& forall|g: int| 0 <= g < groups.len() ==> (#[trigger] groups[g]).0 != 46
    &&& forall|g: int, k: int|
        0 <= g < groups.len() && 0 <= k < groups[g].1@.len() ==> lines[(
        #[trigger] groups[g].1@[k]).y as int]@[groups[g].1@[k].x as int] == groups[g].0
    &&& forall|g: int, k1: int, k2: int|
        0 <= g < groups.len() && 0 <= k1 < k2 < groups[g].1@.len() ==> scan_before(
            #[trigger] groups[g].1@[k1],
            #[trigger] groups[g].1@[k2],
        )
    &&& forall|g1: int, g2: int|
        0 <= g1 < g2 < groups.len() ==> (#[trigger] groups[g1]).0 != (#[trigger] groups[g2]).0
    &&& forall|g1: int, g2: int|
        0 <= g1 < g2 < groups.len() ==> scan_before(
            (#[trigger] groups[g1]).1@[0],
            (#[trigger] groups[g2]).1@[0],
        )
    &&& forall|y: int, x: int|
        0 <= y < height && 0 <= x < width && #[trigger] lines[y]@[x] != 46 ==> exists|g: int, k: int|
            0 <= g < groups.len() && 0 <= k < groups[g].1@.len() && groups[g].0 == lines[y]@[x]
                && (#[trigger] groups[g].1@[k]).x == x && groups[g].1@[k].y == y
}

/// The position of the group carrying `label`, if one exists.
fn find_group(groups: &Vec<(u8, Vec<Coordinates>)>, label: u8) -> (r: Option<usize>)
    ensures
        r matches Some(gi) ==> gi < groups@.len() && groups@[gi as int].0 == label,
        r is None ==> forall|g: int| 0 <= g < groups@.len() ==> (#[trigger] groups@[g]).0 != label,
{
    let mut g: usize = 0;
    while g < groups.len()
        invariant
            g <= groups@.len(),
            forall|g2: int| 0 <= g2 < g ==> (#[trigger] groups@[g2]).0 != label,
        decreases groups@.len() - g,
    {
        if groups[g].0 == label {
            return Some(g);
        }
        g = g + 1;
    }
    None
}

/// Reads an antenna map: every byte other than `.` is an antenna whose
/// label is the byte itself.  Returns the antennas grouped by label —
/// each group in row-major scan order, the groups in order of their
/// label's first occurrence — together with the map's width and
/// height.  Fails on ragged lines or a map over the size limit.
#[verifier::rlimit(100)]
pub fn collect_antennas(lines: &Vec<Vec<u8>>) -> (r: crate::GenericResult<
    (Vec<(u8, Vec<Coordinates>)>, usize, usize),
>)
    ensures
        r.is_ok() == (antenna_map_rectangular(lines@) && antenna_size_ok(lines@)),
        r matches Ok(t) ==> ({
            &&& t.2 == lines@.len()
            &&& (lines@.len() > 0 ==> t.1 == lines@[0]@.len())
            &&& (lines@.len() == 0 ==> t.1 == 0)
            &&& t.1 <= 0x1000_0000
            &&& t.2 <= 0x1000_0000
            &&& t.1 * t.2 <= 0x1000_0000
            &&& antenna_groups_ok(lines@, t.0@, t.1 as int, t.2 as int)
        }),
{
    let height = lines.len();
    if height > 0x1000_0000 {
        return Err(crate::GenericError::BasicError("Antenna map is too large".to_string()));
    }
    if height == 0 {
        let groups: Vec<(u8, Vec<Coordinates>)> = Vec::new();
        return Ok((groups, 0, 0));
    }
    let width = lines[0].len();
    if width > 0x1000_0000 {
        return Err(crate::GenericError::BasicError("Antenna map is too large".to_string()));
    }
    let cell_count = match width.checked_mul(height) {
        Some(n) => n,
        None => {
            return Err(crate::GenericError::BasicError("Antenna map is too large".to_string()));
        },
    };
    if cell_count > 0x1000_0000 {
        return Err(crate::GenericError::BasicError("Antenna map is too large".to_string()));
    }

    let mut groups: Vec<(u8, Vec<Coordinates>)> = Vec::new();

    let mut y: usize = 0;
    #[verifier::loop_isolation(false)]
    while y < height
        invariant
            y <= height,
            forall|yp: int| 0 <= yp < y ==> (#[trigger] lines@[yp])@.len() == width,
            groups_in_grid(groups@, width as int, height as int),
            groups_distinct(groups@),
            forall|g: int| 0 <= g < groups@.len() ==> (#[trigger] groups@[g]).1@.len() > 0,
            forall|g: int| 0 <= g < groups@.len() ==> (#[trigger] groups@[g]).0 != 46,
            forall|g: int, k: int|
                0 <= g < groups@.len() && 0 <= k < groups@[g].1@.len() ==> lines@[(
                #[trigger] groups@[g].1@[k]).y as int]@[groups@[g].1@[k].x as int] == groups@[g].0,
            forall|g: int, k: int|
                0 <= g < groups@.len() && 0 <= k < groups@[g].1@.len() ==> (
                #[trigger] groups@[g].1@[k]).y < y,
            forall|g: int, k1: int, k2: int|
                0 <= g < groups@.len() && 0 <= k1 < k2 < groups@[g].1@.len() ==> scan_before(
                    #[trigger] groups@[g].1@[k1],
                    #[trigger] groups@[g].1@[k2],
                ),
            forall|g1: int, g2: int|
                0 <= g1 < g2 < groups@.len() ==> (#[trigger] groups@[g1]).0 != (
                #[trigger] groups@[g2]).0,
            forall|g1: int, g2: int|
                0 <= g1 < g2 < groups@.len() ==> scan_before(
                    (#[trigger] groups@[g1]).1@[0],
                    (#[trigger] groups@[g2]).1@[0],
                ),
            forall|yp: int, xp: int|
                0 <= yp < y && 0 <= xp < width && #[trigger] lines@[yp]@[xp] != 46 ==> exists|
                    g: int,
                    k: int,
                |
                    0 <= g < groups@.len() && 0 <= k < groups@[g].1@.len() && groups@[g].0
                        == lines@[yp]@[xp] && (#[trigger] groups@[g].1@[k]).x == xp
                        && groups@[g].1@[k].y == yp,
        decreases height - y,
    {
        if lines[y].len() != width {
            return Err(
                crate::GenericError::BasicError(
                    "Antenna map lines are not all the same width".to_string(),
                ),
            );
        }
        let mut x: usize = 0;
        #[verifier::loop_isolation(false)]
        while x < width
            invariant
                x <= width,
                lines@[y as int]@.len() == width,
                groups_in_grid(groups@, width as int, height as int),
                groups_distinct(groups@),
                forall|g: int| 0 <= g < groups@.len() ==> (#[trigger] groups@[g]).1@.len() > 0,
                forall|g: int| 0 <= g < groups@.len() ==> (#[trigger] groups@[g]).0 != 46,
                forall|g: int, k: int|
                    0 <= g < groups@.len() && 0 <= k < groups@[g].1@.len() ==> lines@[(
                    #[trigger] groups@[g].1@[k]).y as int]@[groups@[g].1@[k].x as int]
                        == groups@[g].0,
                forall|g: int, k: int|
                    0 <= g < groups@.len() && 0 <= k < groups@[g].1@.len() ==> ((
                    #[trigger] groups@[g].1@[k]).y < y || (groups@[g].1@[k].y == y
                        && groups@[g].1@[k].x < x)),
                forall|g: int, k1: int, k2: int|
                    0 <= g < groups@.len() && 0 <= k1 < k2 < groups@[g].1@.len() ==> scan_before(
                        #[trigger] groups@[g].1@[k1],
                        #[trigger] groups@[g].1@[k2],
                    ),
                forall|g1: int, g2: int|
                    0 <= g1 < g2 < groups@.len() ==> (#[trigger] groups@[g1]).0 != (
                    #[trigger] groups@[g2]).0,
                forall|g1: int, g2: int|
                    0 <= g1 < g2 < groups@.len() ==> scan_before(
                        (#[trigger] groups@[g1]).1@[0],
                        (#[trigger] groups@[g2]).1@[0],
                    ),
                forall|yp: int, xp: int|
                    (0 <= yp < y && 0 <= xp < width || yp == y && 0 <= xp < x)
                        && #[trigger] lines@[yp]@[xp] != 46 ==> exists|g: int, k: int|
                        0 <= g < groups@.len() && 0 <= k < groups@[g].1@.len() && groups@[g].0
                            == lines@[yp]@[xp] && (#[trigger] groups@[g].1@[k]).x == xp
                            && groups@[g].1@[k].y == yp,
            decreases width - x,
        {
            let b = lines[y][x];
            if b != 46 {
                let coordinate = Coordinates { x: x as i64, y: y as i64 };
                let ghost groups0 = groups@;
                match find_group(&groups, b) {
                    Some(gi) => {
                        let mut pair = groups.remove(gi);
                        pair.1.push(coordinate);
                        groups.insert(gi, pair);
                        proof {
                            assert(groups@ =~= groups0.update(
                                gi as int,
                                (groups0[gi as int].0, pair.1),
                            ));
                            assert(pair.1@ =~= groups0[gi as int].1@.push(coordinate));
                            assert forall|yp: int, xp: int|
                                (0 <= yp < y && 0 <= xp < width || yp == y && 0 <= xp < x + 1)
                                    && #[trigger] lines@[yp]@[xp] != 46 implies exists|
                                g: int,
                                k: int,
                            |
                                0 <= g < groups@.len() && 0 <= k < groups@[g].1@.len()
                                    && groups@[g].0 == lines@[yp]@[xp] && (
                                #[trigger] groups@[g].1@[k]).x == xp && groups@[g].1@[k].y == yp by {
                                if yp == y && xp == x {
                                    let k = groups@[gi as int].1@.len() - 1;
                                    assert(groups@[gi as int].1@[k] == coordinate);
                                    assert(groups@[gi as int].0 == lines@[yp]@[xp]);
                                } else {
                                    let (g, k) = choose|g: int, k: int|
                                        0 <= g < groups0.len() && 0 <= k < groups0[g].1@.len()
                                            && groups0[g].0 == lines@[yp]@[xp] && (
                                        #[trigger] groups0[g].1@[k]).x == xp && groups0[g].1@[k].y
                                            == yp;
                                    assert(groups@[g].0 == groups0[g].0);
                                    assert(groups@[g].1@[k] == groups0[g].1@[k]);
                                }
                            }
                        }
                    },
                    None => {
                        let mut positions: Vec<Coordinates> = Vec::new();
                        positions.push(coordinate);
                        groups.push((b, positions));
                        proof {
                            assert forall|yp: int, xp: int|
                                (0 <= yp < y && 0 <= xp < width || yp == y && 0 <= xp < x + 1)
                                    && #[trigger] lines@[yp]@[xp] != 46 implies exists|
                                g: int,
                                k: int,
                            |
                                0 <= g < groups@.len() && 0 <= k < groups@[g].1@.len()
                                    && groups@[g].0 == lines@[yp]@[xp] && (
                                #[trigger] groups@[g].1@[k]).x == xp && groups@[g].1@[k].y == yp by {
                                if yp == y && xp == x {
                                    let g = groups@.len() - 1;
                                    assert(groups@[g].1@[0] == coordinate);
                                    assert(groups@[g].0 == lines@[yp]@[xp]);
                                } else {
                                    let (g, k) = choose|g: int, k: int|
                                        0 <= g < groups0.len() && 0 <= k < groups0[g].1@.len()
                                            && groups0[g].0 == lines@[yp]@[xp] && (
                                        #[trigger] groups0[g].1@[k]).x == xp && groups0[g].1@[k].y
                                            == yp;
                                    assert(groups@[g].0 == groups0[g].0);
                                    assert(groups@[g].1@[k] == groups0[g].1@[k]);
                                }
                            }
                        }
                    },
                }
            }
            x = x + 1;
        }
        y = y + 1;
    }

    proof {
        assert(antenna_map_rectangular(lines@));
        assert((lines@.len() as int) * (lines@[0]@.len() as int) <= 0x1000_0000)
            by (nonlinear_arith)
            requires
                lines@.len() == height as int,
                lines@[0]@.len() == width as int,
                (width as int) * (height as int) <= 0x1000_0000,
        ;
    }
    Ok((groups, width, height))
}

} // verus!
