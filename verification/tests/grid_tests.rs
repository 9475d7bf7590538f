use puzzle_grid::grid_2d::{Coordinates, Grid};

#[test]
fn set_then_get_returns_written_value() {
    let mut grid: Grid<i64> = Grid::new(4, 3, 0);
    assert!(grid.set_value(Coordinates { x: 2, y: 1 }, 7));
    assert_eq!(grid.get_value(Coordinates { x: 2, y: 1 }), Some(&7));
    // every coordinate inside the rectangle reads back what was written
    for y in 0..3i64 {
        for x in 0..4i64 {
            let c = Coordinates { x, y };
            assert!(grid.set_value(c, 10 * y + x));
            assert_eq!(grid.get_value(c), Some(&(10 * y + x)));
        }
    }
}

#[test]
fn out_of_bounds_reads_absent_and_writes_fail() {
    let mut grid: Grid<u8> = Grid::new(4, 3, 1);
    let probes = [
        Coordinates { x: -1, y: 0 },
        Coordinates { x: 0, y: -1 },
        Coordinates { x: -5, y: -5 },
        Coordinates { x: 4, y: 0 },
        Coordinates { x: 0, y: 3 },
        Coordinates { x: 4, y: 3 },
        Coordinates { x: 100, y: 100 },
        Coordinates { x: i64::MIN, y: 0 },
        Coordinates { x: 0, y: i64::MAX },
    ];
    for probe in probes {
        assert_eq!(grid.get_value(probe), None);
        assert!(!grid.set_value(probe, 9));
    }
    // the failed writes left the grid unchanged
    for y in 0..3i64 {
        for x in 0..4i64 {
            assert_eq!(grid.get_value(Coordinates { x, y }), Some(&1));
        }
    }
}

#[test]
fn row_wrap_is_rejected() {
    // x == width has raw linear index 0 * 4 + 4 = 4, a valid buffer
    // position (row 1, column 0) — the per-axis bound must reject it.
    let mut grid: Grid<u8> = Grid::new(4, 3, 0);
    assert!(grid.set_value(Coordinates { x: 0, y: 1 }, 42));
    assert_eq!(grid.get_value(Coordinates { x: 4, y: 0 }), None);
    assert!(!grid.set_value(Coordinates { x: 4, y: 0 }, 9));
    assert_eq!(grid.get_value(Coordinates { x: 0, y: 1 }), Some(&42));
}

#[test]
fn shape_stays_consistent() {
    let mut grid: Grid<bool> = Grid::new(5, 7, false);
    assert_eq!(grid.num_rows(), 7);
    assert_eq!(grid.num_columns(), 5);
    assert_eq!(grid.num_cells(), 35);
    assert_eq!(grid.num_rows() * grid.num_columns(), grid.num_cells());
    for i in 0..100i64 {
        grid.set_value(Coordinates { x: i % 9 - 1, y: i / 9 - 1 }, true);
        assert_eq!(grid.num_rows() * grid.num_columns(), grid.num_cells());
    }
}

#[test]
fn zero_width_grid_is_degenerate() {
    let grid: Grid<u8> = Grid::new(0, 5, 3);
    assert_eq!(grid.num_cells(), 0);
    assert_eq!(grid.num_rows(), 0);
    assert_eq!(grid.num_columns(), 0);
    assert_eq!(grid.num_rows() * grid.num_columns(), grid.num_cells());
    assert_eq!(grid.get_value(Coordinates { x: 0, y: 0 }), None);
}

#[test]
fn iteration_is_row_major() {
    let mut grid: Grid<u8> = Grid::new(3, 2, 0);
    grid.set_value(Coordinates { x: 0, y: 0 }, 1);
    grid.set_value(Coordinates { x: 1, y: 0 }, 2);
    grid.set_value(Coordinates { x: 2, y: 0 }, 3);
    grid.set_value(Coordinates { x: 0, y: 1 }, 4);
    grid.set_value(Coordinates { x: 1, y: 1 }, 5);
    grid.set_value(Coordinates { x: 2, y: 1 }, 6);
    let cells: Vec<u8> = grid.iter().iter().copied().collect();
    assert_eq!(cells, vec![1, 2, 3, 4, 5, 6]);
}

#[test]
fn coordinate_arithmetic_round_trips() {
    let a = Coordinates { x: 17, y: -4 };
    let b = Coordinates { x: -3, y: 11 };
    assert_eq!(a.subtract(b).add(b), a);
    assert_eq!(a.add(b), Coordinates { x: 14, y: 7 });
    assert_eq!(a.subtract(b), Coordinates { x: 20, y: -15 });
    assert_eq!(a.scale(1), a);
    assert_eq!(a.scale(0), Coordinates { x: 0, y: 0 });
    assert_eq!(a.scale(-2), Coordinates { x: -34, y: 8 });
}

#[test]
fn in_place_arithmetic_matches_pure_operations() {
    let a = Coordinates { x: 5, y: 9 };
    let b = Coordinates { x: 2, y: -7 };
    let mut c = a;
    c.add_assign(b);
    assert_eq!(c, a.add(b));
    let mut d = a;
    d.subtract_assign(b);
    assert_eq!(d, a.subtract(b));
}
