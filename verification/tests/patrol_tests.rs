use puzzle_grid::grid_2d::Coordinates;
use puzzle_grid::patrol::{
    coordinate_in_direction, count_loop_obstructions, count_patrol_positions, does_infinite_loop,
    parse_patrol_map, turn_right, Direction,
};

fn to_lines(rows: &[&str]) -> Vec<Vec<u8>> {
    rows.iter().map(|row| row.as_bytes().to_vec()).collect()
}

fn patrol_map() -> Vec<Vec<u8>> {
    to_lines(&[
        "....#.....",
        ".........#",
        "..........",
        "..#.......",
        ".......#..",
        "..........",
        ".#..^.....",
        "........#.",
        "#.........",
        "......#...",
    ])
}

#[test]
fn turning_goes_clockwise() {
    assert_eq!(turn_right(&Direction::Up), Direction::Right);
    assert_eq!(turn_right(&Direction::Right), Direction::Down);
    assert_eq!(turn_right(&Direction::Down), Direction::Left);
    assert_eq!(turn_right(&Direction::Left), Direction::Up);
}

#[test]
fn stepping_moves_one_cell() {
    let c = Coordinates { x: 4, y: 6 };
    assert_eq!(coordinate_in_direction(&c, &Direction::Up), Coordinates { x: 4, y: 5 });
    assert_eq!(coordinate_in_direction(&c, &Direction::Down), Coordinates { x: 4, y: 7 });
    assert_eq!(coordinate_in_direction(&c, &Direction::Left), Coordinates { x: 3, y: 6 });
    assert_eq!(coordinate_in_direction(&c, &Direction::Right), Coordinates { x: 5, y: 6 });
}

#[test]
fn map_parses_to_grid_and_guard() {
    let (grid, start, facing) = parse_patrol_map(&patrol_map()).unwrap();
    assert_eq!(grid.num_columns(), 10);
    assert_eq!(grid.num_rows(), 10);
    assert_eq!(start, Coordinates { x: 4, y: 6 });
    assert_eq!(facing, Direction::Up);
    assert_eq!(grid.get_value(Coordinates { x: 4, y: 0 }), Some(&true));
    assert_eq!(grid.get_value(Coordinates { x: 0, y: 0 }), Some(&false));
    assert_eq!(grid.get_value(Coordinates { x: 0, y: 8 }), Some(&true));
}

#[test]
fn empty_map_is_refused() {
    let refused = parse_patrol_map(&Vec::new());
    assert!(refused.is_err());
    assert_eq!(refused.err().unwrap().message().as_str(), "Failed to get first line");
}

#[test]
fn map_without_guard_is_refused() {
    let refused = parse_patrol_map(&to_lines(&["..#", "..."]));
    assert!(refused.is_err());
    assert_eq!(refused.err().unwrap().message().as_str(), "Did not find guard location");
}

#[test]
fn map_with_foreign_byte_is_refused() {
    assert!(parse_patrol_map(&to_lines(&["..#", ".q^"])).is_err());
}

#[test]
fn ragged_map_is_refused() {
    assert!(parse_patrol_map(&to_lines(&["..#.", "..", "^..."])).is_err());
}

#[test]
fn patrol_visits_fixture_count() {
    let (grid, start, facing) = parse_patrol_map(&patrol_map()).unwrap();
    assert_eq!(count_patrol_positions(&grid, start, facing), Some(41));
}

#[test]
fn closed_patrol_never_exits() {
    let (grid, start, facing) = parse_patrol_map(&to_lines(&[
        ".#..",
        "...#",
        "#^..",
        "..#.",
    ]))
    .unwrap();
    assert_eq!(count_patrol_positions(&grid, start, facing), None);
}

#[test]
fn loop_detector_sees_the_cycle() {
    let (grid, start, facing) = parse_patrol_map(&to_lines(&[
        ".#..",
        "...#",
        "#^..",
        "..#.",
    ]))
    .unwrap();
    let trail = vec![false; 4 * grid.num_cells()];
    assert!(does_infinite_loop(&grid, trail, start, facing));

    let (open_grid, open_start, open_facing) = parse_patrol_map(&patrol_map()).unwrap();
    let open_trail = vec![false; 4 * open_grid.num_cells()];
    assert!(!does_infinite_loop(&open_grid, open_trail, open_start, open_facing));
}

#[test]
fn obstruction_count_matches_fixture() {
    let (grid, start, facing) = parse_patrol_map(&patrol_map()).unwrap();
    assert_eq!(count_loop_obstructions(grid, start, facing), Some(6));
}
