use puzzle_grid::antennas::{
    collect_antennas, count_projected_antinodes, count_ray_antinodes, generate_antinodes_part1,
    render_antinodes,
};
use puzzle_grid::grid_2d::Grid;
use puzzle_grid::calibration::{recursive_fn_part1, recursive_fn_part2, sum_valid_equations, Equation};
use puzzle_grid::grid_2d::Coordinates;

fn antenna_map() -> Vec<Vec<u8>> {
    [
        "............",
        "........0...",
        ".....0......",
        ".......0....",
        "....0.......",
        "......A.....",
        "............",
        "............",
        "........A...",
        ".........A..",
        "............",
        "............",
    ]
    .iter()
    .map(|row| row.as_bytes().to_vec())
    .collect()
}

#[test]
fn antennas_are_grouped_by_label() {
    let (groups, width, height) = collect_antennas(&antenna_map()).unwrap();
    assert_eq!(width, 12);
    assert_eq!(height, 12);
    assert_eq!(groups.len(), 2);
    assert_eq!(groups[0].0, b'0');
    assert_eq!(
        groups[0].1,
        vec![
            Coordinates { x: 8, y: 1 },
            Coordinates { x: 5, y: 2 },
            Coordinates { x: 7, y: 3 },
            Coordinates { x: 4, y: 4 },
        ]
    );
    assert_eq!(groups[1].0, b'A');
    assert_eq!(
        groups[1].1,
        vec![Coordinates { x: 6, y: 5 }, Coordinates { x: 8, y: 8 }, Coordinates { x: 9, y: 9 }]
    );
}

#[test]
fn ragged_antenna_map_is_refused() {
    let lines = vec![b"ab".to_vec(), b"abc".to_vec()];
    assert!(collect_antennas(&lines).is_err());
}

#[test]
fn projected_antinode_count_matches_fixture() {
    let (groups, width, height) = collect_antennas(&antenna_map()).unwrap();
    assert_eq!(count_projected_antinodes(&groups, width, height), 14);
}

#[test]
fn ray_antinode_count_matches_fixture() {
    let (groups, width, height) = collect_antennas(&antenna_map()).unwrap();
    assert_eq!(count_ray_antinodes(&groups, width, height), 34);
}

#[test]
fn equal_label_pair_projects_both_antinodes() {
    let lines = vec![b"a..a..".to_vec(), b"......".to_vec()];
    let (groups, width, height) = collect_antennas(&lines).unwrap();
    // the pair at x = 0 and x = 3 projects to x = -3 and x = 6, both
    // outside a width-6 grid
    assert_eq!(count_projected_antinodes(&groups, width, height), 0);
    // the rays mark the two antenna cells themselves and nothing else
    assert_eq!(count_ray_antinodes(&groups, width, height), 2);
}

#[test]
fn rendering_marks_antinodes_with_hashes() {
    let mut grid: Grid<bool> = Grid::new(6, 2, false);
    let nodes = vec![Coordinates { x: 1, y: 0 }, Coordinates { x: 2, y: 0 }];
    generate_antinodes_part1(&nodes, &mut grid);
    let rows = render_antinodes(&grid);
    assert_eq!(rows.len(), 2);
    assert_eq!(rows[0], b"#..#..".to_vec());
    assert_eq!(rows[1], b"......".to_vec());
}

#[test]
fn calibration_reachability_with_two_operators() {
    let elements = vec![10, 19];
    assert!(recursive_fn_part1(190, elements[0], &elements, 1));
    let unreachable = vec![17, 5];
    assert!(!recursive_fn_part1(83, unreachable[0], &unreachable, 1));
}

#[test]
fn calibration_reachability_with_concatenation() {
    let elements = vec![15, 6];
    assert!(!recursive_fn_part1(156, elements[0], &elements, 1));
    assert!(recursive_fn_part2(156, elements[0], &elements, 1));
    let elements2 = vec![6, 8, 6, 15];
    assert!(recursive_fn_part2(7290, elements2[0], &elements2, 1));
}

fn calibration_equations() -> Vec<Equation> {
    let raw: [(u64, &[u64]); 9] = [
        (190, &[10, 19]),
        (3267, &[81, 40, 27]),
        (83, &[17, 5]),
        (156, &[15, 6]),
        (7290, &[6, 8, 6, 15]),
        (161011, &[16, 10, 13]),
        (192, &[17, 8, 14]),
        (21037, &[9, 7, 18]),
        (292, &[11, 6, 16, 20]),
    ];
    raw.iter()
        .map(|(expected, elements)| Equation {
            expected_result: *expected,
            equation_elements: elements.to_vec(),
        })
        .collect()
}

#[test]
fn calibration_total_matches_fixture() {
    assert_eq!(sum_valid_equations(&calibration_equations(), false), Some(3749));
}

#[test]
fn calibration_total_with_concatenation_matches_fixture() {
    assert_eq!(sum_valid_equations(&calibration_equations(), true), Some(11387));
}
