use puzzle_grid::ordering::{is_valid_update, reorder_update, sum_corrected_middles, sum_valid_middles};
use puzzle_grid::word_search::{check_for_diagonal_mas, check_for_xmas, count_cross_mas, count_xmas, get_value_at_index};

fn word_grid() -> (Vec<u8>, i64) {
    let rows = [
        "MMMSXXMASM",
        "MSAMXMSMSA",
        "AMXSXMAAMM",
        "MSAMASMSMX",
        "XMASAMXAMM",
        "XXAMMXXAMA",
        "SMSMSASXSS",
        "SAXAMASAAA",
        "MAMMMXMMMM",
        "MXMXAXMASX",
    ];
    let mut flat: Vec<u8> = Vec::new();
    for row in rows {
        flat.extend_from_slice(row.as_bytes());
    }
    (flat, 10)
}

#[test]
fn lookup_rejects_row_wrap_in_flat_buffer() {
    let (grid, width) = word_grid();
    assert_eq!(get_value_at_index(&grid, (0, 0), width), Some(b'M'));
    assert_eq!(get_value_at_index(&grid, (9, 0), width), Some(b'M'));
    // raw index 10 is inside the buffer but belongs to the next row
    assert_eq!(get_value_at_index(&grid, (10, 0), width), None);
    assert_eq!(get_value_at_index(&grid, (-1, 0), width), None);
    assert_eq!(get_value_at_index(&grid, (0, 10), width), None);
}

#[test]
fn xmas_is_found_along_a_direction() {
    let (grid, width) = word_grid();
    // the X at (5, 0) starts XMAS running right
    assert!(check_for_xmas(&grid, (5, 0), (1, 0), width));
    assert!(!check_for_xmas(&grid, (5, 0), (1, 1), width));
}

#[test]
fn xmas_count_matches_fixture() {
    let (grid, width) = word_grid();
    assert_eq!(count_xmas(&grid, width), 18);
}

#[test]
fn diagonal_mas_is_found_both_ways() {
    let (grid, width) = word_grid();
    // the A at (2, 1) crosses two MAS diagonals
    assert!(check_for_diagonal_mas(&grid, (2, 1), (-1, -1), width));
    assert!(check_for_diagonal_mas(&grid, (2, 1), (-1, 1), width));
}

#[test]
fn cross_mas_count_matches_fixture() {
    let (grid, width) = word_grid();
    assert_eq!(count_cross_mas(&grid, width), 9);
}

fn page_rules() -> Vec<(u64, u64)> {
    vec![
        (47, 53),
        (97, 13),
        (97, 61),
        (97, 47),
        (75, 29),
        (61, 13),
        (75, 53),
        (29, 13),
        (97, 29),
        (53, 29),
        (61, 53),
        (97, 53),
        (61, 29),
        (47, 13),
        (75, 47),
        (97, 75),
        (47, 61),
        (75, 61),
        (47, 29),
        (75, 13),
        (53, 13),
    ]
}

fn page_updates() -> Vec<Vec<u64>> {
    vec![
        vec![75, 47, 61, 53, 29],
        vec![97, 61, 53, 29, 13],
        vec![75, 29, 13],
        vec![75, 97, 47, 61, 53],
        vec![61, 13, 29],
        vec![97, 13, 75, 29, 47],
    ]
}

#[test]
fn valid_updates_are_detected() {
    let rules = page_rules();
    let updates = page_updates();
    let expected = [true, true, true, false, false, false];
    for (update, want) in updates.iter().zip(expected) {
        assert_eq!(is_valid_update(&rules, update), want);
    }
}

#[test]
fn valid_middle_sum_matches_fixture() {
    assert_eq!(sum_valid_middles(&page_rules(), &page_updates()), Some(143));
}

#[test]
fn corrected_middle_sum_matches_fixture() {
    assert_eq!(sum_corrected_middles(&page_rules(), &page_updates()), Some(123));
}

#[test]
fn reorder_repairs_an_invalid_update() {
    let rules = page_rules();
    let mut update = vec![75, 97, 47, 61, 53];
    reorder_update(&rules, &mut update);
    assert_eq!(update, vec![97, 75, 47, 61, 53]);
    assert!(is_valid_update(&rules, &update));
}

#[test]
fn even_length_update_is_refused() {
    let rules = page_rules();
    assert_eq!(sum_valid_middles(&rules, &vec![vec![75, 47]]), None);
    assert_eq!(sum_corrected_middles(&rules, &vec![vec![75, 47]]), None);
}
