use puzzle_grid::lists::{distance_sum, similarity_score, sort_list, total_distance};
use puzzle_grid::parsing::{parse_i64, parse_u64, split_tokens};
use puzzle_grid::reports::{count_safe, create_dampened_vec, is_stable};
use puzzle_grid::tokens::{calculate_output, evaluate_tokens, tokenise, Token};

#[test]
fn sort_list_orders_ascending() {
    let sorted = sort_list(&vec![3, 4, 2, 1, 3, 3]);
    assert_eq!(sorted, vec![1, 2, 3, 3, 3, 4]);
}

#[test]
fn list_distance_matches_fixture() {
    let list1 = vec![3, 4, 2, 1, 3, 3];
    let list2 = vec![4, 3, 5, 3, 9, 3];
    assert_eq!(total_distance(&list1, &list2), Some(11));
}

#[test]
fn distance_sum_pairs_positionally() {
    assert_eq!(distance_sum(&vec![1, 10], &vec![4, 2]), Some(3 + 8));
    assert_eq!(distance_sum(&vec![], &vec![1, 2, 3]), Some(0));
}

#[test]
fn similarity_score_matches_fixture() {
    let list1 = vec![3, 4, 2, 1, 3, 3];
    let list2 = vec![4, 3, 5, 3, 9, 3];
    assert_eq!(similarity_score(&list1, &list2), Some(31));
}

#[test]
fn dampened_vec_removes_one_level() {
    assert_eq!(create_dampened_vec(&vec![1, 2, 3, 4], 0), vec![2, 3, 4]);
    assert_eq!(create_dampened_vec(&vec![1, 2, 3, 4], 2), vec![1, 2, 4]);
    assert_eq!(create_dampened_vec(&vec![1, 2, 3, 4], 3), vec![1, 2, 3]);
}

#[test]
fn stability_without_dampening() {
    assert!(is_stable(vec![7, 6, 4, 2, 1], false));
    assert!(!is_stable(vec![1, 2, 7, 8, 9], false));
    assert!(!is_stable(vec![9, 7, 6, 2, 1], false));
    assert!(!is_stable(vec![1, 3, 2, 4, 5], false));
    assert!(!is_stable(vec![8, 6, 4, 4, 1], false));
    assert!(is_stable(vec![1, 3, 6, 7, 9], false));
    assert!(is_stable(vec![5], false));
}

#[test]
fn stability_with_dampening() {
    assert!(is_stable(vec![1, 3, 2, 4, 5], true));
    assert!(is_stable(vec![8, 6, 4, 4, 1], true));
    assert!(!is_stable(vec![1, 2, 7, 8, 9], true));
    assert!(!is_stable(vec![9, 7, 6, 2, 1], true));
    // the first level is the bad one
    assert!(is_stable(vec![9, 2, 3, 4], true));
}

#[test]
fn safe_report_counts_match_fixture() {
    let reports = vec![
        vec![7, 6, 4, 2, 1],
        vec![1, 2, 7, 8, 9],
        vec![9, 7, 6, 2, 1],
        vec![1, 3, 2, 4, 5],
        vec![8, 6, 4, 4, 1],
        vec![1, 3, 6, 7, 9],
    ];
    assert_eq!(count_safe(&reports, false), 2);
    assert_eq!(count_safe(&reports, true), 4);
}

#[test]
fn tokenise_recognises_each_spelling() {
    let tokens = tokenise(&b"mul(23,4)x".to_vec(), false);
    assert_eq!(
        tokens,
        vec![
            Token::Multiply,
            Token::OpenParen,
            Token::Integer(23),
            Token::Comma,
            Token::Integer(4),
            Token::CloseParen,
            Token::Unknown(b'x'),
        ]
    );
}

#[test]
fn tokenise_do_dont_only_when_asked() {
    let with = tokenise(&b"do()don't()".to_vec(), true);
    assert_eq!(with, vec![Token::Do, Token::Dont]);
    let without = tokenise(&b"do()".to_vec(), false);
    assert_eq!(
        without,
        vec![Token::Unknown(b'd'), Token::Unknown(b'o'), Token::OpenParen, Token::CloseParen]
    );
}

#[test]
fn evaluate_tokens_sums_enabled_products() {
    let tokens = tokenise(&b"mul(2,4)mul(3,5)".to_vec(), false);
    let (sum, on) = evaluate_tokens(&tokens, true);
    assert_eq!(sum, Some(23));
    assert!(on);
    let (disabled_sum, still_off) = evaluate_tokens(&tokens, false);
    assert_eq!(disabled_sum, Some(0));
    assert!(!still_off);
}

#[test]
fn calculate_output_matches_first_fixture() {
    let line = ["xmul(2,4)%&mul[3,7]!@^do_not_mul(5,5)+mul(32,64]th", "en(mul(11,8)mul(8,5))"]
        .concat();
    let lines = vec![line.into_bytes()];
    assert_eq!(calculate_output(&lines, false), Some(161));
}

#[test]
fn calculate_output_matches_second_fixture() {
    let line = "xmul(2,4)&mul[3,7]!^don't()_mul(5,5)+mul(32,64](mul(11,8)undo()?mul(8,5))";
    let lines = vec![line.as_bytes().to_vec()];
    assert_eq!(calculate_output(&lines, true), Some(48));
}

#[test]
fn disabling_carries_across_lines() {
    let lines = vec![b"don't()mul(2,3)".to_vec(), b"mul(4,5)do()mul(6,7)".to_vec()];
    assert_eq!(calculate_output(&lines, true), Some(42));
}

#[test]
fn unsigned_numbers_parse_exactly() {
    assert_eq!(parse_u64(&b"0".to_vec()), Some(0));
    assert_eq!(parse_u64(&b"007".to_vec()), Some(7));
    assert_eq!(parse_u64(&b"18446744073709551615".to_vec()), Some(u64::MAX));
    assert_eq!(parse_u64(&b"18446744073709551616".to_vec()), None);
    assert_eq!(parse_u64(&b"".to_vec()), None);
    assert_eq!(parse_u64(&b"12a".to_vec()), None);
}

#[test]
fn signed_numbers_parse_exactly() {
    assert_eq!(parse_i64(&b"42".to_vec()), Some(42));
    assert_eq!(parse_i64(&b"-42".to_vec()), Some(-42));
    assert_eq!(parse_i64(&b"-".to_vec()), None);
    assert_eq!(parse_i64(&b"9223372036854775807".to_vec()), Some(i64::MAX));
    assert_eq!(parse_i64(&b"-9223372036854775808".to_vec()), Some(i64::MIN));
    assert_eq!(parse_i64(&b"9223372036854775808".to_vec()), None);
}

#[test]
fn splitting_keeps_empty_pieces() {
    let pieces = split_tokens(&b"3   4".to_vec(), b' ');
    assert_eq!(pieces, vec![b"3".to_vec(), b"".to_vec(), b"".to_vec(), b"4".to_vec()]);
    assert_eq!(split_tokens(&b"a|b".to_vec(), b'|'), vec![b"a".to_vec(), b"b".to_vec()]);
    assert_eq!(split_tokens(&b"".to_vec(), b','), vec![b"".to_vec()]);
}
