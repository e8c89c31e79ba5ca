use bingo_odds::perm::{checked_pattern, pattern};
use bingo_odds::search::{calc_probability, recursion};

#[test]
fn test_recursion_minimum_case() {
    let count = recursion(&vec![1, 2, 3, 4, 5], &vec![vec![1], vec![2]], &vec![], 1);

    assert_eq!(count, 2)
}

#[test]
fn test_recursion_minimum_zero() {
    let count = recursion(
        &vec![1, 2, 3, 4, 5, 6, 7, 8],
        &vec![vec![1, 2, 3, 4], vec![4, 5, 6, 7]],
        &vec![],
        3,
    );

    assert_eq!(count, 0)
}

#[test]
fn test_recursion() {
    let count = recursion(&vec![1, 2, 3, 4], &vec![vec![1]], &vec![], 2);

    assert_eq!(count, 6)
}

#[test]
fn test_recursion_multi_group() {
    let count = recursion(&vec![1, 2, 3, 4], &vec![vec![1], vec![2, 3]], &vec![], 2);

    assert_eq!(count, 8)
}

#[test]
fn test_recursion_multi_group_2() {
    let count = recursion(
        &vec![1, 2, 3, 4],
        &vec![vec![1], vec![2, 3], vec![3, 4], vec![4, 1]],
        &vec![],
        2,
    );

    assert_eq!(count, 10)
}

#[test]
fn test_recursion_multi_group_complicated() {
    let count = recursion(
        &vec![1, 2, 3, 4, 5],
        &vec![vec![1], vec![2, 3], vec![1, 4, 5], vec![3, 4, 5, 2]],
        &vec![],
        3,
    );

    assert_eq!(count, 48)
}

#[test]
fn test_pattern() {
    let pattern_count = pattern(18, 2);
    assert_eq!(pattern_count, 306);
}

#[test]
fn test_pattern_2() {
    let pattern_count = pattern(18, 15);
    assert_eq!(pattern_count, 1067062284288000);
}

#[test]
fn test_calc_probability() {
    let odds = calc_probability(&vec![1, 2, 3, 4, 5], &vec![vec![1], vec![2]], 1);
    assert_eq!(odds.bingo_count as f64 / odds.total as f64, 0.4);
}

#[test]
fn test_calc_probability_2() {
    let odds = calc_probability(
        &vec![1, 2, 3, 4, 5],
        &vec![vec![1], vec![2, 3], vec![1, 4, 5], vec![3, 4, 5, 2]],
        3,
    );
    assert_eq!(odds.bingo_count as f64 / odds.total as f64, 48. / 60.);
}

#[test]
fn pattern_of_zero_rounds_is_one() {
    for n in [0, 1, 5, 18, 75] {
        assert_eq!(pattern(n, 0), 1);
    }
}

#[test]
fn pattern_past_the_pool_is_zero() {
    assert_eq!(pattern(3, 4), 0);
    assert_eq!(pattern(0, 1), 0);
    assert_eq!(pattern(5, 5), 120);
}

#[test]
fn checked_pattern_reports_overflow() {
    assert_eq!(checked_pattern(18, 15), Some(1067062284288000));
    assert_eq!(checked_pattern(75, 2), Some(5550));
    assert_eq!(checked_pattern(75, 40), None);
    assert_eq!(checked_pattern(4, 9), Some(0));
}

#[test]
fn calc_probability_prunes_far_lines() {
    let odds = calc_probability(&vec![1, 2, 3, 4, 5, 6], &vec![vec![1, 2, 3]], 2);
    assert_eq!(odds.bingo_count, 0);
    assert_eq!(odds.total, 30);
}

#[test]
fn recursion_extends_a_partial_draw() {
    // With 1 already drawn, every one-number extension to two draws wins.
    let count = recursion(&vec![1, 2, 3, 4], &vec![vec![1]], &vec![1], 2);
    assert_eq!(count, 3);
}

#[test]
fn pattern_domain_edge_for_a_full_pool() {
    assert_eq!(checked_pattern(75, 21), Some(107471597004169384632198245941248000000));
    assert_eq!(checked_pattern(75, 22), None);
    assert_eq!(pattern(75, 21), 107471597004169384632198245941248000000);
}
