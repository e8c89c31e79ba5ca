use bingo_odds::card::{check_exists_any_line, line_cell, need_set, need_sets, BingoCard};
use bingo_odds::lines::{all_beyond, contains_num, covers_all, is_bingo};

fn sample_card() -> BingoCard {
    BingoCard {
        numbers: [
            [1, 11, 3, 2, 14],
            [30, 19, 22, 29, 17],
            [42, 38, 0, 44, 46],
            [60, 53, 59, 55, 58],
            [74, 68, 61, 67, 73],
        ],
        state: [
            [false, false, false, false, false],
            [false, false, false, false, false],
            [false, false, true, false, false],
            [false, false, false, false, false],
            [false, false, false, false, false],
        ],
    }
}

#[test]
fn need_sets_leave_out_revealed_cells() {
    let needs = need_sets(&sample_card());
    assert_eq!(needs.len(), 12);
    assert_eq!(needs[0], vec![1, 11, 3, 2, 14]);
    assert_eq!(needs[2], vec![42, 38, 44, 46]);
    assert_eq!(needs[5], vec![1, 30, 42, 60, 74]);
    assert_eq!(needs[7], vec![3, 22, 59, 61]);
    assert_eq!(needs[10], vec![1, 19, 55, 73]);
    assert_eq!(needs[11], vec![14, 29, 53, 74]);
}

#[test]
fn need_sets_are_deterministic() {
    let card = sample_card();
    assert_eq!(need_sets(&card), need_sets(&card));
    assert_eq!(need_sets(&card), need_sets(&sample_card()));
}

#[test]
fn need_set_keeps_each_number_once() {
    let mut card = sample_card();
    card.numbers[0] = [7, 7, 8, 7, 9];
    assert_eq!(need_set(&card, 0), vec![7, 8, 9]);
}

#[test]
fn need_set_of_complete_line_is_empty() {
    let mut card = sample_card();
    card.state[2] = [true; 5];
    assert_eq!(need_set(&card, 2), Vec::<i32>::new());
}

#[test]
fn line_cells_cover_rows_columns_and_diagonals() {
    assert_eq!(line_cell(3, 4), (3, 4));
    assert_eq!(line_cell(6, 2), (2, 1));
    assert_eq!(line_cell(10, 3), (3, 3));
    assert_eq!(line_cell(11, 0), (0, 4));
    assert_eq!(line_cell(11, 4), (4, 0));
}

#[test]
fn no_line_on_a_fresh_card() {
    assert!(!check_exists_any_line(&sample_card()));
}

#[test]
fn a_revealed_diagonal_is_a_line() {
    let mut card = sample_card();
    for j in 0..5 {
        card.state[j][4 - j] = true;
    }
    assert!(check_exists_any_line(&card));
}

#[test]
fn a_revealed_column_is_a_line() {
    let mut card = sample_card();
    for r in 0..5 {
        card.state[r][1] = true;
    }
    assert!(check_exists_any_line(&card));
}

#[test]
fn win_test_respects_the_round() {
    let needs = vec![vec![1, 2], vec![5]];
    assert!(is_bingo(&vec![2, 1], &needs, 2));
    assert!(!is_bingo(&vec![2, 1], &needs, 1));
    assert!(!is_bingo(&vec![3, 4], &needs, 2));
    assert!(covers_all(&vec![3, 2, 1], &vec![1, 2]));
    assert!(!covers_all(&vec![3, 2], &vec![1, 2]));
    assert!(contains_num(&vec![3, 2], 2));
    assert!(all_beyond(&needs, 0));
    assert!(!all_beyond(&needs, 1));
}
