use bingo_odds::engine::{expand_chunk, ProbEngine, RoundResult};
use bingo_odds::search::recursion;

fn sample_needs() -> Vec<Vec<i32>> {
    vec![vec![1], vec![2, 3], vec![1, 4, 5], vec![3, 4, 5, 2]]
}

#[test]
fn test_stream_1() {
    let mut engine = ProbEngine::new(sample_needs(), vec![1, 2, 3, 4, 5]);

    let r1 = engine.next_round().unwrap();
    assert_eq!((r1.round, r1.total, r1.bingo_count as f64 / r1.total as f64), (1, 5, 0.2));

    let r2 = engine.next_round().unwrap();
    assert_eq!((r2.round, r2.total, r2.bingo_count as f64 / r2.total as f64), (2, 20, 0.5));

    let r3 = engine.next_round().unwrap();
    assert_eq!((r3.round, r3.total, r3.bingo_count as f64 / r3.total as f64), (3, 60, 0.8));
}

#[test]
fn engine_counts_each_round_exactly() {
    let mut engine = ProbEngine::new(sample_needs(), vec![1, 2, 3, 4, 5]);
    assert_eq!(engine.next_round(), Some(RoundResult { round: 1, total: 5, bingo_count: 1 }));
    assert_eq!(engine.next_round(), Some(RoundResult { round: 2, total: 20, bingo_count: 10 }));
    assert_eq!(engine.next_round(), Some(RoundResult { round: 3, total: 60, bingo_count: 48 }));
    assert_eq!(engine.round(), 3);
    assert_eq!(engine.bingo_count(), 48);
    assert_eq!(engine.pending().len(), 12);
}

#[test]
fn engine_first_round_two_singletons() {
    let mut engine = ProbEngine::new(vec![vec![1], vec![2]], vec![1, 2, 3, 4, 5]);
    let r = engine.next_round().unwrap();
    assert_eq!(r.bingo_count as f64 / r.total as f64, 0.4);
}

#[test]
fn engine_wins_are_absorbing() {
    let pool = vec![1, 2, 3, 4, 5];
    let mut engine = ProbEngine::new(sample_needs(), pool.clone());
    let mut previous: i128 = 0;
    for n in 1..=5usize {
        let r = engine.next_round().unwrap();
        let left = pool.len() as i128 - (n as i128 - 1);
        assert!(r.bingo_count >= previous * left);
        previous = r.bingo_count;
    }
}

fn sorted_contents(pending: &Vec<Vec<i32>>) -> Vec<Vec<i32>> {
    let mut all: Vec<Vec<i32>> = pending
        .iter()
        .map(|c| {
            let mut c = c.clone();
            c.sort();
            c
        })
        .collect();
    all.sort();
    all
}

#[test]
fn engine_chunk_size_does_not_change_the_answer() {
    let needs = vec![vec![1, 2, 3], vec![4, 5, 6], vec![7, 8], vec![2, 9]];
    let pool: Vec<i32> = (1..=9).collect();
    let mut small = ProbEngine::with_chunk_size(needs.clone(), pool.clone(), 1);
    let mut large = ProbEngine::with_chunk_size(needs, pool, 3000);
    for _ in 0..3 {
        assert_eq!(small.next_round(), large.next_round());
    }
    assert_eq!(small.bingo_count(), large.bingo_count());
    assert_eq!(sorted_contents(small.pending()), sorted_contents(large.pending()));
    assert_eq!(small.pending(), large.pending());
}

#[test]
fn engine_chunk_size_zero_is_one_chunk() {
    let mut whole = ProbEngine::with_chunk_size(sample_needs(), vec![1, 2, 3, 4, 5], 0);
    let mut split = ProbEngine::with_chunk_size(sample_needs(), vec![1, 2, 3, 4, 5], 2);
    for _ in 0..4 {
        assert_eq!(whole.next_round(), split.next_round());
    }
}

#[test]
fn engine_cancel_stops_later_rounds() {
    let mut engine = ProbEngine::new(sample_needs(), vec![1, 2, 3, 4, 5]);
    let first = engine.next_round();
    assert_eq!(first, Some(RoundResult { round: 1, total: 5, bingo_count: 1 }));
    engine.cancel();
    assert!(engine.is_cancelled());
    assert_eq!(engine.next_round(), None);
    assert_eq!(engine.next_round(), None);
    assert_eq!(engine.round(), 1);
    assert_eq!(engine.bingo_count(), 1);
    assert_eq!(first, Some(RoundResult { round: 1, total: 5, bingo_count: 1 }));
}

#[test]
fn engine_cancel_before_first_round() {
    let mut engine = ProbEngine::new(sample_needs(), vec![1, 2, 3, 4, 5]);
    engine.cancel();
    assert_eq!(engine.next_round(), None);
    assert_eq!(engine.round(), 0);
}

#[test]
fn engine_past_an_exhausted_pool() {
    let mut engine = ProbEngine::new(vec![vec![1, 2]], vec![1, 2]);
    assert_eq!(engine.next_round(), Some(RoundResult { round: 1, total: 2, bingo_count: 0 }));
    assert_eq!(engine.next_round(), Some(RoundResult { round: 2, total: 2, bingo_count: 2 }));
    assert_eq!(engine.next_round(), Some(RoundResult { round: 3, total: 0, bingo_count: 0 }));
    assert_eq!(engine.next_round(), Some(RoundResult { round: 4, total: 0, bingo_count: 0 }));
}

#[test]
fn engine_far_lines_win_nothing_early() {
    let mut engine = ProbEngine::new(vec![vec![1, 2, 3]], vec![1, 2, 3, 4]);
    assert_eq!(engine.next_round(), Some(RoundResult { round: 1, total: 4, bingo_count: 0 }));
    assert_eq!(engine.next_round(), Some(RoundResult { round: 2, total: 12, bingo_count: 0 }));
    assert_eq!(engine.pending().len(), 12);
    assert_eq!(engine.next_round(), Some(RoundResult { round: 3, total: 24, bingo_count: 6 }));
}

#[test]
fn engine_can_advance_reports_the_integer_limit() {
    let engine = ProbEngine::new(vec![vec![1]], (1..=75).collect());
    assert!(engine.can_advance());
    let empty = ProbEngine::new(vec![vec![1]], vec![]);
    assert!(empty.can_advance());
}

#[test]
fn expand_chunk_splits_wins_and_survivors() {
    let cands = vec![vec![1], vec![2]];
    let (wins, survivors) = expand_chunk(&cands, 0, 2, &vec![1, 2, 3], &vec![vec![1, 3]], 2);
    assert_eq!(wins, 1);
    assert_eq!(survivors, vec![vec![1, 2], vec![2, 1], vec![2, 3]]);
    let (wins, survivors) = expand_chunk(&cands, 1, 2, &vec![1, 2, 3], &vec![vec![1, 3]], 2);
    assert_eq!(wins, 0);
    assert_eq!(survivors, vec![vec![2, 1], vec![2, 3]]);
}

#[test]
fn engine_agrees_with_depth_first_count() {
    let needs = vec![vec![1, 2], vec![3], vec![4, 5, 6], vec![2, 6]];
    let pool: Vec<i32> = (1..=6).collect();
    let mut engine = ProbEngine::with_chunk_size(needs.clone(), pool.clone(), 5);
    for n in 1..=6usize {
        let r = engine.next_round().unwrap();
        assert_eq!(r.bingo_count, recursion(&pool, &needs, &vec![], n) as i128);
    }
}
