//! Depth-first count of the ordered draw sequences that complete a line.
use vstd::prelude::*;
use crate::lines::{seqs_of, wins, contains_num, is_bingo, all_beyond};
use crate::perm::{perm_count, next_factor, pattern};
use crate::engine::candidate_in;
use crate::agreement::lemma_ext_count_bound;

verus! {

/// The number of ways to extend the ordered draws `picked` with distinct
/// numbers of `pool`, one at a time, up to `n` draws, so that the result
/// completes a line.
pub open spec fn ext_count(pool: Seq<i32>, needs: Seq<Seq<i32>>, picked: Seq<i32>, n: nat) -> nat
    decreases n - picked.len(), pool.len() + 1,
{
    if picked.len() >= n {
        if wins(picked, needs, n) {
            1
        } else {
            0
        }
    } else {
        ext_sum(pool, needs, picked, n, pool.len())
    }
}

/// The share of `ext_count` that starts with one of the first `k` numbers of
/// `pool`.
pub open spec fn ext_sum(pool: Seq<i32>, needs: Seq<Seq<i32>>, picked: Seq<i32>, n: nat, k: nat) -> nat
    decreases n - picked.len(), k,
{
    if k == 0 || picked.len() >= n || k > pool.len() {
        0
    } else {
        ext_sum(pool, needs, picked, n, (k - 1) as nat) + if picked.contains(pool[k - 1]) {
            0
        } else {
            ext_count(pool, needs, picked.push(pool[k - 1]), n)
        }
    }
}

proof fn lemma_ext_sum_monotonic(
    pool: Seq<i32>,
    needs: Seq<Seq<i32>>,
    picked: Seq<i32>,
    n: nat,
    a: nat,
    b: nat,
)
    requires
        a <= b <= pool.len(),
    ensures
        ext_sum(pool, needs, picked, n, a) <= ext_sum(pool, needs, picked, n, b),
    decreases b - a,
{
    if a < b {
        lemma_ext_sum_monotonic(pool, needs, picked, n, a, (b - 1) as nat);
    }
}

/// Where every need-set is longer than `n`, no extension to `n` draws wins.
pub proof fn lemma_beyond_counts_nothing(pool: Seq<i32>, needs: Seq<Seq<i32>>, picked: Seq<i32>, n: nat)
    requires
        forall|i: int| 0 <= i < needs.len() ==> needs[i].len() > n,
    ensures
        ext_count(pool, needs, picked, n) == 0,
    decreases n - picked.len(), pool.len() + 1,
{
    if picked.len() < n {
        lemma_beyond_sums_nothing(pool, needs, picked, n, pool.len());
    }
}

proof fn lemma_beyond_sums_nothing(pool: Seq<i32>, needs: Seq<Seq<i32>>, picked: Seq<i32>, n: nat, k: nat)
    requires
        forall|i: int| 0 <= i < needs.len() ==> needs[i].len() > n,
        k <= pool.len(),
    ensures
        ext_sum(pool, needs, picked, n, k) == 0,
    decreases n - picked.len(), k,
{
    if k > 0 && picked.len() < n {
        lemma_beyond_sums_nothing(pool, needs, picked, n, (k - 1) as nat);
        lemma_beyond_counts_nothing(pool, needs, picked.push(pool[k - 1]), n);
    }
}

/// Counts the ordered ways to extend `picked` to `n` distinct draws from
/// `pool` that complete a line.
pub fn recursion(pool: &Vec<i32>, needs: &Vec<Vec<i32>>, picked: &Vec<i32>, n: usize) -> (count: i64)
    requires
        ext_count(pool@, seqs_of(needs@), picked@, n as nat) <= i64::MAX,
    ensures
        count == ext_count(pool@, seqs_of(needs@), picked@, n as nat),
    decreases n - picked@.len(),
{
    let ghost nv = seqs_of(needs@);
    if picked.len() >= n {
        if is_bingo(picked, needs, n) {
            return 1;
        } else {
            return 0;
        }
    }
    let mut count: i64 = 0;
    let mut i: usize = 0;
    while i < pool.len()
        invariant
            i <= pool.len(),
            picked.len() < n,
            nv == seqs_of(needs@),
            count == ext_sum(pool@, nv, picked@, n as nat, i as nat),
            ext_count(pool@, nv, picked@, n as nat) <= i64::MAX,
        decreases pool.len() - i,
    {
        let x = pool[i];
        proof {
            lemma_ext_sum_monotonic(pool@, nv, picked@, n as nat, (i + 1) as nat, pool.len() as nat);
        }
        if !contains_num(picked, x) {
            let mut next = picked.clone();
            next.push(x);
            assert(next@ =~= picked@.push(x));
            let sub = recursion(pool, needs, &next, n);
            count = count + sub;
        }
        i = i + 1;
    }
    count
}

/// A count of winning draw sequences beside the count of all of them.
pub struct Odds {
    pub bingo_count: i128,
    pub total: i128,
}

/// The odds that the next `n` draws from `pool` complete a line, as the
/// number of winning ordered draw sequences over the number of all of them.
/// Where every need-set is longer than `n` the search is skipped. The pool
/// is a set, and its count of orderings must fit an `i64`.
pub fn calc_probability(pool: &Vec<i32>, needs: &Vec<Vec<i32>>, n: usize) -> (odds: Odds)
    requires
        pool@.no_duplicates(),
        perm_count(pool.len() as nat, n as nat) <= i64::MAX,
    ensures
        odds.total == perm_count(pool.len() as nat, n as nat),
        odds.bingo_count == ext_count(pool@, seqs_of(needs@), Seq::empty(), n as nat),
{
    proof {
        assert(candidate_in(Seq::<i32>::empty(), pool@));
        assert(next_factor(pool.len() as nat, 0) == pool.len());
        lemma_ext_count_bound(pool@, seqs_of(needs@), Seq::empty(), n as nat);
    }
    let total = pattern(pool.len() as i128, n as i128);
    if all_beyond(needs, n) {
        proof {
            lemma_beyond_counts_nothing(pool@, seqs_of(needs@), Seq::empty(), n as nat);
        }
        return Odds { bingo_count: 0, total };
    }
    let empty: Vec<i32> = Vec::new();
    assert(empty@ =~= Seq::<i32>::empty());
    let count = recursion(pool, needs, &empty, n);
    Odds { bingo_count: count as i128, total }
}

} // verus!
