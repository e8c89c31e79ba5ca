//! Falling factorials: the number of ordered draws of `r` numbers out of `n`.
use vstd::prelude::*;

verus! {

/// `n * (n - 1) * ... * (n - r + 1)`; one for `r == 0`, zero for `r > n`.
pub open spec fn perm_count(n: nat, r: nat) -> nat
    decreases r,
{
    if r == 0 {
        1
    } else if n == 0 {
        0
    } else {
        n * perm_count((n - 1) as nat, (r - 1) as nat)
    }
}

/// The factor that takes `perm_count(n, r)` to `perm_count(n, r + 1)`.
pub open spec fn next_factor(n: nat, r: nat) -> nat {
    if r <= n {
        (n - r) as nat
    } else {
        0
    }
}

/// Drawing one more number multiplies the count by the numbers still left.
pub proof fn lemma_perm_step(n: nat, r: nat)
    ensures
        perm_count(n, r + 1) == perm_count(n, r) * next_factor(n, r),
    decreases r,
{
    if r > 0 && n > 0 {
        let m = (n - 1) as nat;
        let k = (r - 1) as nat;
        lemma_perm_step(m, k);
        assert(perm_count(n, r + 1) == n * perm_count(m, r));
        assert(perm_count(n, r) == n * perm_count(m, k));
        assert(perm_count(m, r) == perm_count(m, k) * next_factor(m, k));
        assert(next_factor(m, k) == next_factor(n, r));
        assert(n * (perm_count(m, k) * next_factor(n, r)) == (n * perm_count(m, k))
            * next_factor(n, r)) by (nonlinear_arith);
        assert(perm_count(n, r + 1) == perm_count(n, r) * next_factor(n, r));
    } else if r > 0 {
        assert(perm_count(n, r + 1) == 0);
        assert(perm_count(n, r) == 0);
        assert(perm_count(n, r) * next_factor(n, r) == 0);
    } else if n > 0 {
        assert(perm_count((n - 1) as nat, 0) == 1);
        assert(perm_count(n, 1) == n * perm_count((n - 1) as nat, 0));
        assert(perm_count(n, 1) == n);
        let p = perm_count(n, r);
        let f = next_factor(n, r);
        assert(p == 1 && f == n);
        assert(p * f == f) by (nonlinear_arith)
            requires
                p == 1,
        ;
    } else {
        assert(perm_count(n, 1) == 0);
        assert(perm_count(n, 0) == 1);
        let p = perm_count(n, r);
        let f = next_factor(n, r);
        assert(f == 0);
        assert(p * f == 0) by (nonlinear_arith)
            requires
                f == 0,
        ;
    }
}

/// Within `r <= n` every factor is at least one, so the count grows with `r`.
pub proof fn lemma_perm_monotonic(n: nat, a: nat, b: nat)
    requires
        a <= b <= n,
    ensures
        1 <= perm_count(n, a) <= perm_count(n, b),
    decreases b - a,
{
    if a < b {
        lemma_perm_monotonic(n, a, (b - 1) as nat);
        lemma_perm_step(n, (b - 1) as nat);
        let p = perm_count(n, (b - 1) as nat);
        let f = next_factor(n, (b - 1) as nat);
        assert(p <= p * f) by (nonlinear_arith)
            requires
                f >= 1,
        ;
    } else {
        lemma_perm_positive(n, a);
    }
}

proof fn lemma_perm_positive(n: nat, r: nat)
    requires
        r <= n,
    ensures
        perm_count(n, r) >= 1,
    decreases r,
{
    if r > 0 {
        lemma_perm_positive((n - 1) as nat, (r - 1) as nat);
        let p = perm_count((n - 1) as nat, (r - 1) as nat);
        assert(n * p >= 1) by (nonlinear_arith)
            requires
                n >= 1,
                p >= 1,
        ;
    }
}

/// No draws can be ordered in exactly one way, whatever the pool.
pub proof fn lemma_perm_zero_rounds(n: nat)
    ensures
        perm_count(n, 0) == 1,
{
}

/// The number of ordered draws of `r` numbers out of `n`; zero when `r > n`.
/// The supported domain is every `n, r >= 0` whose count fits an `i128`
/// (`checked_pattern` tells which do): with 75 numbers, up to 21 draws.
pub fn pattern(n: i128, r: i128) -> (count: i128)
    requires
        0 <= n,
        0 <= r,
        perm_count(n as nat, r as nat) <= i128::MAX,
    ensures
        count == perm_count(n as nat, r as nat),
{
    if r > n {
        proof {
            lemma_perm_past_pool(n as nat, r as nat);
        }
        return 0;
    }
    let mut sum: i128 = 1;
    let mut i: i128 = 0;
    while i < r
        invariant
            0 <= i <= r <= n,
            sum == perm_count(n as nat, i as nat),
            perm_count(n as nat, r as nat) <= i128::MAX,
        decreases r - i,
    {
        proof {
            lemma_perm_step(n as nat, i as nat);
            lemma_perm_monotonic(n as nat, (i + 1) as nat, r as nat);
        }
        sum = sum * (n - i);
        i = i + 1;
    }
    sum
}

/// Like `pattern`, but reports `None` where the count does not fit an `i128`.
pub fn checked_pattern(n: i128, r: i128) -> (count: Option<i128>)
    requires
        0 <= n,
        0 <= r,
    ensures
        count == (if perm_count(n as nat, r as nat) <= i128::MAX {
            Some(perm_count(n as nat, r as nat) as i128)
        } else {
            None::<i128>
        }),
{
    if r > n {
        proof {
            lemma_perm_past_pool(n as nat, r as nat);
        }
        return Some(0);
    }
    let mut sum: i128 = 1;
    let mut i: i128 = 0;
    while i < r
        invariant
            0 <= i <= r <= n,
            sum == perm_count(n as nat, i as nat),
        decreases r - i,
    {
        proof {
            lemma_perm_step(n as nat, i as nat);
            lemma_perm_monotonic(n as nat, (i + 1) as nat, r as nat);
        }
        match sum.checked_mul(n - i) {
            Some(v) => {
                sum = v;
            },
            None => {
                return None;
            },
        }
        i = i + 1;
    }
    Some(sum)
}

/// Past the pool's size no ordered draw exists.
pub proof fn lemma_perm_past_pool(n: nat, r: nat)
    requires
        r > n,
    ensures
        perm_count(n, r) == 0,
    decreases n,
{
    if n > 0 {
        lemma_perm_past_pool((n - 1) as nat, (r - 1) as nat);
        assert(perm_count(n, r) == n * perm_count((n - 1) as nat, (r - 1) as nat));
        assert(n * 0 == 0);
    }
}

} // verus!
