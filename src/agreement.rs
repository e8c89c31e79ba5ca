//! The round-by-round engine counts exactly the ordered draw sequences that
//! complete a line, as the depth-first definition counts them.
use vstd::prelude::*;
use crate::lines::{wins, covers};
use crate::perm::{perm_count, next_factor};
use crate::search::{ext_count, ext_sum};
use crate::engine::{
    expand, expand_one, candidate_in, fresh_count, lemma_fresh_count, EngineView, advance, pulls,
    initial_view,
};

verus! {

/// `ext_count` summed over a list of candidates.
pub open spec fn ext_total(cands: Seq<Seq<i32>>, pool: Seq<i32>, needs: Seq<Seq<i32>>, n: nat) -> nat
    decreases cands.len(),
{
    if cands.len() == 0 {
        0
    } else {
        ext_total(cands.drop_last(), pool, needs, n) + ext_count(pool, needs, cands.last(), n)
    }
}

/// Winning survives more draws: a superset of a winning draw wins in any
/// later round.
pub proof fn lemma_wins_grow(c: Seq<i32>, d: Seq<i32>, needs: Seq<Seq<i32>>, m: nat, m2: nat)
    requires
        wins(c, needs, m),
        m <= m2,
        forall|x: i32| c.contains(x) ==> d.contains(x),
    ensures
        wins(d, needs, m2),
{
    let i = choose|i: int| 0 <= i < needs.len() && #[trigger] needs[i].len() <= m && covers(c, needs[i]);
    assert(covers(d, needs[i]));
}

proof fn lemma_push_candidate(c: Seq<i32>, x: i32, pool: Seq<i32>)
    requires
        candidate_in(c, pool),
        pool.contains(x),
        !c.contains(x),
    ensures
        candidate_in(c.push(x), pool),
        forall|y: i32| c.contains(y) ==> c.push(x).contains(y),
{
    let d = c.push(x);
    assert forall|j: int| 0 <= j < d.len() implies pool.contains(#[trigger] d[j]) by {
        if j < c.len() {
            assert(d[j] == c[j]);
        }
    }
    assert forall|a: int, b: int| 0 <= a < d.len() && 0 <= b < d.len() && a != b implies d[a] != d[b] by {
        if a < c.len() && b == c.len() {
            assert(c.contains(c[a]));
        } else if b < c.len() && a == c.len() {
            assert(c.contains(c[b]));
        }
    }
    assert forall|y: i32| c.contains(y) implies d.contains(y) by {
        let j = choose|j: int| 0 <= j < c.len() && c[j] == y;
        assert(d[j] == y);
    }
}

/// Once a candidate has won, every ordered extension of it wins: their
/// count is the number of ways to draw the rest.
proof fn lemma_won_extensions(pool: Seq<i32>, needs: Seq<Seq<i32>>, c: Seq<i32>, n: nat)
    requires
        pool.no_duplicates(),
        candidate_in(c, pool),
        c.len() <= n,
        wins(c, needs, c.len()),
    ensures
        c.len() <= pool.len(),
        ext_count(pool, needs, c, n) == perm_count(next_factor(pool.len(), c.len()), (n - c.len()) as nat),
    decreases n - c.len(), pool.len() + 1,
{
    lemma_fresh_count(pool, c);
    if c.len() < n {
        let m = next_factor(pool.len(), c.len());
        let l = perm_count(next_factor(pool.len(), c.len() + 1), (n - c.len() - 1) as nat);
        lemma_won_extensions_sum(pool, needs, c, n, pool.len());
        assert(pool.take(pool.len() as int) =~= pool);
        if m > 0 {
            assert(next_factor(pool.len(), c.len() + 1) == (m - 1) as nat);
            assert(perm_count(m, (n - c.len()) as nat) == m * perm_count((m - 1) as nat, ((n - c.len()) - 1) as nat));
            assert(perm_count(m, (n - c.len()) as nat) == m * l);
        } else {
            assert(perm_count(m, (n - c.len()) as nat) == 0);
            assert(m * l == 0) by (nonlinear_arith)
                requires
                    m == 0,
            ;
        }
    } else {
        assert(wins(c, needs, n));
    }
}

proof fn lemma_won_extensions_sum(pool: Seq<i32>, needs: Seq<Seq<i32>>, c: Seq<i32>, n: nat, k: nat)
    requires
        pool.no_duplicates(),
        candidate_in(c, pool),
        c.len() < n,
        wins(c, needs, c.len()),
        k <= pool.len(),
    ensures
        ext_sum(pool, needs, c, n, k) == fresh_count(pool.take(k as int), c) * perm_count(
            next_factor(pool.len(), c.len() + 1),
            (n - c.len() - 1) as nat,
        ),
    decreases n - c.len(), k,
{
    let l = perm_count(next_factor(pool.len(), c.len() + 1), (n - c.len() - 1) as nat);
    if k == 0 {
        assert(pool.take(0) =~= Seq::<i32>::empty());
        assert(fresh_count(pool.take(0), c) == 0);
        assert(0 * l == 0);
    } else {
        lemma_won_extensions_sum(pool, needs, c, n, (k - 1) as nat);
        let x = pool[k - 1];
        assert(pool.take(k as int).drop_last() =~= pool.take(k - 1));
        assert(pool.take(k as int).last() == x);
        let f0 = fresh_count(pool.take(k - 1), c);
        assert(fresh_count(pool.take(k as int), c) == f0 + if c.contains(x) { 0nat } else { 1nat });
        assert(ext_sum(pool, needs, c, n, k) == ext_sum(pool, needs, c, n, (k - 1) as nat) + if c.contains(x) {
            0
        } else {
            ext_count(pool, needs, c.push(x), n)
        });
        if !c.contains(x) {
            lemma_push_candidate(c, x, pool);
            lemma_wins_grow(c, c.push(x), needs, c.len(), c.push(x).len());
            lemma_won_extensions(pool, needs, c.push(x), n);
            assert(f0 * l + l == (f0 + 1) * l) by (nonlinear_arith);
        }
    }
}

/// A draw can be extended in at most as many winning ways as there are
/// ways to draw the rest.
pub proof fn lemma_ext_count_bound(pool: Seq<i32>, needs: Seq<Seq<i32>>, c: Seq<i32>, n: nat)
    requires
        pool.no_duplicates(),
        candidate_in(c, pool),
        c.len() <= n,
    ensures
        ext_count(pool, needs, c, n) <= perm_count(next_factor(pool.len(), c.len()), (n - c.len()) as nat),
    decreases n - c.len(), pool.len() + 1,
{
    lemma_fresh_count(pool, c);
    if c.len() < n {
        let m = next_factor(pool.len(), c.len());
        let l = perm_count(next_factor(pool.len(), c.len() + 1), (n - c.len() - 1) as nat);
        lemma_ext_sum_bound(pool, needs, c, n, pool.len());
        assert(pool.take(pool.len() as int) =~= pool);
        if m > 0 {
            assert(next_factor(pool.len(), c.len() + 1) == (m - 1) as nat);
            assert(perm_count(m, (n - c.len()) as nat) == m * perm_count((m - 1) as nat, ((n - c.len()) - 1) as nat));
        } else {
            assert(perm_count(m, (n - c.len()) as nat) == 0);
            assert(m * l == 0) by (nonlinear_arith)
                requires
                    m == 0,
            ;
        }
    } else {
        assert(perm_count(next_factor(pool.len(), c.len()), 0) == 1);
    }
}

proof fn lemma_ext_sum_bound(pool: Seq<i32>, needs: Seq<Seq<i32>>, c: Seq<i32>, n: nat, k: nat)
    requires
        pool.no_duplicates(),
        candidate_in(c, pool),
        c.len() < n,
        k <= pool.len(),
    ensures
        ext_sum(pool, needs, c, n, k) <= fresh_count(pool.take(k as int), c) * perm_count(
            next_factor(pool.len(), c.len() + 1),
            (n - c.len() - 1) as nat,
        ),
    decreases n - c.len(), k,
{
    let l = perm_count(next_factor(pool.len(), c.len() + 1), (n - c.len() - 1) as nat);
    if k == 0 {
        assert(pool.take(0) =~= Seq::<i32>::empty());
        assert(fresh_count(pool.take(0), c) == 0);
        assert(0 * l == 0);
    } else {
        lemma_ext_sum_bound(pool, needs, c, n, (k - 1) as nat);
        let x = pool[k - 1];
        assert(pool.take(k as int).drop_last() =~= pool.take(k - 1));
        assert(pool.take(k as int).last() == x);
        let f0 = fresh_count(pool.take(k - 1), c);
        assert(fresh_count(pool.take(k as int), c) == f0 + if c.contains(x) { 0nat } else { 1nat });
        assert(ext_sum(pool, needs, c, n, k) == ext_sum(pool, needs, c, n, (k - 1) as nat) + if c.contains(x) {
            0
        } else {
            ext_count(pool, needs, c.push(x), n)
        });
        if !c.contains(x) {
            lemma_push_candidate(c, x, pool);
            lemma_ext_count_bound(pool, needs, c.push(x), n);
            assert(f0 * l + l == (f0 + 1) * l) by (nonlinear_arith);
        }
    }
}

/// `ext_total` of a concatenation.
proof fn lemma_ext_total_concat(a: Seq<Seq<i32>>, b: Seq<Seq<i32>>, pool: Seq<i32>, needs: Seq<Seq<i32>>, n: nat)
    ensures
        ext_total(a + b, pool, needs, n) == ext_total(a, pool, needs, n) + ext_total(b, pool, needs, n),
    decreases b.len(),
{
    if b.len() == 0 {
        assert(a + b =~= a);
    } else {
        assert((a + b).drop_last() =~= a + b.drop_last());
        assert((a + b).last() == b.last());
        lemma_ext_total_concat(a, b.drop_last(), pool, needs, n);
    }
}

/// The extensions of one candidate split into the children that win at
/// once, each with all its further orderings, and the children left pending.
proof fn lemma_expand_one_counts(pool: Seq<i32>, needs: Seq<Seq<i32>>, c: Seq<i32>, n: nat, k: nat)
    requires
        pool.no_duplicates(),
        candidate_in(c, pool),
        c.len() < n,
        k <= pool.len(),
    ensures
        ext_sum(pool, needs, c, n, k) == expand_one(c, pool.take(k as int), needs, c.len() + 1).0
            * perm_count(next_factor(pool.len(), c.len() + 1), (n - c.len() - 1) as nat) + ext_total(
            expand_one(c, pool.take(k as int), needs, c.len() + 1).1,
            pool,
            needs,
            n,
        ),
    decreases k,
{
    let l = perm_count(next_factor(pool.len(), c.len() + 1), (n - c.len() - 1) as nat);
    let r1 = (c.len() + 1) as nat;
    if k == 0 {
        assert(pool.take(0) =~= Seq::<i32>::empty());
        assert(expand_one(c, pool.take(0), needs, r1) == (0nat, Seq::<Seq<i32>>::empty()));
        assert(ext_total(Seq::<Seq<i32>>::empty(), pool, needs, n) == 0);
        assert(0 * l == 0);
    } else {
        lemma_expand_one_counts(pool, needs, c, n, (k - 1) as nat);
        let x = pool[k - 1];
        let q = pool.take(k as int);
        assert(q.drop_last() =~= pool.take(k - 1));
        assert(q.last() == x);
        let (w, s) = expand_one(c, pool.take(k - 1), needs, r1);
        assert(ext_sum(pool, needs, c, n, k) == ext_sum(pool, needs, c, n, (k - 1) as nat) + if c.contains(x) {
            0
        } else {
            ext_count(pool, needs, c.push(x), n)
        });
        if !c.contains(x) {
            let d = c.push(x);
            lemma_push_candidate(c, x, pool);
            if wins(d, needs, r1) {
                lemma_won_extensions(pool, needs, d, n);
                assert(w * l + l == (w + 1) * l) by (nonlinear_arith);
            } else {
                assert(s.push(d).drop_last() =~= s);
                assert(ext_total(s.push(d), pool, needs, n) == ext_total(s, pool, needs, n) + ext_count(pool, needs, d, n));
            }
        }
    }
}

/// The extensions of a list of candidates split the same way.
proof fn lemma_expand_counts(cands: Seq<Seq<i32>>, pool: Seq<i32>, needs: Seq<Seq<i32>>, r: nat, n: nat)
    requires
        pool.no_duplicates(),
        r < n,
        forall|j: int| 0 <= j < cands.len() ==> candidate_in(#[trigger] cands[j], pool) && cands[j].len() == r,
    ensures
        ext_total(cands, pool, needs, n) == expand(cands, pool, needs, r + 1).0 * perm_count(
            next_factor(pool.len(), r + 1),
            (n - r - 1) as nat,
        ) + ext_total(expand(cands, pool, needs, r + 1).1, pool, needs, n),
    decreases cands.len(),
{
    let l = perm_count(next_factor(pool.len(), r + 1), (n - r - 1) as nat);
    if cands.len() > 0 {
        let rest = cands.drop_last();
        let c = cands.last();
        assert(candidate_in(cands[cands.len() - 1], pool));
        lemma_expand_counts(rest, pool, needs, r, n);
        lemma_expand_one_counts(pool, needs, c, n, pool.len());
        assert(pool.take(pool.len() as int) =~= pool);
        let (w1, s1) = expand(rest, pool, needs, r + 1);
        let (w2, s2) = expand_one(c, pool, needs, r + 1);
        lemma_ext_total_concat(s1, s2, pool, needs, n);
        assert((w1 + w2) * l == w1 * l + w2 * l) by (nonlinear_arith);
    }
}

/// What `expand_one` leaves pending: candidates one longer that have not won.
proof fn lemma_expand_one_survivors(c: Seq<i32>, q: Seq<i32>, pool: Seq<i32>, needs: Seq<Seq<i32>>, r: nat)
    requires
        candidate_in(c, pool),
        c.len() == r,
        forall|j: int| 0 <= j < q.len() ==> pool.contains(#[trigger] q[j]),
    ensures
        forall|j: int|
            0 <= j < expand_one(c, q, needs, r + 1).1.len() ==> candidate_in(
                #[trigger] expand_one(c, q, needs, r + 1).1[j],
                pool,
            ) && expand_one(c, q, needs, r + 1).1[j].len() == r + 1 && !wins(
                expand_one(c, q, needs, r + 1).1[j],
                needs,
                r + 1,
            ),
    decreases q.len(),
{
    if q.len() > 0 {
        let x = q.last();
        assert(pool.contains(q[q.len() - 1]));
        lemma_expand_one_survivors(c, q.drop_last(), pool, needs, r);
        let (w, s) = expand_one(c, q.drop_last(), needs, r + 1);
        if !c.contains(x) {
            lemma_push_candidate(c, x, pool);
            let d = c.push(x);
            if !wins(d, needs, r + 1) {
                let t = s.push(d);
                assert(expand_one(c, q, needs, r + 1).1 == t);
                assert forall|j: int| 0 <= j < t.len() implies candidate_in(#[trigger] t[j], pool) && t[j].len()
                    == r + 1 && !wins(t[j], needs, r + 1) by {
                    if j < s.len() {
                        assert(t[j] == s[j]);
                    }
                }
            }
        }
    }
}

/// What `expand` leaves pending: candidates one longer that have not won.
pub proof fn lemma_expand_survivors(cands: Seq<Seq<i32>>, pool: Seq<i32>, needs: Seq<Seq<i32>>, r: nat)
    requires
        forall|j: int| 0 <= j < cands.len() ==> candidate_in(#[trigger] cands[j], pool) && cands[j].len() == r,
    ensures
        forall|j: int|
            0 <= j < expand(cands, pool, needs, r + 1).1.len() ==> candidate_in(
                #[trigger] expand(cands, pool, needs, r + 1).1[j],
                pool,
            ) && expand(cands, pool, needs, r + 1).1[j].len() == r + 1 && !wins(
                expand(cands, pool, needs, r + 1).1[j],
                needs,
                r + 1,
            ),
    decreases cands.len(),
{
    if cands.len() > 0 {
        let rest = cands.drop_last();
        let c = cands.last();
        assert(candidate_in(cands[cands.len() - 1], pool));
        lemma_expand_survivors(rest, pool, needs, r);
        lemma_expand_one_survivors(c, pool, pool, needs, r);
        let s1 = expand(rest, pool, needs, r + 1).1;
        let s2 = expand_one(c, pool, needs, r + 1).1;
        let s = expand(cands, pool, needs, r + 1).1;
        assert(s == s1 + s2);
        assert forall|j: int| 0 <= j < s.len() implies candidate_in(#[trigger] s[j], pool) && s[j].len()
            == r + 1 && !wins(s[j], needs, r + 1) by {
            if j < s1.len() {
                assert(s[j] == s1[j]);
            } else {
                assert(s[j] == s2[j - s1.len()]);
            }
        }
    }
}

/// Multiplying by the numbers still left takes the count of orderings for
/// the remaining draws one round back.
proof fn lemma_rest_step(p: nat, r: nat, n: nat)
    requires
        r < n,
    ensures
        perm_count(next_factor(p, r), (n - r) as nat) == next_factor(p, r) * perm_count(
            next_factor(p, r + 1),
            (n - r - 1) as nat,
        ),
{
    let l = perm_count(next_factor(p, r + 1), (n - r - 1) as nat);
    if r < p {
        assert(next_factor(p, r + 1) == (next_factor(p, r) - 1) as nat);
        assert(perm_count(next_factor(p, r), (n - r) as nat) == next_factor(p, r) * perm_count(
            (next_factor(p, r) - 1) as nat,
            ((n - r) - 1) as nat,
        ));
    } else {
        assert(next_factor(p, r) == 0);
        assert(perm_count(0, (n - r) as nat) == 0);
        assert(next_factor(p, r) == 0);
        assert(0 * l == 0);
    }
}

/// The state after `j` pulls of a fresh engine, seen from round `n >= j`:
/// the count of winning sequences of length `n` is the winners so far, each
/// with all its further orderings, plus what the pending candidates lead to.
pub open spec fn accounts_for(v: EngineView, n: nat) -> bool {
    ext_count(v.pool, v.needs, Seq::empty(), n) == v.bingo_count * perm_count(
        next_factor(v.pool.len(), v.round),
        (n - v.round) as nat,
    ) + ext_total(v.pending, v.pool, v.needs, n)
}

proof fn lemma_pulls_account(needs: Seq<Seq<i32>>, pool: Seq<i32>, n: nat, j: nat)
    requires
        pool.no_duplicates(),
        j <= n,
    ensures
        ({
            let v = pulls(initial_view(needs, pool), j).0;
            &&& v.needs == needs
            &&& v.pool == pool
            &&& v.round == j
            &&& !v.cancelled
            &&& forall|i: int| 0 <= i < v.pending.len() ==> candidate_in(#[trigger] v.pending[i], pool) && v.pending[i].len() == j
            &&& j > 0 ==> forall|i: int| 0 <= i < v.pending.len() ==> !wins(#[trigger] v.pending[i], needs, j)
            &&& accounts_for(v, n)
        }),
    decreases j,
{
    let v0 = initial_view(needs, pool);
    if j == 0 {
        assert(v0.pending.drop_last() =~= Seq::<Seq<i32>>::empty());
        assert(v0.pending.last() == Seq::<i32>::empty());
        assert(ext_total(Seq::<Seq<i32>>::empty(), pool, needs, n) == 0);
        assert(ext_total(v0.pending, pool, needs, n) == ext_count(pool, needs, Seq::empty(), n));
        assert(candidate_in(Seq::<i32>::empty(), pool));
        assert(pulls(v0, 0).0 == v0);
        let t = perm_count(next_factor(pool.len(), 0), n);
        assert(0 * t == 0);
        assert(v0.bingo_count * perm_count(next_factor(v0.pool.len(), v0.round), (n - v0.round) as nat) == 0);
        assert(accounts_for(v0, n));
    } else {
        lemma_pulls_account(needs, pool, n, (j - 1) as nat);
        let v = pulls(v0, (j - 1) as nat).0;
        let r = (j - 1) as nat;
        let l = perm_count(next_factor(pool.len(), r + 1), (n - r - 1) as nat);
        let f = next_factor(pool.len(), r);
        lemma_expand_counts(v.pending, pool, needs, r, n);
        lemma_expand_survivors(v.pending, pool, needs, r);
        lemma_rest_step(pool.len(), r, n);
        let e = expand(v.pending, pool, needs, r + 1);
        let b = v.bingo_count;
        assert(b * (f * l) == (b * f) * l) by (nonlinear_arith);
        assert((b * f + e.0) * l == (b * f) * l + e.0 * l) by (nonlinear_arith);
        let v2 = advance(v).0;
        assert(pulls(v0, j).0 == v2);
        assert(v2.bingo_count == b * f + e.0);
        assert(v2.pending == e.1);
        assert(v2.round == j);
        assert(perm_count(next_factor(pool.len(), r), (n - r) as nat) == f * l);
        assert(ext_count(pool, needs, Seq::empty(), n) == b * (f * l) + ext_total(v.pending, pool, needs, n));
        assert(ext_total(v.pending, pool, needs, n) == e.0 * l + ext_total(e.1, pool, needs, n));
        assert(accounts_for(v2, n));
        assert forall|i: int| 0 <= i < v2.pending.len() implies candidate_in(#[trigger] v2.pending[i], pool)
            && v2.pending[i].len() == j && !wins(v2.pending[i], needs, j) by {
            assert(v2.pending[i] == e.1[i]);
        }
    }
}

proof fn lemma_settled_total(cands: Seq<Seq<i32>>, pool: Seq<i32>, needs: Seq<Seq<i32>>, n: nat)
    requires
        forall|i: int| 0 <= i < cands.len() ==> (#[trigger] cands[i]).len() == n && !wins(cands[i], needs, n),
    ensures
        ext_total(cands, pool, needs, n) == 0,
    decreases cands.len(),
{
    if cands.len() > 0 {
        assert(cands[cands.len() - 1].len() == n);
        lemma_settled_total(cands.drop_last(), pool, needs, n);
    }
}

/// After `k >= 1` pulls a fresh engine has counted, as round `k`, exactly
/// the ordered sequences of `k` distinct pool numbers that complete a line,
/// and reported that count beside the number of all such sequences.
pub proof fn lemma_engine_counts_winning_sequences(needs: Seq<Seq<i32>>, pool: Seq<i32>, k: nat)
    requires
        pool.no_duplicates(),
        1 <= k,
    ensures
        pulls(initial_view(needs, pool), k).0.round == k,
        pulls(initial_view(needs, pool), k).0.bingo_count == ext_count(pool, needs, Seq::empty(), k),
{
    lemma_pulls_account(needs, pool, k, k);
    let v = pulls(initial_view(needs, pool), k).0;
    lemma_settled_total(v.pending, pool, needs, k);
    assert(perm_count(next_factor(pool.len(), k), (k - k) as nat) == 1);
    let b = v.bingo_count;
    assert(b * 1 == b) by (nonlinear_arith);
    assert(accounts_for(v, k));
}

} // verus!
