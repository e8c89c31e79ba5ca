//! The round-by-round engine: each round extends every still-losing ordered
//! draw sequence by one number, counts the new wins, and carries the old ones.
use vstd::prelude::*;
use vstd::seq_lib::seq_to_set_is_finite;
use crate::lines::{seqs_of, wins, contains_num, is_bingo, all_beyond, lemma_beyond_never_wins};
use crate::perm::{next_factor, perm_count, lemma_perm_step, pattern, checked_pattern};

verus! {

/// How many numbers of `pool` are not yet in `drawn`.
pub open spec fn fresh_count(pool: Seq<i32>, drawn: Seq<i32>) -> nat
    decreases pool.len(),
{
    if pool.len() == 0 {
        0
    } else {
        fresh_count(pool.drop_last(), drawn) + if drawn.contains(pool.last()) {
            0nat
        } else {
            1nat
        }
    }
}

/// A candidate: distinct numbers, all from the pool.
pub open spec fn candidate_in(c: Seq<i32>, pool: Seq<i32>) -> bool {
    &&& c.no_duplicates()
    &&& forall|j: int| 0 <= j < c.len() ==> pool.contains(#[trigger] c[j])
}

/// The one-number extensions of `c` by the numbers of `pool`, in pool order:
/// how many win after `n` draws, and the list of those that do not.
pub open spec fn expand_one(c: Seq<i32>, pool: Seq<i32>, needs: Seq<Seq<i32>>, n: nat) -> (nat, Seq<Seq<i32>>)
    decreases pool.len(),
{
    if pool.len() == 0 {
        (0, Seq::empty())
    } else {
        let (w, s) = expand_one(c, pool.drop_last(), needs, n);
        let x = pool.last();
        if c.contains(x) {
            (w, s)
        } else if wins(c.push(x), needs, n) {
            (w + 1, s)
        } else {
            (w, s.push(c.push(x)))
        }
    }
}

/// Sums the win counts and concatenates the survivor lists.
pub open spec fn merge(a: (nat, Seq<Seq<i32>>), b: (nat, Seq<Seq<i32>>)) -> (nat, Seq<Seq<i32>>) {
    (a.0 + b.0, a.1 + b.1)
}

/// `expand_one` over every candidate, in order, merged.
pub open spec fn expand(cands: Seq<Seq<i32>>, pool: Seq<i32>, needs: Seq<Seq<i32>>, n: nat) -> (nat, Seq<Seq<i32>>)
    decreases cands.len(),
{
    if cands.len() == 0 {
        (0, Seq::empty())
    } else {
        merge(expand(cands.drop_last(), pool, needs, n), expand_one(cands.last(), pool, needs, n))
    }
}

/// `expand` run chunk by chunk, `size` candidates at a time (a size of zero
/// meaning one chunk), the partial results merged.
pub open spec fn expand_chunked(
    cands: Seq<Seq<i32>>,
    pool: Seq<i32>,
    needs: Seq<Seq<i32>>,
    n: nat,
    size: nat,
) -> (nat, Seq<Seq<i32>>)
    decreases cands.len(),
{
    if size == 0 || cands.len() <= size {
        expand(cands, pool, needs, n)
    } else {
        merge(
            expand(cands.take(size as int), pool, needs, n),
            expand_chunked(cands.skip(size as int), pool, needs, n, size),
        )
    }
}

/// Expanding two lists one after the other is expanding their concatenation.
pub proof fn lemma_expand_concat(a: Seq<Seq<i32>>, b: Seq<Seq<i32>>, pool: Seq<i32>, needs: Seq<Seq<i32>>, n: nat)
    ensures
        expand(a + b, pool, needs, n) == merge(expand(a, pool, needs, n), expand(b, pool, needs, n)),
    decreases b.len(),
{
    if b.len() == 0 {
        assert(a + b =~= a);
        assert(expand(a, pool, needs, n).1 + Seq::empty() =~= expand(a, pool, needs, n).1);
    } else {
        assert((a + b).drop_last() =~= a + b.drop_last());
        assert((a + b).last() == b.last());
        lemma_expand_concat(a, b.drop_last(), pool, needs, n);
        let ea = expand(a, pool, needs, n);
        let eb = expand(b.drop_last(), pool, needs, n);
        let eo = expand_one(b.last(), pool, needs, n);
        assert(ea.1 + eb.1 + eo.1 =~= ea.1 + (eb.1 + eo.1));
    }
}

/// The chunk size changes neither the win count nor the survivors, nor
/// their order.
pub proof fn lemma_chunking_invariance(
    cands: Seq<Seq<i32>>,
    pool: Seq<i32>,
    needs: Seq<Seq<i32>>,
    n: nat,
    size_a: nat,
    size_b: nat,
)
    ensures
        expand_chunked(cands, pool, needs, n, size_a) == expand_chunked(cands, pool, needs, n, size_b),
        expand_chunked(cands, pool, needs, n, size_a) == expand(cands, pool, needs, n),
{
    lemma_chunked_is_whole(cands, pool, needs, n, size_a);
    lemma_chunked_is_whole(cands, pool, needs, n, size_b);
}

proof fn lemma_chunked_is_whole(cands: Seq<Seq<i32>>, pool: Seq<i32>, needs: Seq<Seq<i32>>, n: nat, size: nat)
    ensures
        expand_chunked(cands, pool, needs, n, size) == expand(cands, pool, needs, n),
    decreases cands.len(),
{
    if !(size == 0 || cands.len() <= size) {
        let k = size as int;
        lemma_chunked_is_whole(cands.skip(k), pool, needs, n, size);
        lemma_expand_concat(cands.take(k), cands.skip(k), pool, needs, n);
        assert(cands.take(k) + cands.skip(k) =~= cands);
    }
}

/// For distinct draws from a pool without repeats, `fresh_count` is the
/// number of pool numbers left.
pub proof fn lemma_fresh_count(pool: Seq<i32>, drawn: Seq<i32>)
    requires
        pool.no_duplicates(),
        candidate_in(drawn, pool),
    ensures
        drawn.len() <= pool.len(),
        fresh_count(pool, drawn) == pool.len() - drawn.len(),
{
    broadcast use seq_to_set_is_finite;
    lemma_fresh_is_difference(pool, drawn);
    let a = pool.to_set();
    let b = drawn.to_set();
    assert(a.intersect(b) =~= b);
    vstd::set_lib::lemma_set_difference_len(a, b);
    pool.unique_seq_to_set();
    drawn.unique_seq_to_set();
    vstd::set_lib::lemma_len_subset(b, a);
}

proof fn lemma_fresh_is_difference(pool: Seq<i32>, drawn: Seq<i32>)
    requires
        pool.no_duplicates(),
    ensures
        fresh_count(pool, drawn) == pool.to_set().difference(drawn.to_set()).len(),
    decreases pool.len(),
{
    broadcast use seq_to_set_is_finite;
    if pool.len() == 0 {
        assert(pool.to_set().difference(drawn.to_set()) =~= Set::empty());
    } else {
        let rest = pool.drop_last();
        let x = pool.last();
        assert(rest.no_duplicates());
        lemma_fresh_is_difference(rest, drawn);
        assert(pool =~= rest.push(x));
        assert(!rest.contains(x));
        let d = rest.to_set().difference(drawn.to_set());
        assert(pool.to_set() =~= rest.to_set().insert(x));
        if drawn.contains(x) {
            assert(drawn.to_set().contains(x));
            assert(pool.to_set().difference(drawn.to_set()) =~= d);
        } else {
            assert(!drawn.to_set().contains(x));
            assert(pool.to_set().difference(drawn.to_set()) =~= d.insert(x));
            assert(!d.contains(x));
        }
    }
}

proof fn lemma_fresh_prefix(pool: Seq<i32>, drawn: Seq<i32>, i: int)
    requires
        0 <= i <= pool.len(),
    ensures
        fresh_count(pool.take(i), drawn) <= fresh_count(pool, drawn),
    decreases pool.len() - i,
{
    if i < pool.len() {
        lemma_fresh_prefix(pool, drawn, i + 1);
        assert(pool.take(i + 1).drop_last() =~= pool.take(i));
    } else {
        assert(pool.take(i) =~= pool);
    }
}

/// Extends candidates `lo..hi` of `cands`, each of `n - 1` distinct numbers
/// of `pool`, by every number of `pool` they lack: returns how many of the
/// extensions win after `n` draws and, in order, those that do not. Where
/// every need-set is longer than `n` the win test is skipped.
pub fn expand_chunk(
    cands: &Vec<Vec<i32>>,
    lo: usize,
    hi: usize,
    pool: &Vec<i32>,
    needs: &Vec<Vec<i32>>,
    n: usize,
) -> (res: (i128, Vec<Vec<i32>>))
    requires
        lo <= hi <= cands.len(),
        1 <= n,
        pool@.no_duplicates(),
        forall|j: int|
            lo <= j < hi ==> candidate_in(#[trigger] cands@[j]@, pool@) && cands@[j]@.len() == n - 1,
        (hi - lo) * next_factor(pool.len() as nat, (n - 1) as nat) <= i128::MAX,
    ensures
        0 <= res.0,
        (res.0 as nat, seqs_of(res.1@)) == expand(
            seqs_of(cands@).subrange(lo as int, hi as int),
            pool@,
            seqs_of(needs@),
            n as nat,
        ),
        res.0 + res.1.len() == (hi - lo) * next_factor(pool.len() as nat, (n - 1) as nat),
        forall|j: int|
            0 <= j < res.1.len() ==> candidate_in(#[trigger] res.1@[j]@, pool@) && res.1@[j]@.len() == n
                && !wins(res.1@[j]@, seqs_of(needs@), n as nat),
{
    let ghost nv = seqs_of(needs@);
    let ghost cv = seqs_of(cands@);
    let ghost f = next_factor(pool.len() as nat, (n - 1) as nat);
    let prune = all_beyond(needs, n);
    let mut w: i128 = 0;
    let mut surv: Vec<Vec<i32>> = Vec::new();
    let mut k: usize = lo;
    assert(cv.subrange(lo as int, lo as int) =~= Seq::<Seq<i32>>::empty());
    assert(seqs_of(surv@) =~= Seq::<Seq<i32>>::empty());
    while k < hi
        invariant
            lo <= k <= hi <= cands.len(),
            1 <= n,
            nv == seqs_of(needs@),
            cv == seqs_of(cands@),
            f == next_factor(pool.len() as nat, (n - 1) as nat),
            pool@.no_duplicates(),
            prune == (forall|i: int| 0 <= i < needs.len() ==> needs@[i]@.len() > n),
            forall|j: int|
                lo <= j < hi ==> candidate_in(#[trigger] cands@[j]@, pool@) && cands@[j]@.len() == n - 1,
            (hi - lo) * f <= i128::MAX,
            0 <= w,
            (w as nat, seqs_of(surv@)) == expand(cv.subrange(lo as int, k as int), pool@, nv, n as nat),
            w + surv.len() == (k - lo) * f,
            forall|j: int|
                0 <= j < surv.len() ==> candidate_in(#[trigger] surv@[j]@, pool@) && surv@[j]@.len() == n
                    && !wins(surv@[j]@, nv, n as nat),
        decreases hi - k,
    {
        let c = &cands[k];
        proof {
            lemma_fresh_count(pool@, c@);
            assert(f == fresh_count(pool@, c@));
            assert((k - lo) * f + f == (k + 1 - lo) * f) by (nonlinear_arith);
            assert((k + 1 - lo) * f <= (hi - lo) * f) by (nonlinear_arith)
                requires
                    k + 1 <= hi,
            ;
        }
        let ghost w0 = w as nat;
        let ghost s0 = seqs_of(surv@);
        let ghost len0 = surv.len();
        let mut i: usize = 0;
        assert(pool@.take(0) =~= Seq::<i32>::empty());
        assert(s0 + Seq::<Seq<i32>>::empty() =~= s0);
        while i < pool.len()
            invariant
                i <= pool.len(),
                k < hi,
                1 <= n,
                c@.len() == n - 1,
                candidate_in(c@, pool@),
                nv == seqs_of(needs@),
                prune == (forall|i: int| 0 <= i < needs.len() ==> needs@[i]@.len() > n),
                f == fresh_count(pool@, c@),
                w0 + len0 + f <= i128::MAX,
                0 <= w,
                w0 <= w,
                len0 <= surv.len(),
                w - w0 == expand_one(c@, pool@.take(i as int), nv, n as nat).0,
                seqs_of(surv@) == s0 + expand_one(c@, pool@.take(i as int), nv, n as nat).1,
                (w - w0) + (surv.len() - len0) == fresh_count(pool@.take(i as int), c@),
                forall|j: int|
                    0 <= j < surv.len() ==> candidate_in(#[trigger] surv@[j]@, pool@) && surv@[j]@.len() == n
                        && !wins(surv@[j]@, nv, n as nat),
            decreases pool.len() - i,
        {
            let x = pool[i];
            let ghost e0 = expand_one(c@, pool@.take(i as int), nv, n as nat);
            proof {
                assert(pool@.take(i + 1).drop_last() =~= pool@.take(i as int));
                assert(pool@.take(i + 1).last() == x);
                lemma_fresh_prefix(pool@, c@, i + 1);
            }
            if !contains_num(c, x) {
                let mut child = c.clone();
                child.push(x);
                assert(child@ =~= c@.push(x));
                let win = if prune {
                    proof {
                        lemma_beyond_never_wins(child@, nv, n as nat);
                    }
                    false
                } else {
                    is_bingo(&child, needs, n)
                };
                if win {
                    w = w + 1;
                } else {
                    proof {
                        assert forall|j: int| 0 <= j < child@.len() implies pool@.contains(
                            #[trigger] child@[j],
                        ) by {
                            if j < c@.len() {
                                assert(child@[j] == c@[j]);
                            } else {
                                assert(pool@[i as int] == x);
                            }
                        }
                        assert(child@.no_duplicates()) by {
                            assert forall|a: int, b: int|
                                0 <= a < child@.len() && 0 <= b < child@.len() && a != b
                                implies child@[a] != child@[b] by {
                                if a < c@.len() && b == c@.len() {
                                    assert(c@.contains(c@[a]));
                                } else if b < c@.len() && a == c@.len() {
                                    assert(c@.contains(c@[b]));
                                }
                            }
                        }
                    }
                    let ghost cg = child@;
                    let ghost before = surv@;
                    surv.push(child);
                    assert(seqs_of(surv@) =~= seqs_of(before).push(cg));
                    assert(seqs_of(surv@) =~= s0 + e0.1.push(cg));
                }
            }
            i = i + 1;
        }
        proof {
            assert(pool@.take(pool.len() as int) =~= pool@);
            let sub = cv.subrange(lo as int, k + 1);
            assert(sub.drop_last() =~= cv.subrange(lo as int, k as int));
            assert(sub.last() == c@);
            let e = expand_one(c@, pool@, nv, n as nat);
            assert(s0 + e.1 =~= seqs_of(surv@));
        }
        k = k + 1;
    }
    (w, surv)
}

/// The engine's state as mathematics: the need-sets and the pool it was made
/// with, the rounds produced so far, the ordered draw sequences of that
/// length that already won, the candidates that have not, and whether the
/// consumer cancelled.
pub struct EngineView {
    pub needs: Seq<Seq<i32>>,
    pub pool: Seq<i32>,
    pub round: nat,
    pub bingo_count: nat,
    pub pending: Seq<Seq<i32>>,
    pub cancelled: bool,
}

/// One produced round: its number, the count of all ordered draw sequences
/// of that length, and the count of those that complete a line. The
/// probability is `bingo_count / total`; past the pool's size `total` is
/// zero and the probability is undefined, which the result shows by that
/// zero rather than by a quotient.
#[derive(Clone, Copy, Debug, PartialEq, Eq)]
pub struct RoundResult {
    pub round: usize,
    pub total: i128,
    pub bingo_count: i128,
}

/// The state before round one: nothing drawn, nothing won.
pub open spec fn initial_view(needs: Seq<Seq<i32>>, pool: Seq<i32>) -> EngineView {
    EngineView {
        needs,
        pool,
        round: 0,
        bingo_count: 0,
        pending: seq![Seq::empty()],
        cancelled: false,
    }
}

/// One pull: the next state and what it hands out. A cancelled engine hands
/// out nothing and stays as it is. Otherwise the sequences that already won
/// stay winners under every one-number extension, each pending candidate is
/// expanded, and round `round + 1` is reported.
pub open spec fn advance(v: EngineView) -> (EngineView, Option<RoundResult>) {
    if v.cancelled {
        (v, None)
    } else {
        let n = v.round + 1;
        let carried = v.bingo_count * next_factor(v.pool.len(), v.round);
        let e = expand(v.pending, v.pool, v.needs, n);
        let bingo = carried + e.0;
        (
            EngineView {
                needs: v.needs,
                pool: v.pool,
                round: n,
                bingo_count: bingo,
                pending: e.1,
                cancelled: false,
            },
            Some(
                RoundResult {
                    round: n as usize,
                    total: perm_count(v.pool.len(), n) as i128,
                    bingo_count: bingo as i128,
                },
            ),
        )
    }
}

/// `k` pulls in a row: the final state and what each pull handed out.
pub open spec fn pulls(v: EngineView, k: nat) -> (EngineView, Seq<Option<RoundResult>>)
    decreases k,
{
    if k == 0 {
        (v, Seq::empty())
    } else {
        let (mid, out) = pulls(v, (k - 1) as nat);
        let (last, r) = advance(mid);
        (last, out.push(r))
    }
}

/// The state after a cancel: the same, but cancelled.
pub open spec fn cancelled_view(v: EngineView) -> EngineView {
    EngineView { cancelled: true, ..v }
}

/// What holds between rounds: the pool has no repeats; every pending
/// candidate holds `round` distinct pool numbers and, after round one, has not
/// won; and winners and pending candidates together are all the ordered
/// draw sequences of that length.
pub open spec fn valid_view(v: EngineView) -> bool {
    &&& v.pool.no_duplicates()
    &&& v.bingo_count + v.pending.len() == perm_count(v.pool.len(), v.round)
    &&& forall|j: int|
        0 <= j < v.pending.len() ==> candidate_in(#[trigger] v.pending[j], v.pool)
            && v.pending[j].len() == v.round
    &&& v.round > 0 ==> forall|j: int|
        0 <= j < v.pending.len() ==> !wins(#[trigger] v.pending[j], v.needs, v.round)
}

/// Wins are absorbing: a round counts at least every extension of the
/// sequences that had already won, so while numbers are left to draw the
/// count never falls.
pub proof fn lemma_absorbing_wins(v: EngineView)
    requires
        !v.cancelled,
    ensures
        advance(v).0.bingo_count >= v.bingo_count * next_factor(v.pool.len(), v.round),
        v.round < v.pool.len() ==> advance(v).0.bingo_count >= v.bingo_count,
{
    let b = v.bingo_count;
    let f = next_factor(v.pool.len(), v.round);
    if v.round < v.pool.len() {
        assert(b * f >= b) by (nonlinear_arith)
            requires
                f >= 1,
        ;
    }
}

/// Once cancelled, no pull ever produces a round again, and the state,
/// with every round counted so far, stays as it was.
pub proof fn lemma_cancel_is_final(v: EngineView, k: nat)
    requires
        v.cancelled,
    ensures
        pulls(v, k).0 == v,
        pulls(v, k).1.len() == k,
        forall|i: int| 0 <= i < k ==> (#[trigger] pulls(v, k).1[i]).is_none(),
    decreases k,
{
    if k > 0 {
        lemma_cancel_is_final(v, (k - 1) as nat);
        let (mid, out) = pulls(v, (k - 1) as nat);
        assert(pulls(v, k).1 == out.push(None));
    }
}

/// Chunk size used where none is given.
pub const DEFAULT_CHUNK_SIZE: usize = 2048;

/// A pull-driven, cancellable, one-shot engine over a fixed set of need-sets
/// and a fixed pool of undrawn numbers.
pub struct ProbEngine {
    needs: Vec<Vec<i32>>,
    pool: Vec<i32>,
    chunk_size: usize,
    round: usize,
    bingo_count: i128,
    pending: Vec<Vec<i32>>,
    cancelled: bool,
}

impl View for ProbEngine {
    type V = EngineView;

    closed spec fn view(&self) -> EngineView {
        EngineView {
            needs: seqs_of(self.needs@),
            pool: self.pool@,
            round: self.round as nat,
            bingo_count: self.bingo_count as nat,
            pending: seqs_of(self.pending@),
            cancelled: self.cancelled,
        }
    }
}

impl ProbEngine {
    /// The engine's invariant.
    pub closed spec fn wf(&self) -> bool {
        &&& 0 <= self.bingo_count
        &&& valid_view(self@)
    }

    /// The chunk size it was made with.
    pub closed spec fn chunk(&self) -> usize {
        self.chunk_size
    }

    /// A fresh engine with the default chunk size.
    pub fn new(needs: Vec<Vec<i32>>, pool: Vec<i32>) -> (e: ProbEngine)
        requires
            pool@.no_duplicates(),
        ensures
            e.wf(),
            e@ == initial_view(seqs_of(needs@), pool@),
            e.chunk() == DEFAULT_CHUNK_SIZE,
    {
        Self::with_chunk_size(needs, pool, DEFAULT_CHUNK_SIZE)
    }

    /// A fresh engine that expands `chunk_size` candidates at a time (all at
    /// once where it is zero).
    pub fn with_chunk_size(needs: Vec<Vec<i32>>, pool: Vec<i32>, chunk_size: usize) -> (e: ProbEngine)
        requires
            pool@.no_duplicates(),
        ensures
            e.wf(),
            e@ == initial_view(seqs_of(needs@), pool@),
            e.chunk() == chunk_size,
    {
        let mut pending: Vec<Vec<i32>> = Vec::new();
        pending.push(Vec::new());
        let e = ProbEngine { needs, pool, chunk_size, round: 0, bingo_count: 0, pending, cancelled: false };
        assert(seqs_of(e.pending@) =~= seq![Seq::<i32>::empty()]);
        assert(candidate_in(Seq::<i32>::empty(), e.pool@));
        e
    }

    /// Stops the engine: no round is produced after this.
    pub fn cancel(&mut self)
        requires
            old(self).wf(),
        ensures
            final(self).wf(),
            final(self)@ == cancelled_view(old(self)@),
            final(self).chunk() == old(self).chunk(),
    {
        self.cancelled = true;
    }

    /// Whether `cancel` was called.
    pub fn is_cancelled(&self) -> (c: bool)
        ensures
            c == self@.cancelled,
    {
        self.cancelled
    }

    /// Rounds produced so far.
    pub fn round(&self) -> (r: usize)
        ensures
            r == self@.round,
    {
        self.round
    }

    /// Ordered draw sequences of the current length that have won.
    pub fn bingo_count(&self) -> (b: i128)
        requires
            self.wf(),
        ensures
            b == self@.bingo_count,
    {
        self.bingo_count
    }

    /// The candidates that have not won yet.
    pub fn pending(&self) -> (p: &Vec<Vec<i32>>)
        ensures
            seqs_of(p@) == self@.pending,
    {
        &self.pending
    }

    /// Whether the next round's counts stay within the engine's integers:
    /// the round number fits a `usize` and the number of ordered draw
    /// sequences of that length fits an `i128`.
    pub fn can_advance(&self) -> (ok: bool)
        ensures
            ok == (self@.round < usize::MAX && perm_count(self@.pool.len(), self@.round + 1)
                <= i128::MAX),
    {
        if self.round == usize::MAX {
            return false;
        }
        checked_pattern(self.pool.len() as i128, self.round as i128 + 1).is_some()
    }

    /// Produces the next round, or nothing once cancelled. Its candidates are
    /// expanded chunk by chunk; the result does not depend on the chunk size.
    pub fn next_round(&mut self) -> (res: Option<RoundResult>)
        requires
            old(self).wf(),
            !old(self)@.cancelled ==> old(self)@.round < usize::MAX && perm_count(
                old(self)@.pool.len(),
                old(self)@.round + 1,
            ) <= i128::MAX,
        ensures
            final(self).wf(),
            (final(self)@, res) == advance(old(self)@),
            final(self).chunk() == old(self).chunk(),
    {
        if self.cancelled {
            return None;
        }
        let ghost v = self@;
        let ghost pv = self.pool@.len();
        let r = self.round;
        let n = r + 1;
        let plen = self.pool.len();
        let total = pattern(plen as i128, n as i128);
        let factor: i128 = if r <= plen {
            (plen - r) as i128
        } else {
            0
        };
        let len = self.pending.len();
        let ghost f = next_factor(pv, r as nat);
        let ghost b = self.bingo_count as nat;
        proof {
            lemma_perm_step(pv, r as nat);
            assert(factor == f);
            assert(b * f + len * f == (b + len) * f) by (nonlinear_arith);
        }
        let carried = self.bingo_count * factor;
        let size = if self.chunk_size == 0 || self.chunk_size > len {
            len
        } else {
            self.chunk_size
        };
        let ghost cv = seqs_of(self.pending@);
        let mut won: i128 = 0;
        let mut survivors: Vec<Vec<i32>> = Vec::new();
        let mut lo: usize = 0;
        assert(cv.subrange(0, 0) =~= Seq::<Seq<i32>>::empty());
        assert(seqs_of(survivors@) =~= Seq::<Seq<i32>>::empty());
        while lo < len
            invariant
                lo <= len == self.pending.len(),
                v == self@,
                self.wf(),
                !self.cancelled,
                r == self.round,
                n == r + 1,
                pv == self.pool.len(),
                f == next_factor(pv, r as nat),
                b == self.bingo_count,
                cv == seqs_of(self.pending@),
                len > 0 ==> 1 <= size,
                carried == b * f,
                b * f + len * f <= i128::MAX,
                0 <= won,
                (won as nat, seqs_of(survivors@)) == expand(cv.subrange(0, lo as int), v.pool, v.needs, n as nat),
                won + survivors.len() == lo * f,
                forall|j: int|
                    0 <= j < survivors.len() ==> candidate_in(#[trigger] survivors@[j]@, v.pool)
                        && survivors@[j]@.len() == n && !wins(survivors@[j]@, v.needs, n as nat),
            decreases len - lo,
        {
            let hi = if len - lo > size {
                lo + size
            } else {
                len
            };
            proof {
                assert((hi - lo) * f <= len * f) by (nonlinear_arith)
                    requires
                        hi - lo <= len,
                ;
                assert forall|j: int| lo <= j < hi implies candidate_in(
                    #[trigger] self.pending@[j]@,
                    self.pool@,
                ) && self.pending@[j]@.len() == n - 1 by {
                    assert(cv[j] == self.pending@[j]@);
                }
            }
            let (cw, mut cs) = expand_chunk(&self.pending, lo, hi, &self.pool, &self.needs, n);
            proof {
                lemma_expand_concat(cv.subrange(0, lo as int), cv.subrange(lo as int, hi as int), v.pool, v.needs, n as nat);
                assert(cv.subrange(0, lo as int) + cv.subrange(lo as int, hi as int) =~= cv.subrange(0, hi as int));
                assert(lo * f + (hi - lo) * f == hi * f) by (nonlinear_arith);
                assert(hi * f <= len * f) by (nonlinear_arith)
                    requires
                        hi <= len,
                ;
            }
            let ghost before = survivors@;
            let ghost added = cs@;
            won = won + cw;
            survivors.append(&mut cs);
            proof {
                assert(seqs_of(survivors@) =~= seqs_of(before) + seqs_of(added));
                assert forall|j: int| 0 <= j < survivors.len() implies candidate_in(
                    #[trigger] survivors@[j]@,
                    v.pool,
                ) && survivors@[j]@.len() == n && !wins(survivors@[j]@, v.needs, n as nat) by {
                    if j >= before.len() {
                        assert(survivors@[j] == added[j - before.len()]);
                    } else {
                        assert(survivors@[j] == before[j]);
                    }
                }
            }
            lo = hi;
        }
        proof {
            assert(cv.subrange(0, len as int) =~= cv);
        }
        self.bingo_count = carried + won;
        self.pending = survivors;
        self.round = n;
        Some(RoundResult { round: n, total, bingo_count: self.bingo_count })
    }
}

} // verus!
