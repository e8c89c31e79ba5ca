//! What it takes to win: need-sets and the test of a drawn set against them.
use vstd::prelude::*;

verus! {

/// The numbers of a candidate, seen as a sequence of distinct draws.
pub open spec fn seqs_of(v: Seq<Vec<i32>>) -> Seq<Seq<i32>> {
    v.map_values(|c: Vec<i32>| c@)
}

/// Every number of `need` has been drawn in `drawn`.
pub open spec fn covers(drawn: Seq<i32>, need: Seq<i32>) -> bool {
    forall|k: int| 0 <= k < need.len() ==> drawn.contains(#[trigger] need[k])
}

/// After `n` draws, `drawn` completes a line: some need-set of at most `n`
/// numbers lies inside it.
pub open spec fn wins(drawn: Seq<i32>, needs: Seq<Seq<i32>>, n: nat) -> bool {
    exists|i: int| 0 <= i < needs.len() && #[trigger] needs[i].len() <= n && covers(drawn, needs[i])
}

/// Whether `x` is among `v`.
pub fn contains_num(v: &Vec<i32>, x: i32) -> (found: bool)
    ensures
        found == v@.contains(x),
{
    let mut i: usize = 0;
    while i < v.len()
        invariant
            i <= v.len(),
            forall|j: int| 0 <= j < i ==> v@[j] != x,
        decreases v.len() - i,
    {
        if v[i] == x {
            return true;
        }
        i = i + 1;
    }
    false
}

/// Whether every number of `need` is among `drawn`.
pub fn covers_all(drawn: &Vec<i32>, need: &Vec<i32>) -> (all: bool)
    ensures
        all == covers(drawn@, need@),
{
    let mut i: usize = 0;
    while i < need.len()
        invariant
            i <= need.len(),
            forall|k: int| 0 <= k < i ==> drawn@.contains(#[trigger] need@[k]),
        decreases need.len() - i,
    {
        if !contains_num(drawn, need[i]) {
            return false;
        }
        i = i + 1;
    }
    true
}

/// Whether `drawn` completes a line after `n` draws.
pub fn is_bingo(drawn: &Vec<i32>, needs: &Vec<Vec<i32>>, n: usize) -> (win: bool)
    ensures
        win == wins(drawn@, seqs_of(needs@), n as nat),
{
    let ghost nv = seqs_of(needs@);
    let mut i: usize = 0;
    while i < needs.len()
        invariant
            i <= needs.len(),
            nv == seqs_of(needs@),
            forall|j: int| 0 <= j < i ==> !(#[trigger] nv[j].len() <= n && covers(drawn@, nv[j])),
        decreases needs.len() - i,
    {
        if needs[i].len() <= n && covers_all(drawn, &needs[i]) {
            assert(nv[i as int].len() <= n && covers(drawn@, nv[i as int]));
            return true;
        }
        i = i + 1;
    }
    false
}

/// Whether every need-set holds more than `n` numbers, so that no `n` draws
/// can complete a line.
pub fn all_beyond(needs: &Vec<Vec<i32>>, n: usize) -> (beyond: bool)
    ensures
        beyond == (forall|i: int| 0 <= i < needs.len() ==> needs@[i]@.len() > n),
{
    let mut i: usize = 0;
    while i < needs.len()
        invariant
            i <= needs.len(),
            forall|j: int| 0 <= j < i ==> needs@[j]@.len() > n,
        decreases needs.len() - i,
    {
        if needs[i].len() <= n {
            return false;
        }
        i = i + 1;
    }
    true
}

/// Where every need-set holds more than `n` numbers nothing wins.
pub proof fn lemma_beyond_never_wins(drawn: Seq<i32>, needs: Seq<Seq<i32>>, n: nat)
    requires
        forall|i: int| 0 <= i < needs.len() ==> needs[i].len() > n,
    ensures
        !wins(drawn, needs, n),
{
}

} // verus!
