//! The card, its winning lines, and what each line still needs.
use vstd::prelude::*;
use crate::lines::{seqs_of, contains_num};

verus! {

/// Number of winning lines: five rows, five columns, two diagonals.
pub const LINE_COUNT: usize = 12;

/// Cells on each side of the card, and on each line.
pub const SIDE: usize = 5;

/// A card: the number in each cell, and whether the cell is revealed.
pub struct BingoCard {
    pub numbers: [[i32; 5]; 5],
    pub state: [[bool; 5]; 5],
}

/// The `j`-th cell, as (row, column), of line `k`: rows first, then columns,
/// then the diagonal from the top left, then the one from the top right.
pub open spec fn pattern_cell(k: int, j: int) -> (int, int) {
    if k < 5 {
        (k, j)
    } else if k < 10 {
        (j, k - 5)
    } else if k == 10 {
        (j, j)
    } else {
        (j, 4 - j)
    }
}

/// The number in cell (`r`, `c`).
pub open spec fn number_at(card: BingoCard, r: int, c: int) -> i32 {
    card.numbers@[r]@[c]
}

/// Whether cell (`r`, `c`) is revealed.
pub open spec fn revealed_at(card: BingoCard, r: int, c: int) -> bool {
    card.state@[r]@[c]
}

/// The unrevealed numbers among the first `j` cells of line `k`, each once,
/// in line order.
pub open spec fn need_prefix(card: BingoCard, k: int, j: nat) -> Seq<i32>
    decreases j,
{
    if j == 0 {
        Seq::empty()
    } else {
        let s = need_prefix(card, k, (j - 1) as nat);
        let (r, c) = pattern_cell(k, j - 1);
        let x = number_at(card, r, c);
        if !revealed_at(card, r, c) && !s.contains(x) {
            s.push(x)
        } else {
            s
        }
    }
}

/// One need-set per line, in line order.
pub open spec fn need_sets_of(card: BingoCard) -> Seq<Seq<i32>> {
    Seq::new(LINE_COUNT as nat, |k: int| need_prefix(card, k, SIDE as nat))
}

/// Every cell of line `k` is revealed.
pub open spec fn line_complete(card: BingoCard, k: int) -> bool {
    forall|j: int|
        0 <= j < SIDE ==> #[trigger] revealed_at(card, pattern_cell(k, j).0, pattern_cell(k, j).1)
}

/// Some line has all its cells revealed.
pub open spec fn has_line(card: BingoCard) -> bool {
    exists|k: int| 0 <= k < LINE_COUNT && #[trigger] line_complete(card, k)
}

/// The `j`-th cell of line `k`.
pub fn line_cell(k: usize, j: usize) -> (cell: (usize, usize))
    requires
        k < LINE_COUNT,
        j < SIDE,
    ensures
        cell.0 == pattern_cell(k as int, j as int).0,
        cell.1 == pattern_cell(k as int, j as int).1,
        cell.0 < SIDE,
        cell.1 < SIDE,
{
    if k < 5 {
        (k, j)
    } else if k < 10 {
        (j, k - 5)
    } else if k == 10 {
        (j, j)
    } else {
        (j, 4 - j)
    }
}

/// The numbers that line `k` still needs, each once.
pub fn need_set(card: &BingoCard, k: usize) -> (need: Vec<i32>)
    requires
        k < LINE_COUNT,
    ensures
        need@ == need_prefix(*card, k as int, SIDE as nat),
        need@.no_duplicates(),
{
    let mut need: Vec<i32> = Vec::new();
    let mut j: usize = 0;
    while j < SIDE
        invariant
            k < LINE_COUNT,
            j <= SIDE,
            need@ == need_prefix(*card, k as int, j as nat),
            need@.no_duplicates(),
        decreases SIDE - j,
    {
        let (r, c) = line_cell(k, j);
        let x = card.numbers[r][c];
        if !card.state[r][c] && !contains_num(&need, x) {
            need.push(x);
        }
        j = j + 1;
    }
    need
}

/// One need-set per line: the numbers at the line's unrevealed cells. A line
/// already complete gets an empty set; telling that apart is the caller's
/// business.
pub fn need_sets(card: &BingoCard) -> (needs: Vec<Vec<i32>>)
    ensures
        seqs_of(needs@) == need_sets_of(*card),
        forall|k: int| 0 <= k < needs.len() ==> (#[trigger] needs@[k])@.no_duplicates(),
{
    let mut needs: Vec<Vec<i32>> = Vec::new();
    let mut k: usize = 0;
    while k < LINE_COUNT
        invariant
            k <= LINE_COUNT,
            needs.len() == k,
            forall|i: int| 0 <= i < k ==> (#[trigger] needs@[i])@ == need_prefix(*card, i, SIDE as nat),
            forall|i: int| 0 <= i < k ==> (#[trigger] needs@[i])@.no_duplicates(),
        decreases LINE_COUNT - k,
    {
        let need = need_set(card, k);
        needs.push(need);
        k = k + 1;
    }
    assert(seqs_of(needs@) =~= need_sets_of(*card));
    needs
}

/// The same card always yields the same need-sets.
pub proof fn lemma_need_sets_deterministic(a: BingoCard, b: BingoCard)
    requires
        a.numbers@ == b.numbers@,
        a.state@ == b.state@,
    ensures
        need_sets_of(a) == need_sets_of(b),
{
    assert forall|k: int| 0 <= k < LINE_COUNT implies need_prefix(a, k, SIDE as nat) == need_prefix(
        b,
        k,
        SIDE as nat,
    ) by {
        lemma_need_prefix_same(a, b, k, SIDE as nat);
    }
    assert(need_sets_of(a) =~= need_sets_of(b));
}

proof fn lemma_need_prefix_same(a: BingoCard, b: BingoCard, k: int, j: nat)
    requires
        a.numbers@ == b.numbers@,
        a.state@ == b.state@,
    ensures
        need_prefix(a, k, j) == need_prefix(b, k, j),
    decreases j,
{
    if j > 0 {
        lemma_need_prefix_same(a, b, k, (j - 1) as nat);
    }
}

/// Whether some line of the card is complete.
pub fn check_exists_any_line(card: &BingoCard) -> (found: bool)
    ensures
        found == has_line(*card),
{
    let mut k: usize = 0;
    while k < LINE_COUNT
        invariant
            k <= LINE_COUNT,
            forall|i: int| 0 <= i < k ==> !#[trigger] line_complete(*card, i),
        decreases LINE_COUNT - k,
    {
        let mut j: usize = 0;
        let mut all = true;
        while j < SIDE
            invariant
                k < LINE_COUNT,
                j <= SIDE,
                all == forall|t: int|
                    0 <= t < j ==> #[trigger] revealed_at(*card, pattern_cell(k as int, t).0, pattern_cell(k as int, t).1),
            decreases SIDE - j,
        {
            let (r, c) = line_cell(k, j);
            let open_cell = card.state[r][c];
            assert(open_cell == revealed_at(*card, pattern_cell(k as int, j as int).0, pattern_cell(k as int, j as int).1));
            all = all && open_cell;
            j = j + 1;
        }
        if all {
            assert(line_complete(*card, k as int));
            return true;
        }
        k = k + 1;
    }
    false
}

} // verus!
