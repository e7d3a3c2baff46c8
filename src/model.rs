use vstd::prelude::*;

use crate::sudoku::{Cell, SolvedCell};

verus! {

/// The cell lies on the 9x9 board.
pub open spec fn in_grid(c: Cell) -> bool {
    c.row < 9 && c.col < 9
}

/// Which of the nine 3x3 blocks holds the cell.
pub open spec fn block_of(c: Cell) -> int {
    (c.row as int / 3) * 3 + c.col as int / 3
}

/// Two cells share a row, a column or a block.
pub open spec fn is_peer(a: Cell, b: Cell) -> bool {
    a.row == b.row || a.col == b.col || block_of(a) == block_of(b)
}

/// The cell visited at step `i` of the row-major scan of the board.
pub open spec fn scan_cell(i: int) -> Cell {
    Cell { row: (i / 9) as u8, col: (i % 9) as u8 }
}

/// Position of an on-board cell in the row-major scan.
pub open spec fn scan_index(c: Cell) -> int {
    c.row as int * 9 + c.col as int
}

/// Every assignment names an on-board cell.
pub open spec fn cells_in_grid(s: Seq<SolvedCell>) -> bool {
    forall|i: int| 0 <= i < s.len() ==> in_grid(#[trigger] s[i].cell)
}

/// Some assignment fixes the cell.
pub open spec fn assigned(s: Seq<SolvedCell>, c: Cell) -> bool {
    exists|i: int| 0 <= i < s.len() && #[trigger] s[i].cell == c
}

/// Some peer of the cell already holds the digit `n`.
pub open spec fn excluded(s: Seq<SolvedCell>, c: Cell, n: int) -> bool {
    exists|i: int| 0 <= i < s.len() && is_peer(#[trigger] s[i].cell, c) && s[i].val == n
}

/// The digits `1..=k`, in ascending order, that no peer of `c` holds.
pub open spec fn candidates_upto(s: Seq<SolvedCell>, c: Cell, k: int) -> Seq<u8>
    decreases k,
{
    if k <= 0 {
        seq![]
    } else if excluded(s, c, k) {
        candidates_upto(s, c, k - 1)
    } else {
        candidates_upto(s, c, k - 1).push(k as u8)
    }
}

/// The digits, in ascending order, that can still go into `c`.
pub open spec fn candidates(s: Seq<SolvedCell>, c: Cell) -> Seq<u8> {
    candidates_upto(s, c, 9)
}

/// The unassigned cells among the first `k` of the scan, in scan order.
pub open spec fn empties_upto(s: Seq<SolvedCell>, k: int) -> Seq<Cell>
    decreases k,
{
    if k <= 0 {
        seq![]
    } else if assigned(s, scan_cell(k - 1)) {
        empties_upto(s, k - 1)
    } else {
        empties_upto(s, k - 1).push(scan_cell(k - 1))
    }
}

/// The unassigned cells of the board, in scan order.
pub open spec fn empties(s: Seq<SolvedCell>) -> Seq<Cell> {
    empties_upto(s, 81)
}

/// Index of the first cell among `es[0..k]` with the fewest candidates.
pub open spec fn fewest_upto(s: Seq<SolvedCell>, es: Seq<Cell>, k: int) -> int
    decreases k,
{
    if k <= 1 {
        0
    } else {
        let p = fewest_upto(s, es, k - 1);
        if candidates(s, es[k - 1]).len() < candidates(s, es[p]).len() {
            k - 1
        } else {
            p
        }
    }
}

/// The assignment set extended by one digit.
pub open spec fn extend(s: Seq<SolvedCell>, c: Cell, v: u8) -> Seq<SolvedCell> {
    s.push(SolvedCell { cell: c, val: v })
}

/// Outcome of the search from `s`: the full assignment set reached when
/// exactly one branch at the most constrained empty cell succeeds.
pub open spec fn search(s: Seq<SolvedCell>) -> Option<Seq<SolvedCell>>
    decreases empties(s).len(), 10int,
{
    let es = empties(s);
    if es.len() == 0 {
        Some(s)
    } else {
        let c = es[fewest_upto(s, es, es.len() as int)];
        let cs = candidates(s, c);
        proof {
            lemma_candidates_upto(s, c, 9);
        }
        let found = successes(s, c, cs, cs.len() as int);
        if found.len() == 1 {
            Some(found[0])
        } else {
            None
        }
    }
}

/// The successful outcomes of trying `cs[0..k]` at the empty cell `c`, in order.
pub open spec fn successes(s: Seq<SolvedCell>, c: Cell, cs: Seq<u8>, k: int) -> Seq<
    Seq<SolvedCell>,
>
    decreases empties(s).len(), k,
{
    if k <= 0 || k > cs.len() || !in_grid(c) || assigned(s, c) {
        seq![]
    } else {
        let prev = successes(s, c, cs, k - 1);
        proof {
            lemma_empties_extend(s, c, cs[k - 1]);
        }
        match search(extend(s, c, cs[k - 1])) {
            Some(t) => prev.push(t),
            None => prev,
        }
    }
}

/// Facts on the candidate list: its length, and that it holds exactly the
/// digits up to `k` that no peer holds.
pub proof fn lemma_candidates_upto(s: Seq<SolvedCell>, c: Cell, k: int)
    requires
        0 <= k <= 9,
    ensures
        candidates_upto(s, c, k).len() <= k,
        forall|j: int|
            0 <= j < candidates_upto(s, c, k).len() ==> 1 <= #[trigger] candidates_upto(
                s,
                c,
                k,
            )[j] <= k && !excluded(s, c, candidates_upto(s, c, k)[j] as int),
    decreases k,
{
    if k > 0 {
        lemma_candidates_upto(s, c, k - 1);
    }
}

/// Row and column of a scan position.
pub proof fn lemma_scan(i: int)
    requires
        0 <= i < 81,
    ensures
        in_grid(scan_cell(i)),
        scan_index(scan_cell(i)) == i,
{
    assert(i == (i / 9) * 9 + i % 9) by (nonlinear_arith)
        requires
            0 <= i,
    ;
}

/// A scan position names the on-board cell `c` exactly at `scan_index(c)`.
pub proof fn lemma_scan_cell(c: Cell, i: int)
    requires
        in_grid(c),
        0 <= i < 81,
    ensures
        scan_cell(i) == c <==> i == scan_index(c),
{
    lemma_scan(i);
    let r = c.row as int;
    let k = c.col as int;
    assert((r * 9 + k) / 9 == r && (r * 9 + k) % 9 == k) by (nonlinear_arith)
        requires
            0 <= r < 9,
            0 <= k < 9,
    ;
}

/// One more assignment fixes exactly one more cell.
pub proof fn lemma_assigned_extend(s: Seq<SolvedCell>, c: Cell, v: u8, d: Cell)
    ensures
        assigned(extend(s, c, v), d) <==> (assigned(s, d) || d == c),
{
    let t = extend(s, c, v);
    if assigned(s, d) {
        let i = choose|i: int| 0 <= i < s.len() && #[trigger] s[i].cell == d;
        assert(t[i].cell == d);
    }
    if d == c {
        assert(t[s.len() as int].cell == d);
    }
    if assigned(t, d) {
        let i = choose|i: int| 0 <= i < t.len() && #[trigger] t[i].cell == d;
        if i < s.len() {
            assert(s[i].cell == d);
        }
    }
}

/// Fixing an empty on-board cell leaves one fewer empty cell in the scan prefix.
pub proof fn lemma_empties_upto_extend(s: Seq<SolvedCell>, c: Cell, v: u8, k: int)
    requires
        in_grid(c),
        !assigned(s, c),
        0 <= k <= 81,
    ensures
        empties_upto(extend(s, c, v), k).len() + (if scan_index(c) < k {
            1int
        } else {
            0int
        }) == empties_upto(s, k).len(),
    decreases k,
{
    if k > 0 {
        lemma_empties_upto_extend(s, c, v, k - 1);
        lemma_assigned_extend(s, c, v, scan_cell(k - 1));
        lemma_scan_cell(c, k - 1);
    }
}

/// Fixing an empty on-board cell leaves one fewer empty cell on the board.
pub proof fn lemma_empties_extend(s: Seq<SolvedCell>, c: Cell, v: u8)
    requires
        in_grid(c),
        !assigned(s, c),
    ensures
        empties(extend(s, c, v)).len() + 1 == empties(s).len(),
{
    lemma_empties_upto_extend(s, c, v, 81);
    lemma_scan(0);
    assert(scan_index(c) < 81);
}

} // verus!

verus! {

/// The empty cells are on the board, unassigned, and fewer than the bound.
pub proof fn lemma_empties_upto(s: Seq<SolvedCell>, k: int)
    requires
        0 <= k <= 81,
    ensures
        empties_upto(s, k).len() <= k,
        forall|j: int|
            0 <= j < empties_upto(s, k).len() ==> in_grid(#[trigger] empties_upto(s, k)[j])
                && !assigned(s, empties_upto(s, k)[j]),
    decreases k,
{
    if k > 0 {
        lemma_empties_upto(s, k - 1);
        lemma_scan(k - 1);
    }
}

/// The chosen index lies among the first `k` cells.
pub proof fn lemma_fewest_upto(s: Seq<SolvedCell>, es: Seq<Cell>, k: int)
    requires
        1 <= k,
    ensures
        0 <= fewest_upto(s, es, k) < k,
    decreases k,
{
    if k > 1 {
        lemma_fewest_upto(s, es, k - 1);
    }
}

/// The outcome of a search as plain sequences.
pub open spec fn opt_view(r: Option<Vec<SolvedCell>>) -> Option<Seq<SolvedCell>> {
    match r {
        Some(v) => Some(v@),
        None => None,
    }
}

} // verus!

verus! {

/// The digit at scan position `i` of a board.
pub open spec fn grid_at(g: [[u8; 9]; 9], i: int) -> u8 {
    g[i / 9][i % 9]
}

/// The clues among the first `k` cells of the scan, in scan order.
pub open spec fn clues_upto(g: [[u8; 9]; 9], k: int) -> Seq<SolvedCell>
    decreases k,
{
    if k <= 0 {
        seq![]
    } else if grid_at(g, k - 1) == 0 {
        clues_upto(g, k - 1)
    } else {
        clues_upto(g, k - 1).push(SolvedCell { cell: scan_cell(k - 1), val: grid_at(g, k - 1) })
    }
}

/// The non-zero cells of a board as an assignment set, in scan order.
pub open spec fn clues(g: [[u8; 9]; 9]) -> Seq<SolvedCell> {
    clues_upto(g, 81)
}

/// Every cell of the board holds a digit in `0..=9`.
pub open spec fn digits_in_range(g: [[u8; 9]; 9]) -> bool {
    forall|r: int, c: int| 0 <= r < 9 && 0 <= c < 9 ==> #[trigger] g[r][c] <= 9
}

/// No two assignments to peer cells hold the same digit.
pub open spec fn consistent(s: Seq<SolvedCell>) -> bool {
    forall|i: int, j: int|
        0 <= i < j < s.len() && is_peer(#[trigger] s[i].cell, #[trigger] s[j].cell) ==> s[i].val
            != s[j].val
}

/// The board is a well-formed puzzle: digits in range and no clue repeated
/// in a row, a column or a block.
pub open spec fn valid_puzzle(g: [[u8; 9]; 9]) -> bool {
    digits_in_range(g) && consistent(clues(g))
}

/// What solving a board gives: `None` for a malformed board, else the outcome
/// of the search from its clues.
pub open spec fn solve_board(g: [[u8; 9]; 9]) -> Option<Seq<SolvedCell>> {
    if valid_puzzle(g) {
        search(clues(g))
    } else {
        None
    }
}

/// The clues lie on the board, before scan position `k`, with non-zero digits
/// read from the board.
pub proof fn lemma_clues_upto(g: [[u8; 9]; 9], k: int)
    requires
        0 <= k <= 81,
    ensures
        forall|j: int|
            0 <= j < clues_upto(g, k).len() ==> in_grid(#[trigger] clues_upto(g, k)[j].cell)
                && scan_index(clues_upto(g, k)[j].cell) < k && clues_upto(g, k)[j].val
                == grid_at(g, scan_index(clues_upto(g, k)[j].cell)) && clues_upto(g, k)[j].val
                != 0,
        forall|a: int, b: int|
            0 <= a < b < clues_upto(g, k).len() ==> scan_index(#[trigger] clues_upto(g, k)[a].cell)
                < scan_index(#[trigger] clues_upto(g, k)[b].cell),
        forall|i: int|
            0 <= i < k && grid_at(g, i) != 0 ==> exists|j: int|
                0 <= j < clues_upto(g, k).len() && #[trigger] clues_upto(g, k)[j] == (SolvedCell {
                    cell: scan_cell(i),
                    val: grid_at(g, i),
                }),
    decreases k,
{
    if k > 0 {
        lemma_clues_upto(g, k - 1);
        let pp = clues_upto(g, k - 1);
        let qq = clues_upto(g, k);
        assert forall|i: int| 0 <= i < k && grid_at(g, i) != 0 implies exists|j: int|
            0 <= j < qq.len() && #[trigger] qq[j] == (SolvedCell {
                cell: scan_cell(i),
                val: grid_at(g, i),
            }) by {
            if i < k - 1 {
                let j = choose|j: int|
                    0 <= j < pp.len() && #[trigger] pp[j] == (SolvedCell {
                        cell: scan_cell(i),
                        val: grid_at(g, i),
                    });
                assert(qq[j] == pp[j]);
            } else {
                assert(qq[pp.len() as int] == (SolvedCell { cell: scan_cell(i), val: grid_at(g, i) }));
            }
        }
        lemma_scan(k - 1);
        let p = clues_upto(g, k - 1);
        let q = clues_upto(g, k);
        assert forall|a: int, b: int| 0 <= a < b < q.len() implies scan_index(
            #[trigger] q[a].cell,
        ) < scan_index(#[trigger] q[b].cell) by {
            if b < p.len() {
                assert(q[a] == p[a] && q[b] == p[b]);
            } else {
                assert(q[a] == p[a]);
            }
        }
        assert forall|j: int| 0 <= j < q.len() implies in_grid(#[trigger] q[j].cell) && scan_index(
            q[j].cell,
        ) < k && q[j].val == grid_at(g, scan_index(q[j].cell)) && q[j].val != 0 by {
            if j < p.len() {
                assert(q[j] == p[j]);
            }
        }
    }
}

} // verus!
