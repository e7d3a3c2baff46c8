use vstd::prelude::*;

use itertools::Itertools;

use crate::render::{board_text, joined, lookup_upto, padded2, row_text, shown_value};
use crate::model::{
    assigned, block_of, candidates, candidates_upto, cells_in_grid, clues, clues_upto, consistent,
    empties, empties_upto, excluded, extend, fewest_upto, grid_at, in_grid, is_peer,
    lemma_clues_upto, lemma_empties_extend, lemma_empties_upto, lemma_fewest_upto, lemma_scan,
    lemma_scan_cell, opt_view, scan_cell, scan_index, search, solve_board, successes,
};

verus! {

/// A position on the board: `row` and `col` each in `0..9`.
#[derive(Debug, Clone, Copy)]
pub struct Cell {
    pub row: u8,
    pub col: u8,
}

/// One fixed digit on the board.
#[derive(Debug, Clone, Copy)]
pub struct SolvedCell {
    pub cell: Cell,
    pub val: u8,
}

/// A set of assignments, kept in the order in which they were made.
pub type SolvedCells = Vec<SolvedCell>;

impl Cell {
    /// Index of the 3x3 block that holds this cell.
    pub fn block(&self) -> (r: u8)
        requires
            in_grid(*self),
        ensures
            r as int == block_of(*self),
            r < 9,
    {
        (self.row / 3) * 3 + self.col / 3
    }

    /// The digits, in ascending order, that no assigned peer of this cell holds.
    pub fn unused(&self, solved: &SolvedCells) -> (r: Vec<u8>)
        requires
            in_grid(*self),
            cells_in_grid(solved@),
        ensures
            r@ == candidates(solved@, *self),
    {
        let mut solved_numbers: Vec<u8> = Vec::new();
        let mut i: usize = 0;
        while i < solved.len()
            invariant
                i <= solved.len(),
                in_grid(*self),
                cells_in_grid(solved@),
                forall|j: int|
                    0 <= j < solved_numbers.len() ==> excluded(
                        solved@,
                        *self,
                        #[trigger] solved_numbers@[j] as int,
                    ),
                forall|k: int|
                    0 <= k < i && is_peer(#[trigger] solved@[k].cell, *self)
                        ==> solved_numbers@.contains(solved@[k].val),
            decreases solved.len() - i,
        {
            let solved_cell = solved[i];
            assert(in_grid(solved@[i as int].cell));
            if solved_cell.cell.row == self.row || solved_cell.cell.col == self.col
                || solved_cell.cell.block() == self.block() {
                let ghost before = solved_numbers@;
                solved_numbers.push(solved_cell.val);
                assert(solved_numbers@[solved_numbers.len() - 1] == solved_cell.val);
                assert forall|x: u8| before.contains(x) implies solved_numbers@.contains(x) by {
                    let m = choose|m: int| 0 <= m < before.len() && before[m] == x;
                    assert(solved_numbers@[m] == x);
                }
            }
            i = i + 1;
        }
        let mut r: Vec<u8> = Vec::new();
        let mut n: u8 = 1;
        while n <= 9
            invariant
                1 <= n <= 10,
                r@ == candidates_upto(solved@, *self, n - 1),
                forall|j: int|
                    0 <= j < solved_numbers.len() ==> excluded(
                        solved@,
                        *self,
                        #[trigger] solved_numbers@[j] as int,
                    ),
                forall|k: int|
                    0 <= k < solved.len() && is_peer(#[trigger] solved@[k].cell, *self)
                        ==> solved_numbers@.contains(solved@[k].val),
            decreases 10 - n,
        {
            let mut found = false;
            let mut j: usize = 0;
            while j < solved_numbers.len()
                invariant
                    j <= solved_numbers.len(),
                    found <==> exists|m: int| 0 <= m < j && solved_numbers@[m] == n,
                decreases solved_numbers.len() - j,
            {
                if solved_numbers[j] == n {
                    found = true;
                }
                j = j + 1;
            }
            if found {
                proof {
                    let m = choose|m: int|
                        0 <= m < solved_numbers.len() && solved_numbers@[m] == n;
                    assert(excluded(solved@, *self, solved_numbers@[m] as int));
                }
            } else {
                proof {
                assert forall|k: int|
                    0 <= k < solved.len() && is_peer(#[trigger] solved@[k].cell, *self)
                        implies solved@[k].val != n by {
                    if solved@[k].val == n {
                        let m = choose|m: int|
                            0 <= m < solved_numbers.len() && solved_numbers@[m] == n;
                    }
                }
                }
                r.push(n);
            }
            n = n + 1;
        }
        r
    }
}

/// Relies on itertools' `cartesian_product`: every pair of `0..9` by `0..9`,
/// the first component running slowest.
#[verifier::external_body]
fn to_row_col() -> (r: Vec<(u8, u8)>)
    ensures
        r@ == Seq::new(81, |i: int| ((i / 9) as u8, (i % 9) as u8)),
{
    (0..9u8).cartesian_product(0..9u8).collect()
}

/// Whether some assignment fixes the cell at `row`, `col`.
fn is_assigned(solved: &SolvedCells, row: u8, col: u8) -> (r: bool)
    ensures
        r == assigned(solved@, Cell { row, col }),
{
    let mut i: usize = 0;
    while i < solved.len()
        invariant
            i <= solved.len(),
            forall|k: int| 0 <= k < i ==> #[trigger] solved@[k].cell != (Cell { row, col }),
        decreases solved.len() - i,
    {
        if solved[i].cell.row == row && solved[i].cell.col == col {
            assert(solved@[i as int].cell == Cell { row, col });
            return true;
        }
        i = i + 1;
    }
    false
}

/// The unassigned cells of the board, in row-major order.
fn empty_cells(solved: &SolvedCells) -> (r: Vec<Cell>)
    ensures
        r@ == empties(solved@),
{
    let row_col = to_row_col();
    let mut r: Vec<Cell> = Vec::new();
    let mut i: usize = 0;
    while i < row_col.len()
        invariant
            i <= row_col.len(),
            row_col@ == Seq::new(81, |i: int| ((i / 9) as u8, (i % 9) as u8)),
            r@ == empties_upto(solved@, i as int),
        decreases row_col.len() - i,
    {
        let (row, col) = row_col[i];
        assert(Cell { row, col } == scan_cell(i as int));
        if !is_assigned(solved, row, col) {
            r.push(Cell { row, col });
        }
        i = i + 1;
    }
    r
}

/// A copy of the assignment set.
fn copy_cells(solved: &SolvedCells) -> (r: SolvedCells)
    ensures
        r@ == solved@,
{
    let mut r: SolvedCells = Vec::new();
    let mut i: usize = 0;
    while i < solved.len()
        invariant
            i <= solved.len(),
            r@ == solved@.subrange(0, i as int),
        decreases solved.len() - i,
    {
        r.push(solved[i]);
        i = i + 1;
    }
    r
}

/// Completes the assignment set when exactly one branch at each step of the
/// search succeeds; `None` otherwise.
pub fn solve(solved: &SolvedCells) -> (r: Option<SolvedCells>)
    requires
        cells_in_grid(solved@),
    ensures
        opt_view(r) == search(solved@),
    decreases empties(solved@).len(),
{
    let unsolved = empty_cells(solved);
    if unsolved.len() == 0 {
        return Some(copy_cells(solved));
    }
    proof {
        lemma_empties_upto(solved@, 81);
    }
    let ghost es = unsolved@;
    let mut best: usize = 0;
    let mut best_unused: Vec<u8> = unsolved[0].unused(solved);
    let mut k: usize = 1;
    while k < unsolved.len()
        invariant
            1 <= k <= unsolved.len(),
            unsolved@ == es,
            es == empties(solved@),
            cells_in_grid(solved@),
            forall|j: int| 0 <= j < es.len() ==> in_grid(#[trigger] es[j]),
            best == fewest_upto(solved@, es, k as int),
            best_unused@ == candidates(solved@, es[best as int]),
        decreases unsolved.len() - k,
    {
        let unused = unsolved[k].unused(solved);
        if unused.len() < best_unused.len() {
            best = k;
            best_unused = unused;
        }
        k = k + 1;
    }
    proof {
        lemma_fewest_upto(solved@, es, es.len() as int);
    }
    let cell = unsolved[best];
    let ghost cs = best_unused@;
    let mut answers: Vec<SolvedCells> = Vec::new();
    let mut i: usize = 0;
    while i < best_unused.len()
        invariant
            i <= best_unused.len(),
            best_unused@ == cs,
            cs == candidates(solved@, cell),
            in_grid(cell),
            !assigned(solved@, cell),
            cells_in_grid(solved@),
            answers.len() == successes(solved@, cell, cs, i as int).len(),
            forall|j: int|
                0 <= j < answers.len() ==> #[trigger] answers@[j]@ == successes(
                    solved@,
                    cell,
                    cs,
                    i as int,
                )[j],
        decreases best_unused.len() - i,
    {
        let val = best_unused[i];
        let mut new_solved = copy_cells(solved);
        new_solved.push(SolvedCell { cell, val });
        assert(new_solved@ == extend(solved@, cell, val));
        proof {
            lemma_empties_extend(solved@, cell, val);
        }
        match solve(&new_solved) {
            Some(answer) => {
                answers.push(answer);
            },
            None => {},
        }
        i = i + 1;
    }
    if answers.len() == 1 {
        answers.pop()
    } else {
        None
    }
}

/// Relies on `format!` with width 2: the decimal digits of `v`, right-aligned
/// in two characters.
#[verifier::external_body]
fn pad2(v: u8) -> (r: String)
    ensures
        r@ == padded2(v as nat),
{
    format!("{:2}", v)
}

/// Relies on itertools' `join`: the parts in order, with `sep` between each two.
#[verifier::external_body]
fn join_parts(parts: &Vec<String>, sep: &str) -> (r: String)
    ensures
        r@ == joined(parts@.map_values(|p: String| p@), sep@),
{
    parts.iter().join(sep)
}

/// The digit of the first assignment that names the cell at `row`, `col`, or `0`.
fn value_at(solved: &SolvedCells, row: u8, col: u8) -> (r: u8)
    ensures
        r == shown_value(solved@, Cell { row, col }),
{
    let mut i: usize = 0;
    while i < solved.len()
        invariant
            i <= solved.len(),
            lookup_upto(solved@, Cell { row, col }, i as int) is None,
        decreases solved.len() - i,
    {
        if solved[i].cell.row == row && solved[i].cell.col == col {
            assert(lookup_upto(solved@, Cell { row, col }, i + 1) == Some(solved@[i as int].val));
            proof {
                lemma_lookup_found(solved@, Cell { row, col }, i + 1, solved@.len() as int);
            }
            return solved[i].val;
        }
        i = i + 1;
    }
    0
}

/// Once found, the first assignment of a cell stays the first.
proof fn lemma_lookup_found(s: Seq<SolvedCell>, c: Cell, k: int, m: int)
    requires
        0 <= k <= m,
        lookup_upto(s, c, k) is Some,
    ensures
        lookup_upto(s, c, m) == lookup_upto(s, c, k),
    decreases m - k,
{
    if m > k {
        lemma_lookup_found(s, c, k, m - 1);
    }
}

/// The board as text: one line per row, each cell as its digit right-aligned
/// in two characters (`0` where empty), cells separated by a space, lines
/// separated by CR LF.
pub fn to_string(solved: &SolvedCells) -> (r: String)
    ensures
        r@ == board_text(solved@),
{
    let mut rows: Vec<String> = Vec::new();
    let mut row: u8 = 0;
    while row < 9
        invariant
            row <= 9,
            rows.len() == row,
            forall|j: int| 0 <= j < row ==> #[trigger] rows@[j]@ == row_text(solved@, j),
        decreases 9 - row,
    {
        let mut cells: Vec<String> = Vec::new();
        let mut col: u8 = 0;
        while col < 9
            invariant
                row < 9,
                col <= 9,
                cells.len() == col,
                forall|j: int|
                    0 <= j < col ==> #[trigger] cells@[j]@ == padded2(
                        shown_value(solved@, Cell { row: row, col: j as u8 }) as nat,
                    ),
            decreases 9 - col,
        {
            let v = value_at(solved, row, col);
            cells.push(pad2(v));
            col = col + 1;
        }
        let line = join_parts(&cells, " ");
        proof {
            reveal_strlit(" ");
            assert(" "@ =~= seq![' ']);
            assert(cells@.map_values(|p: String| p@) =~= Seq::new(
                9,
                |c: int| padded2(shown_value(solved@, Cell { row: row as u8, col: c as u8 }) as nat),
            ));
        }
        assert(line@ == row_text(solved@, row as int));
        rows.push(line);
        assert(rows@[row as int]@ == row_text(solved@, row as int));
        row = row + 1;
    }
    let text = join_parts(&rows, "\r\n");
    proof {
        reveal_strlit("\r\n");
        assert("\r\n"@ =~= seq!['\r', '\n']);
        assert(rows@.map_values(|p: String| p@) =~= Seq::new(9, |r: int| row_text(solved@, r)));
    }
    text
}

/// Whether no two assignments to peer cells hold the same digit.
fn is_consistent(solved: &SolvedCells) -> (r: bool)
    requires
        cells_in_grid(solved@),
    ensures
        r == consistent(solved@),
{
    let mut j: usize = 0;
    while j < solved.len()
        invariant
            j <= solved.len(),
            cells_in_grid(solved@),
            forall|a: int, b: int|
                0 <= a < b < j && is_peer(#[trigger] solved@[a].cell, #[trigger] solved@[b].cell)
                    ==> solved@[a].val != solved@[b].val,
        decreases solved.len() - j,
    {
        let later = solved[j];
        assert(in_grid(solved@[j as int].cell));
        let mut i: usize = 0;
        while i < j
            invariant
                i <= j < solved.len(),
                later == solved@[j as int],
                in_grid(later.cell),
                cells_in_grid(solved@),
                forall|a: int, b: int|
                    0 <= a < b < j && is_peer(
                        #[trigger] solved@[a].cell,
                        #[trigger] solved@[b].cell,
                    ) ==> solved@[a].val != solved@[b].val,
                forall|a: int|
                    0 <= a < i && is_peer(#[trigger] solved@[a].cell, later.cell) ==> solved@[a].val
                        != later.val,
            decreases j - i,
        {
            let earlier = solved[i];
            assert(in_grid(solved@[i as int].cell));
            if (earlier.cell.row == later.cell.row || earlier.cell.col == later.cell.col
                || earlier.cell.block() == later.cell.block()) && earlier.val == later.val {
                assert(is_peer(solved@[i as int].cell, solved@[j as int].cell));
                return false;
            }
            i = i + 1;
        }
        j = j + 1;
    }
    true
}

/// The non-zero cells of a board as an assignment set, in row-major order.
pub fn clues_from_array(array: &[[u8; 9]; 9]) -> (r: SolvedCells)
    ensures
        r@ == clues(*array),
{
    let row_col = to_row_col();
    let mut solved: SolvedCells = Vec::new();
    let mut i: usize = 0;
    while i < row_col.len()
        invariant
            i <= row_col.len(),
            row_col@ == Seq::new(81, |i: int| ((i / 9) as u8, (i % 9) as u8)),
            solved@ == clues_upto(*array, i as int),
        decreases row_col.len() - i,
    {
        let (row, col) = row_col[i];
        let val = array[row as usize][col as usize];
        assert(val == grid_at(*array, i as int));
        if val != 0 {
            solved.push(SolvedCell { cell: Cell { row, col }, val });
        }
        i = i + 1;
    }
    solved
}

/// Solves a board given as rows of digits, `0` marking an empty cell.
/// A board with a digit above 9, or with a repeated digit among the clues of
/// a row, a column or a block, has no solution.
pub fn solve_from_array(array: &[[u8; 9]; 9]) -> (r: Option<SolvedCells>)
    ensures
        opt_view(r) == solve_board(*array),
{
    let solved = clues_from_array(array);
    proof {
        lemma_clues_upto(*array, 81);
    }
    let mut i: usize = 0;
    while i < solved.len()
        invariant
            i <= solved.len(),
            solved@ == clues(*array),
            forall|k: int| 0 <= k < i ==> #[trigger] solved@[k].val <= 9,
        decreases solved.len() - i,
    {
        if solved[i].val > 9 {
            proof {
                lemma_clues_upto(*array, 81);
                let q = clues_upto(*array, 81);
                assert(in_grid(q[i as int].cell));
                let c = solved@[i as int].cell;
                assert(solved@[i as int].val == grid_at(*array, scan_index(c)));
                lemma_scan(scan_index(c));
                assert(!(array[scan_index(c) / 9][scan_index(c) % 9] <= 9));
            }
            return None;
        }
        i = i + 1;
    }
    proof {
        assert forall|r: int, c: int| 0 <= r < 9 && 0 <= c < 9 implies #[trigger] array[r][c]
            <= 9 by {
            lemma_scan_cell(Cell { row: r as u8, col: c as u8 }, r * 9 + c);
            lemma_scan(r * 9 + c);
            if grid_at(*array, r * 9 + c) != 0 {
                let j = choose|j: int|
                    0 <= j < solved@.len() && #[trigger] solved@[j] == (SolvedCell {
                        cell: scan_cell(r * 9 + c),
                        val: grid_at(*array, r * 9 + c),
                    });
                assert(solved@[j].val <= 9);
            }
        }
    }
    if !is_consistent(&solved) {
        return None;
    }
    solve(&solved)
}

} // verus!
