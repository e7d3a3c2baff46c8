use vstd::prelude::*;

verus! {

/// A board of digits held as rows, `0` marking an empty cell.
#[derive(Debug, Clone, Copy)]
pub struct Sudoku {
    pub board: [[u8; 9]; 9],
}

/// The board as a sequence of rows.
pub open spec fn rows_of(b: [[u8; 9]; 9]) -> Seq<Seq<u8>> {
    Seq::new(9, |r: int| b[r]@)
}

/// The digit at scan position `i`.
pub open spec fn at(g: Seq<Seq<u8>>, i: int) -> u8 {
    g[i / 9][i % 9]
}

/// The board with the digit at scan position `i` replaced by `v`.
pub open spec fn put(g: Seq<Seq<u8>>, i: int, v: u8) -> Seq<Seq<u8>> {
    g.update(i / 9, g[i / 9].update(i % 9, v))
}

/// How many of the first `k` cells of the scan are empty.
pub open spec fn zeros_upto(g: Seq<Seq<u8>>, k: int) -> nat
    decreases k,
{
    if k <= 0 {
        0
    } else if at(g, k - 1) == 0 {
        zeros_upto(g, k - 1) + 1
    } else {
        zeros_upto(g, k - 1)
    }
}

/// How many cells of the board are empty.
pub open spec fn zeros(g: Seq<Seq<u8>>) -> nat {
    zeros_upto(g, 81)
}

/// The first empty scan position at or after `i`, or 81 if there is none.
pub open spec fn first_zero(g: Seq<Seq<u8>>, i: int) -> int
    decreases 81 - i,
{
    if i >= 81 || i < 0 {
        81
    } else if at(g, i) == 0 {
        i
    } else {
        first_zero(g, i + 1)
    }
}

/// `num` occurs nowhere in row `r`, column `c` or the block of that cell.
pub open spec fn fits(g: Seq<Seq<u8>>, r: int, c: int, num: u8) -> bool {
    &&& forall|i: int| 0 <= i < 9 ==> #[trigger] g[r][i] != num
    &&& forall|i: int| 0 <= i < 9 ==> #[trigger] g[i][c] != num
    &&& forall|i: int, j: int|
        0 <= i < 3 && 0 <= j < 3 ==> #[trigger] g[(r / 3) * 3 + i][(c / 3) * 3 + j] != num
}

/// The first completion found by filling the first empty cell with the
/// smallest digit that fits and backtracking on failure.
pub open spec fn fill(g: Seq<Seq<u8>>) -> Option<Seq<Seq<u8>>>
    decreases zeros(g), 10int,
{
    let z = first_zero(g, 0);
    if z >= 81 {
        Some(g)
    } else {
        try_digits(g, z, 1)
    }
}

/// The first completion found by trying the digits from `num` up at the
/// empty scan position `z`.
pub open spec fn try_digits(g: Seq<Seq<u8>>, z: int, num: int) -> Option<Seq<Seq<u8>>>
    decreases zeros(g), 10 - num,
{
    if num < 1 || num > 9 || z < 0 || z >= 81 || at(g, z) != 0 || g.len() != 9 || g[z / 9].len()
        != 9 {
        None
    } else if fits(g, z / 9, z % 9, num as u8) {
        proof {
            lemma_zeros_put(g, z, num as u8);
        }
        match fill(put(g, z, num as u8)) {
            Some(h) => Some(h),
            None => try_digits(g, z, num + 1),
        }
    } else {
        try_digits(g, z, num + 1)
    }
}

/// Scan positions name distinct cells.
pub proof fn lemma_scan_pos(i: int, z: int)
    requires
        0 <= i < 81,
        0 <= z < 81,
    ensures
        (i / 9 == z / 9 && i % 9 == z % 9) <==> i == z,
        0 <= i / 9 < 9,
        0 <= i % 9 < 9,
{
    assert(i == (i / 9) * 9 + i % 9 && z == (z / 9) * 9 + z % 9) by (nonlinear_arith)
        requires
            0 <= i,
            0 <= z,
    ;
}

/// Filling an empty cell leaves one fewer empty cell in the scan prefix.
pub proof fn lemma_zeros_upto_put(g: Seq<Seq<u8>>, z: int, v: u8, k: int)
    requires
        0 <= z < 81,
        0 <= k <= 81,
        g.len() == 9,
        g[z / 9].len() == 9,
        at(g, z) == 0,
        v != 0,
    ensures
        zeros_upto(put(g, z, v), k) + (if z < k {
            1int
        } else {
            0int
        }) == zeros_upto(g, k),
    decreases k,
{
    if k > 0 {
        lemma_zeros_upto_put(g, z, v, k - 1);
        lemma_scan_pos(k - 1, z);
    }
}

/// Filling an empty cell leaves one fewer empty cell on the board.
pub proof fn lemma_zeros_put(g: Seq<Seq<u8>>, z: int, v: u8)
    requires
        0 <= z < 81,
        g.len() == 9,
        g[z / 9].len() == 9,
        at(g, z) == 0,
        v != 0,
    ensures
        zeros(put(g, z, v)) + 1 == zeros(g),
{
    lemma_zeros_upto_put(g, z, v, 81);
}

impl Sudoku {
    /// A solver over the given board.
    pub fn new(board: [[u8; 9]; 9]) -> (r: Self)
        ensures
            r.board == board,
    {
        Sudoku { board }
    }

    /// Whether `num` occurs nowhere in row `row`, column `col` or their block.
    fn is_valid(&self, row: usize, col: usize, num: u8) -> (r: bool)
        requires
            row < 9,
            col < 9,
        ensures
            r == fits(rows_of(self.board), row as int, col as int, num),
    {
        let ghost g = rows_of(self.board);
        let mut i: usize = 0;
        while i < 9
            invariant
                row < 9,
                col < 9,
                g == rows_of(self.board),
                i <= 9,
                forall|k: int| 0 <= k < i ==> #[trigger] g[row as int][k] != num,
                forall|k: int| 0 <= k < i ==> #[trigger] g[k][col as int] != num,
            decreases 9 - i,
        {
            if self.board[row][i] == num || self.board[i][col] == num {
                assert(g[row as int][i as int] == num || g[i as int][col as int] == num);
                return false;
            }
            i = i + 1;
        }
        let box_row = row / 3;
        let box_col = col / 3;
        let mut i: usize = 0;
        while i < 3
            invariant
                row < 9,
                col < 9,
                box_row == row / 3,
                box_col == col / 3,
                g == rows_of(self.board),
                i <= 3,
                forall|a: int, b: int|
                    0 <= a < i && 0 <= b < 3 ==> #[trigger] g[(row / 3) * 3 + a][(col / 3) * 3 + b]
                        != num,
            decreases 3 - i,
        {
            let mut j: usize = 0;
            while j < 3
                invariant
                    row < 9,
                    col < 9,
                    box_row == row / 3,
                    box_col == col / 3,
                    g == rows_of(self.board),
                    i < 3,
                    j <= 3,
                    forall|a: int, b: int|
                        0 <= a < i && 0 <= b < 3 ==> #[trigger] g[(row / 3) * 3 + a][(col / 3) * 3
                            + b] != num,
                    forall|b: int| 0 <= b < j ==> #[trigger] g[(row / 3) * 3 + i][(col / 3) * 3 + b] != num,
                decreases 3 - j,
            {
                if self.board[box_row * 3 + i][box_col * 3 + j] == num {
                    assert(g[(row / 3) * 3 + i][(col / 3) * 3 + j] == num);
                    return false;
                }
                j = j + 1;
            }
            i = i + 1;
        }
        true
    }

    /// Fills every empty cell, trying at the first empty cell in row-major
    /// order each digit that fits, smallest first, and backtracking when the
    /// rest cannot be filled. Returns whether a completion was found; when
    /// none is, the board is left as it was.
    pub fn solve(&mut self) -> (r: bool)
        ensures
            r == fill(rows_of(old(self).board)) is Some,
            r ==> rows_of(final(self).board) == fill(rows_of(old(self).board))->0,
            !r ==> rows_of(final(self).board) == rows_of(old(self).board),
        decreases zeros(rows_of(self.board)),
    {
        let ghost g0 = rows_of(self.board);
        let mut row: usize = 0;
        while row < 9
            invariant
                row <= 9,
                g0 == rows_of(old(self).board),
                rows_of(self.board) == g0,
                first_zero(g0, 0) == first_zero(g0, row * 9),
            decreases 9 - row,
        {
            let mut col: usize = 0;
            while col < 9
                invariant
                    row < 9,
                    col <= 9,
                    g0 == rows_of(old(self).board),
                    rows_of(self.board) == g0,
                    first_zero(g0, 0) == first_zero(g0, row * 9 + col),
                decreases 9 - col,
            {
                let ghost z = row * 9 + col;
                proof {
                    lemma_pos(row as int, col as int);
                }
                if self.board[row][col] == 0 {
                    assert(at(g0, z) == 0);
                    let mut num: u8 = 1;
                    while num <= 9
                        invariant
                            1 <= num <= 10,
                            row < 9,
                            col < 9,
                            z == row * 9 + col,
                            z / 9 == row,
                            z % 9 == col,
                            at(g0, z) == 0,
                            g0 == rows_of(old(self).board),
                            rows_of(self.board) == g0,
                            fill(g0) == try_digits(g0, z, 1),
                            try_digits(g0, z, 1) == try_digits(g0, z, num as int),
                        decreases 10 - num,
                    {
                        if self.is_valid(row, col, num) {
                            self.board[row][col] = num;
                            assert(rows_of(self.board) =~~= put(g0, z, num));
                            proof {
                                lemma_zeros_put(g0, z, num);
                            }
                            if self.solve() {
                                return true;
                            }
                            let ghost mid = rows_of(self.board);
                            assert(mid == put(g0, z, num));
                            assert(mid[row as int][col as int] == num);
                            let ghost before = self.board;
                            self.board[row][col] = 0;
                            assert(self.board[row as int]@ =~= g0[row as int]);
                            assert forall|r: int| 0 <= r < 9 && r != row implies #[trigger] self.board[r]@
                                == g0[r] by {
                                assert(self.board[r] == before[r]);
                                assert(before[r]@ == mid[r]);
                            }
                            assert(rows_of(self.board) =~~= g0);
                        }
                        num = num + 1;
                    }
                    return false;
                }
                assert(at(g0, z) != 0);
                col = col + 1;
            }
            row = row + 1;
        }
        true
    }
}

/// No cell of the board is empty.
pub open spec fn full(h: Seq<Seq<u8>>) -> bool {
    forall|i: int| 0 <= i < 81 ==> #[trigger] at(h, i) != 0
}

/// `h` keeps every non-empty cell of `g`.
pub open spec fn keeps(g: Seq<Seq<u8>>, h: Seq<Seq<u8>>) -> bool {
    forall|i: int| 0 <= i < 81 && #[trigger] at(g, i) != 0 ==> at(h, i) == at(g, i)
}

/// With no empty cell from `i` on, the scan finds none.
proof fn lemma_first_zero_none(g: Seq<Seq<u8>>, i: int)
    requires
        0 <= i <= 81,
        first_zero(g, i) >= 81,
    ensures
        forall|j: int| i <= j < 81 ==> #[trigger] at(g, j) != 0,
    decreases 81 - i,
{
    if i < 81 {
        lemma_first_zero_none(g, i + 1);
    }
}

/// Filling a cell changes that cell alone.
proof fn lemma_at_put(g: Seq<Seq<u8>>, z: int, v: u8, i: int)
    requires
        0 <= z < 81,
        0 <= i < 81,
        g.len() == 9,
        g[z / 9].len() == 9,
    ensures
        at(put(g, z, v), i) == if i == z {
            v
        } else {
            at(g, i)
        },
{
    lemma_scan_pos(i, z);
}

/// A completion found by backtracking fills every cell and keeps the
/// non-empty cells of the board it started from.
pub proof fn lemma_fill_sound(g: Seq<Seq<u8>>)
    ensures
        fill(g) is Some ==> full(fill(g)->0) && keeps(g, fill(g)->0),
    decreases zeros(g), 10int,
{
    let z = first_zero(g, 0);
    if z >= 81 {
        lemma_first_zero_none(g, 0);
    } else {
        lemma_try_digits_sound(g, z, 1);
    }
}

/// A completion found from the digits at `z` fills every cell and keeps the
/// non-empty cells of the board it started from.
pub proof fn lemma_try_digits_sound(g: Seq<Seq<u8>>, z: int, num: int)
    ensures
        try_digits(g, z, num) is Some ==> full(try_digits(g, z, num)->0) && keeps(
            g,
            try_digits(g, z, num)->0,
        ),
    decreases zeros(g), 10 - num,
{
    if !(num < 1 || num > 9 || z < 0 || z >= 81 || at(g, z) != 0 || g.len() != 9 || g[z / 9].len()
        != 9) {
        if fits(g, z / 9, z % 9, num as u8) {
            let g2 = put(g, z, num as u8);
            lemma_zeros_put(g, z, num as u8);
            lemma_fill_sound(g2);
            if fill(g2) is Some {
                let h = fill(g2)->0;
                assert forall|i: int| 0 <= i < 81 && #[trigger] at(g, i) != 0 implies at(h, i) == at(
                    g,
                    i,
                ) by {
                    lemma_at_put(g, z, num as u8, i);
                }
            } else {
                lemma_try_digits_sound(g, z, num + 1);
            }
        } else {
            lemma_try_digits_sound(g, z, num + 1);
        }
    }
}

/// Scan positions `i` and `j` share a row, a column or a block.
pub open spec fn pos_peer(i: int, j: int) -> bool {
    i / 9 == j / 9 || i % 9 == j % 9 || ((i / 9) / 3 == (j / 9) / 3 && (i % 9) / 3 == (j % 9) / 3)
}

/// No digit occurs twice in a row, a column or a block.
pub open spec fn no_repeats(g: Seq<Seq<u8>>) -> bool {
    forall|i: int, j: int|
        0 <= i < 81 && 0 <= j < 81 && i != j && pos_peer(i, j) && #[trigger] at(g, i) != 0 ==> at(g, i)
            != #[trigger] at(g, j)
}

/// A digit that fits at an empty cell differs from the digit of every peer.
proof fn lemma_fits_peer(g: Seq<Seq<u8>>, z: int, num: u8, j: int)
    requires
        0 <= z < 81,
        0 <= j < 81,
        pos_peer(z, j),
        fits(g, z / 9, z % 9, num),
    ensures
        at(g, j) != num,
{
    let r = z / 9;
    let c = z % 9;
    if r == j / 9 {
        assert(g[r][j % 9] != num);
    } else if c == j % 9 {
        assert(g[j / 9][c] != num);
    } else {
        let a = j / 9 - (r / 3) * 3;
        let b = j % 9 - (c / 3) * 3;
        assert(0 <= a < 3 && 0 <= b < 3);
        assert(g[(r / 3) * 3 + a][(c / 3) * 3 + b] != num);
    }
}

/// Backtracking from a board without repeated digits reaches one without.
pub proof fn lemma_fill_no_repeats(g: Seq<Seq<u8>>)
    requires
        no_repeats(g),
    ensures
        fill(g) is Some ==> no_repeats(fill(g)->0),
    decreases zeros(g), 10int,
{
    let z = first_zero(g, 0);
    if z < 81 {
        lemma_try_digits_no_repeats(g, z, 1);
    }
}

/// Backtracking from the digits at `z` on a board without repeated digits
/// reaches one without.
pub proof fn lemma_try_digits_no_repeats(g: Seq<Seq<u8>>, z: int, num: int)
    requires
        no_repeats(g),
    ensures
        try_digits(g, z, num) is Some ==> no_repeats(try_digits(g, z, num)->0),
    decreases zeros(g), 10 - num,
{
    if !(num < 1 || num > 9 || z < 0 || z >= 81 || at(g, z) != 0 || g.len() != 9 || g[z / 9].len()
        != 9) {
        if fits(g, z / 9, z % 9, num as u8) {
            let v = num as u8;
            let g2 = put(g, z, v);
            lemma_zeros_put(g, z, v);
            assert forall|i: int, j: int|
                0 <= i < 81 && 0 <= j < 81 && i != j && pos_peer(i, j) && #[trigger] at(g2, i) != 0
                    implies at(g2, i) != #[trigger] at(g2, j) by {
                lemma_at_put(g, z, v, i);
                lemma_at_put(g, z, v, j);
                if i == z {
                    lemma_fits_peer(g, z, v, j);
                } else if j == z {
                    assert(pos_peer(j, i));
                    lemma_fits_peer(g, z, v, i);
                } else {
                    assert(at(g, i) != 0);
                }
            }
            lemma_fill_no_repeats(g2);
            if fill(g2) is None {
                lemma_try_digits_no_repeats(g, z, num + 1);
            }
        } else {
            lemma_try_digits_no_repeats(g, z, num + 1);
        }
    }
}

/// A board solved by backtracking has no empty cell left and keeps every
/// digit it was given.
pub proof fn law_backtracking_keeps_clues(b: [[u8; 9]; 9])
    ensures
        fill(rows_of(b)) is Some ==> full(fill(rows_of(b))->0) && keeps(
            rows_of(b),
            fill(rows_of(b))->0,
        ),
{
    lemma_fill_sound(rows_of(b));
}

/// A board without repeated digits, solved by backtracking, still has no
/// digit twice in a row, a column or a block.
pub proof fn law_backtracking_is_valid(b: [[u8; 9]; 9])
    requires
        no_repeats(rows_of(b)),
    ensures
        fill(rows_of(b)) is Some ==> no_repeats(fill(rows_of(b))->0),
{
    lemma_fill_no_repeats(rows_of(b));
}

/// Scan position of a row and column.
pub proof fn lemma_pos(row: int, col: int)
    requires
        0 <= row < 9,
        0 <= col < 9,
    ensures
        (row * 9 + col) / 9 == row,
        (row * 9 + col) % 9 == col,
{
    assert((row * 9 + col) / 9 == row && (row * 9 + col) % 9 == col) by (nonlinear_arith)
        requires
            0 <= row < 9,
            0 <= col < 9,
    ;
}

} // verus!
