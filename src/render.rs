use vstd::prelude::*;

use crate::sudoku::{Cell, SolvedCell};

verus! {

/// The character of a decimal digit.
pub open spec fn digit_char(d: nat) -> char {
    ((d + 48) as u8) as char
}

/// The decimal digits of `v`, most significant first.
pub open spec fn decimal(v: nat) -> Seq<char>
    decreases v,
{
    if v < 10 {
        seq![digit_char(v)]
    } else {
        decimal(v / 10).push(digit_char(v % 10))
    }
}

/// `v` in decimal, right-aligned in a field of two characters.
pub open spec fn padded2(v: nat) -> Seq<char> {
    if decimal(v).len() < 2 {
        seq![' '] + decimal(v)
    } else {
        decimal(v)
    }
}

/// The parts in order, with `sep` between each two.
pub open spec fn joined(parts: Seq<Seq<char>>, sep: Seq<char>) -> Seq<char>
    decreases parts.len(),
{
    if parts.len() == 0 {
        seq![]
    } else if parts.len() == 1 {
        parts[0]
    } else {
        joined(parts.drop_last(), sep) + sep + parts.last()
    }
}

/// The digit of the first assignment among `s[0..k]` that names cell `c`.
pub open spec fn lookup_upto(s: Seq<SolvedCell>, c: Cell, k: int) -> Option<u8>
    decreases k,
{
    if k <= 0 {
        None
    } else {
        match lookup_upto(s, c, k - 1) {
            Some(v) => Some(v),
            None => if s[k - 1].cell == c {
                Some(s[k - 1].val)
            } else {
                None
            },
        }
    }
}

/// The digit shown at a cell: that of its first assignment, or `0`.
pub open spec fn shown_value(s: Seq<SolvedCell>, c: Cell) -> u8 {
    match lookup_upto(s, c, s.len() as int) {
        Some(v) => v,
        None => 0,
    }
}

/// One line of the rendering: the nine cells of row `r`, space-separated.
pub open spec fn row_text(s: Seq<SolvedCell>, r: int) -> Seq<char> {
    joined(
        Seq::new(9, |c: int| padded2(shown_value(s, Cell { row: r as u8, col: c as u8 }) as nat)),
        seq![' '],
    )
}

/// The whole board, one line per row, lines separated by CR LF.
pub open spec fn board_text(s: Seq<SolvedCell>) -> Seq<char> {
    joined(Seq::new(9, |r: int| row_text(s, r)), seq!['\r', '\n'])
}

} // verus!
