use vstd::prelude::*;

use crate::model::{
    assigned, candidates, cells_in_grid, clues, consistent, empties, empties_upto, excluded, extend,
    fewest_upto, grid_at, in_grid, is_peer, lemma_candidates_upto, lemma_clues_upto,
    lemma_empties_extend, lemma_empties_upto, lemma_fewest_upto, lemma_scan, lemma_scan_cell,
    scan_cell, scan_index, search, solve_board, successes, valid_puzzle,
};
use crate::sudoku::{Cell, SolvedCell};

verus! {

/// `t` starts with the assignments of `s`, in the same order.
pub open spec fn extends(s: Seq<SolvedCell>, t: Seq<SolvedCell>) -> bool {
    s.len() <= t.len() && forall|i: int| 0 <= i < s.len() ==> #[trigger] t[i] == s[i]
}

/// No cell is assigned twice.
pub open spec fn distinct_cells(s: Seq<SolvedCell>) -> bool {
    forall|i: int, j: int| 0 <= i < j < s.len() ==> #[trigger] s[i].cell != #[trigger] s[j].cell
}

/// Every assigned digit lies in `1..=9`.
pub open spec fn digits_ok(s: Seq<SolvedCell>) -> bool {
    forall|i: int| 0 <= i < s.len() ==> 1 <= #[trigger] s[i].val <= 9
}

/// A partial board that breaks no rule.
pub open spec fn sound_partial(s: Seq<SolvedCell>) -> bool {
    cells_in_grid(s) && distinct_cells(s) && digits_ok(s) && consistent(s)
}

/// Every cell of the board is assigned.
pub open spec fn complete(s: Seq<SolvedCell>) -> bool {
    forall|c: Cell| in_grid(c) ==> #[trigger] assigned(s, c)
}

/// A solved board: each of the 81 cells holds exactly one digit in `1..=9`,
/// and no digit occurs twice in a row, a column or a block.
pub open spec fn solved_grid(s: Seq<SolvedCell>) -> bool {
    sound_partial(s) && complete(s)
}

/// With no empty cell left, every cell is assigned.
proof fn lemma_no_empties(s: Seq<SolvedCell>, k: int)
    requires
        0 <= k <= 81,
        empties_upto(s, k).len() == 0,
    ensures
        forall|j: int| 0 <= j < k ==> assigned(s, #[trigger] scan_cell(j)),
    decreases k,
{
    if k > 0 {
        if !assigned(s, scan_cell(k - 1)) {
            assert(empties_upto(s, k).len() == empties_upto(s, k - 1).len() + 1);
        }
        lemma_no_empties(s, k - 1);
    }
}

/// A search that succeeds keeps the assignments it started from, and from a
/// partial board that breaks no rule it reaches a solved board.
pub proof fn lemma_search_sound(s: Seq<SolvedCell>)
    ensures
        search(s) is Some ==> extends(s, search(s)->0) && (sound_partial(s) ==> solved_grid(
            search(s)->0,
        )),
    decreases empties(s).len(), 10int,
{
    let es = empties(s);
    if es.len() == 0 {
        lemma_no_empties(s, 81);
        assert forall|c: Cell| in_grid(c) implies #[trigger] assigned(s, c) by {
            lemma_scan_cell(c, scan_index(c));
            assert(scan_cell(scan_index(c)) == c);
        }
    } else {
        let c = es[fewest_upto(s, es, es.len() as int)];
        let cs = candidates(s, c);
        lemma_candidates_upto(s, c, 9);
        lemma_fewest_upto(s, es, es.len() as int);
        lemma_successes_sound(s, c, cs, cs.len() as int);
        let found = successes(s, c, cs, cs.len() as int);
        if found.len() == 1 {
            assert(extends(s, found[0]));
        }
    }
}

/// Each successful branch keeps the assignments it started from, and from a
/// partial board that breaks no rule reaches a solved board.
pub proof fn lemma_successes_sound(s: Seq<SolvedCell>, c: Cell, cs: Seq<u8>, k: int)
    requires
        cs == candidates(s, c),
    ensures
        forall|j: int|
            0 <= j < successes(s, c, cs, k).len() ==> extends(
                s,
                #[trigger] successes(s, c, cs, k)[j],
            ) && (sound_partial(s) ==> solved_grid(successes(s, c, cs, k)[j])),
    decreases empties(s).len(), k,
{
    if !(k <= 0 || k > cs.len() || !in_grid(c) || assigned(s, c)) {
        lemma_successes_sound(s, c, cs, k - 1);
        let v = cs[k - 1];
        let s2 = extend(s, c, v);
        lemma_empties_extend(s, c, v);
        lemma_search_sound(s2);
        lemma_candidates_upto(s, c, 9);
        let prev = successes(s, c, cs, k - 1);
        let found = successes(s, c, cs, k);
        if search(s2) is Some {
            let t = search(s2)->0;
            assert(extends(s, t)) by {
                assert forall|i: int| 0 <= i < s.len() implies #[trigger] t[i] == s[i] by {
                    assert(s2[i] == s[i]);
                }
            }
            if sound_partial(s) {
                lemma_extend_sound(s, c, v);
            }
            assert forall|j: int| 0 <= j < found.len() implies extends(s, #[trigger] found[j]) && (
            sound_partial(s) ==> solved_grid(found[j])) by {
                if j < prev.len() {
                    assert(found[j] == prev[j]);
                }
            }
        }
    }
}

/// Fixing an empty on-board cell to a digit that no peer holds keeps a
/// partial board free of broken rules.
pub proof fn lemma_extend_sound(s: Seq<SolvedCell>, c: Cell, v: u8)
    requires
        sound_partial(s),
        in_grid(c),
        !assigned(s, c),
        1 <= v <= 9,
        !excluded(s, c, v as int),
    ensures
        sound_partial(extend(s, c, v)),
{
    let s2 = extend(s, c, v);
    assert(distinct_cells(s2)) by {
        assert forall|i: int, j: int| 0 <= i < j < s2.len() implies #[trigger] s2[i].cell
            != #[trigger] s2[j].cell by {
            if j == s.len() {
                assert(s2[i] == s[i]);
            } else {
                assert(s2[i] == s[i] && s2[j] == s[j]);
            }
        }
    }
    assert(consistent(s2)) by {
        assert forall|i: int, j: int|
            0 <= i < j < s2.len() && is_peer(
                #[trigger] s2[i].cell,
                #[trigger] s2[j].cell,
            ) implies s2[i].val != s2[j].val by {
            if j == s.len() {
                assert(s2[i] == s[i]);
            } else {
                assert(s2[i] == s[i] && s2[j] == s[j]);
            }
        }
    }
    assert(cells_in_grid(s2)) by {
        assert forall|i: int| 0 <= i < s2.len() implies in_grid(#[trigger] s2[i].cell) by {
            if i < s.len() {
                assert(s2[i] == s[i]);
            }
        }
    }
    assert(digits_ok(s2)) by {
        assert forall|i: int| 0 <= i < s2.len() implies 1 <= #[trigger] s2[i].val <= 9 by {
            if i < s.len() {
                assert(s2[i] == s[i]);
            }
        }
    }
}

/// The clues of a well-formed puzzle form a partial board that breaks no rule.
pub proof fn lemma_clues_sound(g: [[u8; 9]; 9])
    requires
        valid_puzzle(g),
    ensures
        sound_partial(clues(g)),
{
    let s = clues(g);
    lemma_clues_upto(g, 81);
    assert(distinct_cells(s));
    assert forall|i: int| 0 <= i < s.len() implies 1 <= #[trigger] s[i].val <= 9 by {
        lemma_scan(scan_index(s[i].cell));
        let r = scan_index(s[i].cell) / 9;
        let c = scan_index(s[i].cell) % 9;
        assert(g[r][c] <= 9);
    }
}

/// Every board that is solved comes back as a solved board: each cell holds
/// one digit in `1..=9`, with no digit twice in a row, a column or a block.
pub proof fn law_solution_is_valid(g: [[u8; 9]; 9])
    ensures
        solve_board(g) is Some ==> solved_grid(solve_board(g)->0),
{
    if valid_puzzle(g) {
        lemma_clues_sound(g);
        lemma_search_sound(clues(g));
    }
}

/// Every clue of a board that is solved keeps its digit in the solution.
pub proof fn law_clues_kept(g: [[u8; 9]; 9])
    ensures
        solve_board(g) is Some ==> forall|r: int, c: int|
            0 <= r < 9 && 0 <= c < 9 && g[r][c] != 0 ==> exists|j: int|
                0 <= j < (solve_board(g)->0).len() && #[trigger] (solve_board(g)->0)[j] == (
                SolvedCell { cell: Cell { row: r as u8, col: c as u8 }, val: g[r][c] }),
{
    if valid_puzzle(g) && search(clues(g)) is Some {
        let s = clues(g);
        let t = search(s)->0;
        lemma_clues_upto(g, 81);
        lemma_search_sound(s);
        assert forall|r: int, c: int| 0 <= r < 9 && 0 <= c < 9 && g[r][c] != 0 implies exists|j: int|
            0 <= j < t.len() && #[trigger] t[j] == (SolvedCell {
                cell: Cell { row: r as u8, col: c as u8 },
                val: g[r][c],
            }) by {
            let cell = Cell { row: r as u8, col: c as u8 };
            lemma_scan_cell(cell, r * 9 + c);
            lemma_scan(r * 9 + c);
            assert(grid_at(g, r * 9 + c) == g[r][c]);
            let j = choose|j: int|
                0 <= j < s.len() && #[trigger] s[j] == (SolvedCell {
                    cell: scan_cell(r * 9 + c),
                    val: grid_at(g, r * 9 + c),
                });
            assert(t[j] == s[j]);
        }
    }
}

/// The search runs at most 81 levels deep: no board has more than 81 empty
/// cells, and each branch fixes one of them.
pub proof fn law_search_depth(s: Seq<SolvedCell>)
    ensures
        empties(s).len() <= 81,
        forall|c: Cell, v: u8|
            in_grid(c) && !assigned(s, c) ==> #[trigger] empties(extend(s, c, v)).len() + 1
                == empties(s).len(),
{
    lemma_empties_upto(s, 81);
    assert forall|c: Cell, v: u8| in_grid(c) && !assigned(s, c) implies #[trigger] empties(
        extend(s, c, v),
    ).len() + 1 == empties(s).len() by {
        lemma_empties_extend(s, c, v);
    }
}

/// Solving the same board twice gives the same outcome.
pub proof fn law_deterministic(g1: [[u8; 9]; 9], g2: [[u8; 9]; 9])
    requires
        g1 == g2,
    ensures
        solve_board(g1) == solve_board(g2),
{
}

} // verus!
