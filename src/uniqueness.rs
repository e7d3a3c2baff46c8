use vstd::prelude::*;

use crate::laws::{
    complete, lemma_clues_sound, lemma_extend_sound, lemma_search_sound, sound_partial,
};
use crate::model::{
    assigned, candidates, candidates_upto, clues, empties, excluded, extend, fewest_upto, grid_at,
    in_grid, is_peer, lemma_candidates_upto, lemma_clues_upto, lemma_empties_extend,
    lemma_empties_upto, lemma_fewest_upto, lemma_scan, lemma_scan_cell, scan_cell, scan_index,
    search, solve_board, successes, valid_puzzle,
};
use crate::sudoku::{Cell, SolvedCell};

verus! {

/// A full board: each on-board cell holds a digit in `1..=9`, and two
/// distinct peer cells never hold the same digit.
pub open spec fn valid_board(f: spec_fn(Cell) -> u8) -> bool {
    &&& forall|c: Cell| in_grid(c) ==> 1 <= #[trigger] f(c) <= 9
    &&& forall|a: Cell, b: Cell|
        in_grid(a) && in_grid(b) && a != b && is_peer(a, b) ==> #[trigger] f(a) != #[trigger] f(b)
}

/// `f` is a full board that keeps every assignment of `s`.
pub open spec fn completes(s: Seq<SolvedCell>, f: spec_fn(Cell) -> u8) -> bool {
    valid_board(f) && forall|i: int| 0 <= i < s.len() ==> f(#[trigger] s[i].cell) == s[i].val
}

/// Two full boards hold the same digit in every cell.
pub open spec fn same_board(f: spec_fn(Cell) -> u8, g: spec_fn(Cell) -> u8) -> bool {
    forall|c: Cell| in_grid(c) ==> #[trigger] f(c) == g(c)
}

/// The board read off a solved assignment set.
pub open spec fn board_of(t: Seq<SolvedCell>) -> spec_fn(Cell) -> u8 {
    |c: Cell| t[choose|i: int| 0 <= i < t.len() && t[i].cell == c].val
}

/// A successful search from a partial board that breaks no rule yields a
/// completion of that board.
pub proof fn lemma_found_completes(s: Seq<SolvedCell>)
    requires
        sound_partial(s),
        search(s) is Some,
    ensures
        completes(s, board_of(search(s)->0)),
{
    lemma_search_sound(s);
    let t = search(s)->0;
    let f = board_of(t);
    assert forall|c: Cell| in_grid(c) implies 1 <= #[trigger] f(c) <= 9
        && t[choose|i: int| 0 <= i < t.len() && t[i].cell == c].cell == c by {
        assert(assigned(t, c));
        let i = choose|i: int| 0 <= i < t.len() && t[i].cell == c;
        assert(1 <= t[i].val <= 9);
    }
    assert forall|a: Cell, b: Cell|
        in_grid(a) && in_grid(b) && a != b && is_peer(a, b) implies #[trigger] f(a) != #[trigger] f(
        b,
    ) by {
        assert(assigned(t, a) && assigned(t, b));
        let i = choose|i: int| 0 <= i < t.len() && t[i].cell == a;
        let j = choose|j: int| 0 <= j < t.len() && t[j].cell == b;
        assert(t[i].cell == a && t[j].cell == b);
        if i < j {
            assert(is_peer(t[i].cell, t[j].cell));
        } else {
            assert(is_peer(b, a));
            assert(is_peer(t[j].cell, t[i].cell));
        }
    }
    assert forall|k: int| 0 <= k < s.len() implies f(#[trigger] s[k].cell) == s[k].val by {
        assert(t[k] == s[k]);
        assert(assigned(t, s[k].cell));
        let i = choose|i: int| 0 <= i < t.len() && t[i].cell == s[k].cell;
        if i != k {
            if i < k {
                assert(t[i].cell != t[k].cell);
            } else {
                assert(t[k].cell != t[i].cell);
            }
        }
    }
}

/// The completions of a board with one more digit are those of the board
/// that hold that digit there.
pub proof fn lemma_completes_extend(s: Seq<SolvedCell>, c: Cell, v: u8, f: spec_fn(Cell) -> u8)
    ensures
        completes(extend(s, c, v), f) <==> completes(s, f) && f(c) == v,
{
    let s2 = extend(s, c, v);
    if completes(s2, f) {
        assert(s2[s.len() as int].cell == c);
        assert forall|i: int| 0 <= i < s.len() implies f(#[trigger] s[i].cell) == s[i].val by {
            assert(s2[i] == s[i]);
        }
    }
    if completes(s, f) && f(c) == v {
        assert forall|i: int| 0 <= i < s2.len() implies f(#[trigger] s2[i].cell) == s2[i].val by {
            if i < s.len() {
                assert(s2[i] == s[i]);
            }
        }
    }
}

/// The candidate list is strictly increasing and holds every digit up to `k`
/// that no peer holds.
pub proof fn lemma_candidates_all(s: Seq<SolvedCell>, c: Cell, k: int)
    requires
        0 <= k <= 9,
    ensures
        forall|a: int, b: int|
            0 <= a < b < candidates_upto(s, c, k).len() ==> #[trigger] candidates_upto(s, c, k)[a]
                < #[trigger] candidates_upto(s, c, k)[b],
        forall|d: int|
            1 <= d <= k && !excluded(s, c, d) ==> exists|j: int|
                0 <= j < candidates_upto(s, c, k).len() && #[trigger] candidates_upto(s, c, k)[j]
                    == d,
    decreases k,
{
    if k > 0 {
        lemma_candidates_all(s, c, k - 1);
        lemma_candidates_upto(s, c, k - 1);
        let p = candidates_upto(s, c, k - 1);
        let q = candidates_upto(s, c, k);
        assert forall|a: int, b: int| 0 <= a < b < q.len() implies #[trigger] q[a] < #[trigger] q[b] by {
            assert(q[a] == p[a]);
            if b < p.len() {
                assert(q[b] == p[b]);
            }
        }
        assert forall|d: int| 1 <= d <= k && !excluded(s, c, d) implies exists|j: int|
            0 <= j < q.len() && #[trigger] q[j] == d by {
            if d < k {
                let j = choose|j: int| 0 <= j < p.len() && #[trigger] p[j] == d;
                assert(q[j] == p[j]);
            } else {
                assert(q[p.len() as int] == d);
            }
        }
    }
}

/// How many branches succeed, read off the outcomes of the single branches.
pub proof fn lemma_successes_count(s: Seq<SolvedCell>, c: Cell, cs: Seq<u8>, k: int)
    requires
        0 <= k <= cs.len(),
        in_grid(c),
        !assigned(s, c),
    ensures
        successes(s, c, cs, k).len() <= k,
        (forall|j: int| 0 <= j < k ==> #[trigger] search(extend(s, c, cs[j])) is None) ==> successes(
            s,
            c,
            cs,
            k,
        ).len() == 0,
        forall|j0: int|
            0 <= j0 < k && #[trigger] search(extend(s, c, cs[j0])) is Some && (forall|j: int|
                0 <= j < k && j != j0 ==> #[trigger] search(extend(s, c, cs[j])) is None)
                ==> successes(s, c, cs, k).len() == 1,
        forall|j1: int, j2: int|
            0 <= j1 < j2 < k && #[trigger] search(extend(s, c, cs[j1])) is Some && #[trigger] search(
                extend(s, c, cs[j2]),
            ) is Some ==> successes(s, c, cs, k).len() >= 2,
    decreases k,
{
    if k > 0 {
        lemma_successes_count(s, c, cs, k - 1);
        lemma_empties_extend(s, c, cs[k - 1]);
        assert forall|j1: int, j2: int|
            0 <= j1 < j2 < k && #[trigger] search(extend(s, c, cs[j1])) is Some && #[trigger] search(
                extend(s, c, cs[j2]),
            ) is Some implies successes(s, c, cs, k).len() >= 2 by {
            if j2 < k - 1 {
            } else {
                assert(search(extend(s, c, cs[j1])) is Some);
            }
        }
        assert forall|j0: int|
            0 <= j0 < k && #[trigger] search(extend(s, c, cs[j0])) is Some && (forall|j: int|
                0 <= j < k && j != j0 ==> #[trigger] search(extend(s, c, cs[j])) is None) implies successes(
            s,
            c,
            cs,
            k,
        ).len() == 1 by {
            if j0 < k - 1 {
                assert(search(extend(s, c, cs[k - 1])) is None);
            } else {
                assert forall|j: int| 0 <= j < k - 1 implies #[trigger] search(
                    extend(s, c, cs[j]),
                ) is None by {
                    assert(j != j0);
                }
            }
        }
    }
}

/// A partial board with no completion is not solved.
pub proof fn lemma_no_completion(s: Seq<SolvedCell>)
    requires
        sound_partial(s),
        forall|g: spec_fn(Cell) -> u8| !completes(s, g),
    ensures
        search(s) is None,
{
    if search(s) is Some {
        lemma_found_completes(s);
    }
}

/// On a full assignment set, two completions are the same board.
proof fn lemma_full_same(s: Seq<SolvedCell>, f1: spec_fn(Cell) -> u8, f2: spec_fn(Cell) -> u8)
    requires
        complete(s),
        completes(s, f1),
        completes(s, f2),
    ensures
        same_board(f1, f2),
{
    assert forall|c: Cell| in_grid(c) implies #[trigger] f1(c) == f2(c) by {
        assert(assigned(s, c));
        let i = choose|i: int| 0 <= i < s.len() && #[trigger] s[i].cell == c;
        assert(f1(s[i].cell) == s[i].val && f2(s[i].cell) == s[i].val);
    }
}

/// The branch cell chosen by the search, with the facts the proofs need.
proof fn lemma_branch(s: Seq<SolvedCell>) -> (c: Cell)
    requires
        empties(s).len() > 0,
    ensures
        c == empties(s)[fewest_upto(s, empties(s), empties(s).len() as int)],
        in_grid(c),
        !assigned(s, c),
{
    let es = empties(s);
    lemma_empties_upto(s, 81);
    lemma_fewest_upto(s, es, es.len() as int);
    es[fewest_upto(s, es, es.len() as int)]
}

/// Where `f` completes `s`, the digit of `f` at an empty cell is among its candidates.
proof fn lemma_digit_is_candidate(s: Seq<SolvedCell>, c: Cell, f: spec_fn(Cell) -> u8) -> (j: int)
    requires
        sound_partial(s),
        completes(s, f),
        in_grid(c),
        !assigned(s, c),
    ensures
        0 <= j < candidates(s, c).len(),
        candidates(s, c)[j] == f(c),
{
    assert(!excluded(s, c, f(c) as int)) by {
        if excluded(s, c, f(c) as int) {
            let i = choose|i: int|
                0 <= i < s.len() && is_peer(#[trigger] s[i].cell, c) && s[i].val == f(c);
            assert(in_grid(s[i].cell));
            assert(s[i].cell != c);
            assert(f(s[i].cell) == s[i].val);
        }
    }
    lemma_candidates_all(s, c, 9);
    choose|j: int| 0 <= j < candidates(s, c).len() && #[trigger] candidates(s, c)[j] == f(c)
}

/// A partial board that breaks no rule and has exactly one completion is
/// solved.
pub proof fn lemma_unique_found(s: Seq<SolvedCell>, f: spec_fn(Cell) -> u8)
    requires
        sound_partial(s),
        completes(s, f),
        forall|g: spec_fn(Cell) -> u8| completes(s, g) ==> same_board(g, f),
    ensures
        search(s) is Some,
    decreases empties(s).len(),
{
    if empties(s).len() > 0 {
        let c = lemma_branch(s);
        let cs = candidates(s, c);
        lemma_candidates_upto(s, c, 9);
        lemma_candidates_all(s, c, 9);
        let j0 = lemma_digit_is_candidate(s, c, f);
        assert forall|j: int| 0 <= j < cs.len() && j != j0 implies #[trigger] search(
            extend(s, c, cs[j]),
        ) is None by {
            lemma_extend_sound(s, c, cs[j]);
            assert(cs[j] != cs[j0]) by {
                if j < j0 {
                    assert(cs[j] < cs[j0]);
                } else {
                    assert(cs[j0] < cs[j]);
                }
            }
            assert forall|g: spec_fn(Cell) -> u8| !completes(extend(s, c, cs[j]), g) by {
                lemma_completes_extend(s, c, cs[j], g);
                if completes(extend(s, c, cs[j]), g) {
                    assert(same_board(g, f));
                    assert(g(c) == f(c));
                }
            }
            lemma_no_completion(extend(s, c, cs[j]));
        }
        let child = extend(s, c, cs[j0]);
        lemma_extend_sound(s, c, cs[j0]);
        lemma_completes_extend(s, c, cs[j0], f);
        assert forall|g: spec_fn(Cell) -> u8| completes(child, g) implies same_board(g, f) by {
            lemma_completes_extend(s, c, cs[j0], g);
        }
        lemma_empties_extend(s, c, cs[j0]);
        lemma_unique_found(child, f);
        assert(search(extend(s, c, cs[j0])) is Some);
        lemma_successes_count(s, c, cs, cs.len() as int);
    }
}

/// A partial board that breaks no rule and has exactly two completions is
/// not solved.
pub proof fn lemma_two_none(s: Seq<SolvedCell>, f1: spec_fn(Cell) -> u8, f2: spec_fn(Cell) -> u8)
    requires
        sound_partial(s),
        completes(s, f1),
        completes(s, f2),
        !same_board(f1, f2),
        forall|g: spec_fn(Cell) -> u8| completes(s, g) ==> same_board(g, f1) || same_board(g, f2),
    ensures
        search(s) is None,
    decreases empties(s).len(),
{
    if empties(s).len() == 0 {
        lemma_search_sound(s);
        assert(search(s) == Some(s));
        assert(complete(s));
        lemma_full_same(s, f1, f2);
    } else {
        let c = lemma_branch(s);
        let cs = candidates(s, c);
        lemma_candidates_upto(s, c, 9);
        lemma_candidates_all(s, c, 9);
        let j1 = lemma_digit_is_candidate(s, c, f1);
        let j2 = lemma_digit_is_candidate(s, c, f2);
        if j1 == j2 {
            assert forall|j: int| 0 <= j < cs.len() implies #[trigger] search(
                extend(s, c, cs[j]),
            ) is None by {
                let child = extend(s, c, cs[j]);
                lemma_extend_sound(s, c, cs[j]);
                if j == j1 {
                    lemma_completes_extend(s, c, cs[j], f1);
                    lemma_completes_extend(s, c, cs[j], f2);
                    assert forall|g: spec_fn(Cell) -> u8| completes(child, g) implies same_board(
                        g,
                        f1,
                    ) || same_board(g, f2) by {
                        lemma_completes_extend(s, c, cs[j], g);
                    }
                    lemma_empties_extend(s, c, cs[j]);
                    lemma_two_none(child, f1, f2);
                } else {
                    assert(cs[j] != cs[j1]) by {
                        if j < j1 {
                            assert(cs[j] < cs[j1]);
                        } else {
                            assert(cs[j1] < cs[j]);
                        }
                    }
                    assert forall|g: spec_fn(Cell) -> u8| !completes(child, g) by {
                        lemma_completes_extend(s, c, cs[j], g);
                        if completes(child, g) {
                            assert(same_board(g, f1) || same_board(g, f2));
                            assert(g(c) == f1(c) || g(c) == f2(c));
                        }
                    }
                    lemma_no_completion(child);
                }
            }
            lemma_successes_count(s, c, cs, cs.len() as int);
        } else {
            assert(f1(c) != f2(c));
            let child1 = extend(s, c, cs[j1]);
            lemma_extend_sound(s, c, cs[j1]);
            lemma_completes_extend(s, c, cs[j1], f1);
            assert forall|g: spec_fn(Cell) -> u8| completes(child1, g) implies same_board(g, f1) by {
                lemma_completes_extend(s, c, cs[j1], g);
                if same_board(g, f2) {
                    assert(g(c) == f2(c));
                }
            }
            lemma_empties_extend(s, c, cs[j1]);
            lemma_unique_found(child1, f1);
            let child2 = extend(s, c, cs[j2]);
            lemma_extend_sound(s, c, cs[j2]);
            lemma_completes_extend(s, c, cs[j2], f2);
            assert forall|g: spec_fn(Cell) -> u8| completes(child2, g) implies same_board(g, f2) by {
                lemma_completes_extend(s, c, cs[j2], g);
                if same_board(g, f1) {
                    assert(g(c) == f1(c));
                }
            }
            lemma_empties_extend(s, c, cs[j2]);
            lemma_unique_found(child2, f2);
            lemma_successes_count(s, c, cs, cs.len() as int);
            if j1 < j2 {
                assert(search(extend(s, c, cs[j1])) is Some && search(extend(s, c, cs[j2])) is Some);
            } else {
                assert(search(extend(s, c, cs[j2])) is Some && search(extend(s, c, cs[j1])) is Some);
            }
        }
    }
}

/// A board that has a completion is a well-formed puzzle.
proof fn lemma_completable_valid(g: [[u8; 9]; 9], f: spec_fn(Cell) -> u8)
    requires
        completes(clues(g), f),
    ensures
        valid_puzzle(g),
{
    let s = clues(g);
    lemma_clues_upto(g, 81);
    assert forall|r: int, c: int| 0 <= r < 9 && 0 <= c < 9 implies #[trigger] g[r][c] <= 9 by {
        lemma_scan_cell(Cell { row: r as u8, col: c as u8 }, r * 9 + c);
        lemma_scan(r * 9 + c);
        if grid_at(g, r * 9 + c) != 0 {
            let j = choose|j: int|
                0 <= j < s.len() && #[trigger] s[j] == (SolvedCell {
                    cell: scan_cell(r * 9 + c),
                    val: grid_at(g, r * 9 + c),
                });
            assert(f(s[j].cell) == s[j].val);
            assert(in_grid(s[j].cell));
        }
    }
    assert forall|i: int, j: int|
        0 <= i < j < s.len() && is_peer(#[trigger] s[i].cell, #[trigger] s[j].cell) implies s[i].val
        != s[j].val by {
        assert(scan_index(s[i].cell) < scan_index(s[j].cell));
        assert(f(s[i].cell) == s[i].val && f(s[j].cell) == s[j].val);
    }
}

/// A puzzle with exactly one completion is solved, and the solution is that
/// completion.
pub proof fn law_unique_puzzle_is_solved(g: [[u8; 9]; 9], f: spec_fn(Cell) -> u8)
    requires
        completes(clues(g), f),
        forall|h: spec_fn(Cell) -> u8| completes(clues(g), h) ==> same_board(h, f),
    ensures
        solve_board(g) is Some,
        same_board(board_of(solve_board(g)->0), f),
{
    lemma_completable_valid(g, f);
    lemma_clues_sound(g);
    lemma_unique_found(clues(g), f);
    lemma_found_completes(clues(g));
}

/// A puzzle with exactly two completions is not solved, although each of
/// them is a valid completion.
pub proof fn law_two_completions_unsolved(
    g: [[u8; 9]; 9],
    f1: spec_fn(Cell) -> u8,
    f2: spec_fn(Cell) -> u8,
)
    requires
        completes(clues(g), f1),
        completes(clues(g), f2),
        !same_board(f1, f2),
        forall|h: spec_fn(Cell) -> u8|
            completes(clues(g), h) ==> same_board(h, f1) || same_board(h, f2),
    ensures
        solve_board(g) is None,
{
    lemma_completable_valid(g, f1);
    lemma_clues_sound(g);
    lemma_two_none(clues(g), f1, f2);
}

} // verus!
