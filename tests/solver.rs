use number_place::board::Sudoku;
use number_place::sudoku::{solve, solve_from_array, to_string, Cell, SolvedCell, SolvedCells};

fn answer_to_array(answer: &SolvedCells) -> [[u8; 9]; 9] {
    let mut array: [[u8; 9]; 9] = [[0; 9]; 9];
    for row in 0..9u8 {
        for col in 0..9u8 {
            if let Some(n) = answer
                .iter()
                .find(|&solved_cell| solved_cell.cell.row == row && solved_cell.cell.col == col)
            {
                array[row as usize][col as usize] = n.val;
            }
        }
    }
    array
}

const HARD: [[u8; 9]; 9] = [
    [0, 0, 0, 0, 0, 0, 0, 0, 0],
    [0, 1, 6, 0, 0, 0, 5, 9, 0],
    [4, 0, 0, 3, 0, 7, 0, 0, 2],
    [7, 0, 0, 0, 5, 0, 0, 0, 1],
    [8, 0, 0, 0, 0, 0, 0, 0, 9],
    [0, 6, 0, 0, 0, 0, 0, 7, 0],
    [0, 0, 5, 0, 0, 0, 6, 0, 0],
    [0, 0, 0, 2, 0, 3, 0, 0, 0],
    [0, 0, 0, 0, 7, 0, 0, 0, 0],
];

const HARD_SOLVED: [[u8; 9]; 9] = [
    [2, 8, 7, 5, 1, 9, 4, 3, 6],
    [3, 1, 6, 4, 2, 8, 5, 9, 7],
    [4, 5, 9, 3, 6, 7, 1, 8, 2],
    [7, 9, 4, 8, 5, 2, 3, 6, 1],
    [8, 3, 1, 7, 4, 6, 2, 5, 9],
    [5, 6, 2, 9, 3, 1, 8, 7, 4],
    [9, 7, 5, 1, 8, 4, 6, 2, 3],
    [6, 4, 8, 2, 9, 3, 7, 1, 5],
    [1, 2, 3, 6, 7, 5, 9, 4, 8],
];

fn is_solved_grid(g: &[[u8; 9]; 9]) -> bool {
    for i in 0..9 {
        let mut row = [false; 10];
        let mut col = [false; 10];
        let mut blk = [false; 10];
        for j in 0..9 {
            let a = g[i][j] as usize;
            let b = g[j][i] as usize;
            let c = g[(i / 3) * 3 + j / 3][(i % 3) * 3 + j % 3] as usize;
            if a == 0 || a > 9 || b == 0 || b > 9 || c == 0 || c > 9 {
                return false;
            }
            if row[a] || col[b] || blk[c] {
                return false;
            }
            row[a] = true;
            col[b] = true;
            blk[c] = true;
        }
    }
    true
}

#[test]
fn test_hard_puzzle() {
    let answers = solve_from_array(&HARD);
    assert!(answers.is_some());
    assert_eq!(answer_to_array(&answers.unwrap()), HARD_SOLVED);
}

#[test]
fn test_no_solution() {
    let answers = solve_from_array(&[
        [0, 0, 0, 0, 0, 0, 0, 0, 0],
        [0, 1, 6, 0, 0, 0, 5, 9, 0],
        [4, 0, 0, 8, 0, 7, 0, 0, 2],
        [7, 0, 0, 0, 5, 0, 0, 0, 1],
        [8, 0, 0, 0, 0, 0, 0, 0, 9],
        [0, 6, 0, 0, 0, 0, 0, 7, 0],
        [0, 0, 5, 0, 0, 0, 6, 0, 0],
        [0, 0, 0, 2, 0, 3, 0, 0, 0],
        [0, 0, 0, 0, 7, 0, 0, 0, 0],
    ]);
    assert!(answers.is_none());
}

#[test]
fn test_boundary_case_many_solution() {
    let answers = solve_from_array(&[
        [0, 0, 0, 0, 0, 0, 0, 0, 0],
        [0, 1, 6, 0, 0, 0, 5, 9, 0],
        [4, 0, 0, 1, 0, 7, 0, 0, 2],
        [7, 0, 0, 0, 5, 0, 0, 0, 1],
        [8, 0, 0, 0, 0, 0, 0, 0, 9],
        [0, 6, 0, 0, 0, 0, 0, 7, 0],
        [0, 0, 5, 0, 0, 0, 6, 0, 0],
        [0, 0, 0, 2, 0, 3, 0, 0, 0],
        [0, 0, 0, 0, 7, 0, 0, 0, 0],
    ]);
    assert!(answers.is_none());
}

#[test]
fn solution_is_valid_and_keeps_clues() {
    let answer = answer_to_array(&solve_from_array(&HARD).unwrap());
    assert!(is_solved_grid(&answer));
    for r in 0..9 {
        for c in 0..9 {
            if HARD[r][c] != 0 {
                assert_eq!(answer[r][c], HARD[r][c]);
            }
        }
    }
}

#[test]
fn solving_twice_gives_the_same_answer() {
    let first = solve_from_array(&HARD).map(|a| answer_to_array(&a));
    let second = solve_from_array(&HARD).map(|a| answer_to_array(&a));
    assert_eq!(first, second);
    let mut g = HARD;
    g[2][3] = 1;
    let none1 = solve_from_array(&g).is_none();
    let none2 = solve_from_array(&g).is_none();
    assert!(none1);
    assert_eq!(none1, none2);
}

#[test]
fn full_grid_comes_back_unchanged() {
    let answer = solve_from_array(&HARD_SOLVED).unwrap();
    assert_eq!(answer.len(), 81);
    assert_eq!(answer_to_array(&answer), HARD_SOLVED);
}

#[test]
fn repeated_clue_in_a_row_has_no_solution() {
    let mut g = HARD;
    g[1][0] = 1;
    assert!(solve_from_array(&g).is_none());
}

#[test]
fn repeated_clue_in_a_block_has_no_solution() {
    let mut g = HARD;
    g[0][0] = 6;
    assert!(solve_from_array(&g).is_none());
}

#[test]
fn digit_above_nine_is_rejected() {
    let mut g = HARD_SOLVED;
    g[4][4] = 10;
    assert!(solve_from_array(&g).is_none());
}

#[test]
fn two_completions_give_no_solution() {
    let mut g = HARD_SOLVED;
    for (r, c) in [
        (3, 1), (0, 5), (7, 8), (1, 8), (4, 1), (5, 8), (2, 0), (7, 6), (1, 6), (4, 3), (2, 5),
        (1, 4), (2, 6), (5, 2), (1, 3), (0, 8), (0, 7), (2, 8), (3, 4), (4, 7), (3, 7),
    ] {
        g[r][c] = 0;
    }
    assert!(solve_from_array(&g).is_none());
    let mut one = HARD_SOLVED;
    one[0][0] = 0;
    assert_eq!(answer_to_array(&solve_from_array(&one).unwrap()), HARD_SOLVED);
}

#[test]
fn solve_extends_an_assignment_set() {
    let mut cells: SolvedCells = Vec::new();
    for r in 0..9u8 {
        for c in 0..9u8 {
            if HARD[r as usize][c as usize] != 0 {
                cells.push(SolvedCell { cell: Cell { row: r, col: c }, val: HARD[r as usize][c as usize] });
            }
        }
    }
    let answer = solve(&cells).unwrap();
    assert_eq!(answer.len(), 81);
    for i in 0..cells.len() {
        assert_eq!(answer[i].cell.row, cells[i].cell.row);
        assert_eq!(answer[i].cell.col, cells[i].cell.col);
        assert_eq!(answer[i].val, cells[i].val);
    }
    assert_eq!(answer_to_array(&answer), HARD_SOLVED);
}

#[test]
fn block_index() {
    assert_eq!(Cell { row: 0, col: 0 }.block(), 0);
    assert_eq!(Cell { row: 4, col: 7 }.block(), 5);
    assert_eq!(Cell { row: 8, col: 3 }.block(), 7);
    assert_eq!(Cell { row: 8, col: 8 }.block(), 8);
}

#[test]
fn unused_digits() {
    let empty: SolvedCells = Vec::new();
    assert_eq!(Cell { row: 2, col: 2 }.unused(&empty), vec![1, 2, 3, 4, 5, 6, 7, 8, 9]);
    let cells: SolvedCells = vec![
        SolvedCell { cell: Cell { row: 0, col: 5 }, val: 3 },
        SolvedCell { cell: Cell { row: 7, col: 0 }, val: 9 },
        SolvedCell { cell: Cell { row: 1, col: 1 }, val: 1 },
        SolvedCell { cell: Cell { row: 4, col: 4 }, val: 5 },
    ];
    assert_eq!(Cell { row: 0, col: 0 }.unused(&cells), vec![2, 4, 5, 6, 7, 8]);
}

#[test]
fn to_string_renders_rows() {
    let empty: SolvedCells = Vec::new();
    let row = " 0  0  0  0  0  0  0  0  0";
    let expected = vec![row; 9].join("\r\n");
    assert_eq!(to_string(&empty), expected);
    let cells: SolvedCells = vec![
        SolvedCell { cell: Cell { row: 0, col: 0 }, val: 5 },
        SolvedCell { cell: Cell { row: 8, col: 8 }, val: 9 },
        SolvedCell { cell: Cell { row: 0, col: 0 }, val: 7 },
    ];
    let text = to_string(&cells);
    let lines: Vec<&str> = text.split("\r\n").collect();
    assert_eq!(lines.len(), 9);
    assert_eq!(lines[0], " 5  0  0  0  0  0  0  0  0");
    assert_eq!(lines[8], " 0  0  0  0  0  0  0  0  9");
}

#[test]
fn to_string_pads_wide_values() {
    let cells: SolvedCells = vec![SolvedCell { cell: Cell { row: 0, col: 1 }, val: 12 }];
    let text = to_string(&cells);
    assert!(text.starts_with(" 0 12  0"));
}

#[test]
fn backtracking_fills_a_board() {
    let mut g = HARD_SOLVED;
    for (r, c) in [(0, 0), (1, 4), (2, 8), (4, 4), (6, 1), (8, 8), (5, 5), (3, 7)] {
        g[r][c] = 0;
    }
    let mut sudoku = Sudoku::new(g);
    assert!(sudoku.solve());
    assert_eq!(sudoku.board, HARD_SOLVED);
}

#[test]
fn backtracking_keeps_a_full_board() {
    let mut sudoku = Sudoku::new(HARD_SOLVED);
    assert!(sudoku.solve());
    assert_eq!(sudoku.board, HARD_SOLVED);
}

#[test]
fn backtracking_leaves_an_impossible_board_unchanged() {
    let mut g = HARD_SOLVED;
    g[0][0] = 0;
    g[0][1] = 2;
    let mut sudoku = Sudoku::new(g);
    assert!(!sudoku.solve());
    assert_eq!(sudoku.board, g);
}
