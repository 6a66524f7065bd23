use sudoku::box_line::eliminate_pointing_sets;
use sudoku::candidates::eliminate_candidates;
use sudoku::grid::{cells_to_grid, grid_to_cells, make_candidate_sets};
use sudoku::pairs::{determine_hidden_doubles, determine_naked_doubles};
use sudoku::singles::{solve_hidden_singles, solve_naked_singles};
use sudoku::subsets::determine_naked_subsets;
use sudoku::swordfish::swordfish_elimination;
use sudoku::types::{BasicGrid, BitMaskExt, Board, Cell};

fn solution() -> BasicGrid {
    let mut g: BasicGrid = [[0; 9]; 9];
    for r in 0..9 {
        for c in 0..9 {
            g[r][c] = (((r % 3) * 3 + r / 3 + c) % 9 + 1) as i16;
        }
    }
    g
}

/// The solution with a third of its cells blanked out in a scattered pattern.
fn puzzle() -> BasicGrid {
    let mut g = solution();
    for r in 0..9 {
        for c in 0..9 {
            if (r * 4 + c * 7) % 3 == 0 {
                g[r][c] = 0;
            }
        }
    }
    g
}

fn assert_no_duplicate_values(board: &Board, phase: &str) {
    for unit in 0..27 {
        let mut seen = [false; 9];
        for k in 0..9 {
            let (row, col) = match unit / 9 {
                0 => (unit % 9, k),
                1 => (k, unit % 9),
                _ => ((unit % 9) / 3 * 3 + k / 3, (unit % 9) % 3 * 3 + k % 3),
            };
            if let Cell::Value(value) = board[row][col] {
                let idx = (value - 1) as usize;
                assert!(!seen[idx], "duplicate {value} in unit {unit} after {phase}");
                seen[idx] = true;
            }
        }
    }
}

fn assert_no_empty_candidates(board: &Board, phase: &str) {
    for row in 0..9 {
        for col in 0..9 {
            if let Cell::Candidates(bits) = &board[row][col] {
                assert!(bits.bits_set() > 0, "cell ({row}, {col}) has no candidates after {phase}");
            }
        }
    }
}

fn assert_solution_still_possible(board: &Board, solution: &BasicGrid, phase: &str) {
    for row in 0..9 {
        for col in 0..9 {
            let expected = solution[row][col];
            match board[row][col] {
                Cell::Value(actual) => assert_eq!(actual, expected, "wrong value after {phase}"),
                Cell::Candidates(bits) => {
                    assert!(bits[(expected - 1) as usize], "candidate {expected} removed from ({row}, {col}) after {phase}")
                }
                Cell::Empty => panic!("unexpected empty cell after {phase}"),
            }
        }
    }
}

fn check(board: &Board, phase: &str) {
    assert_no_duplicate_values(board, phase);
    assert_no_empty_candidates(board, phase);
    assert_solution_still_possible(board, &solution(), phase);
}

#[test]
fn every_phase_keeps_the_solution_possible() {
    let mut board = grid_to_cells(&puzzle());
    make_candidate_sets(&mut board);
    eliminate_candidates(&mut board);
    check(&board, "initial candidate elimination");

    loop {
        let mut changed = false;
        changed |= solve_naked_singles(&mut board);
        check(&board, "naked singles");
        changed |= eliminate_candidates(&mut board);
        check(&board, "elimination after naked singles");
        changed |= solve_hidden_singles(&mut board);
        check(&board, "hidden singles");
        changed |= eliminate_candidates(&mut board);
        check(&board, "elimination after hidden singles");
        changed |= determine_naked_doubles(&mut board);
        check(&board, "naked doubles");
        changed |= determine_hidden_doubles(&mut board);
        check(&board, "hidden doubles");
        changed |= eliminate_pointing_sets(&mut board);
        check(&board, "pointing sets");
        changed |= determine_naked_subsets(&mut board);
        check(&board, "naked subsets");
        changed |= swordfish_elimination(&mut board);
        check(&board, "fish");
        if !changed {
            break;
        }
    }
    assert_eq!(cells_to_grid(&board), solution());
}

fn only(digit: i16) -> Cell {
    let mut m = [false; 9];
    m[(digit - 1) as usize] = true;
    Cell::Candidates(m)
}

#[test]
fn naked_singles_place_every_single_candidate() {
    let g = solution();
    let mut board = grid_to_cells(&g);
    board[0][0] = only(g[0][0]);
    board[4][5] = only(g[4][5]);
    board[8][8] = only(g[8][8]);
    assert!(solve_naked_singles(&mut board));
    assert_eq!(board[0][0], Cell::Value(g[0][0]));
    assert_eq!(board[4][5], Cell::Value(g[4][5]));
    assert_eq!(board[8][8], Cell::Value(g[8][8]));
}

fn agree_on(a: &Board, b: &Board, d: usize) -> bool {
    for r in 0..9 {
        for c in 0..9 {
            match (a[r][c], b[r][c]) {
                (Cell::Candidates(x), Cell::Candidates(y)) => {
                    if x[d] != y[d] {
                        return false;
                    }
                }
                (Cell::Candidates(_), _) | (_, Cell::Candidates(_)) => return false,
                _ => {}
            }
        }
    }
    true
}

/// The board with every candidate other than the digit index `d` changed in a
/// scattered pattern, and its placed digits replaced by others.
fn scramble_except(a: &Board, d: usize) -> Board {
    let mut b = *a;
    for r in 0..9 {
        for c in 0..9 {
            if let Cell::Value(v) = b[r][c] {
                b[r][c] = Cell::Value(v % 9 + 1);
            }
        }
    }
    for r in 0..9 {
        for c in 0..9 {
            if let Cell::Candidates(m) = &mut b[r][c] {
                for e in 0..9 {
                    if e != d {
                        m[e] = (r * 5 + c * 3 + e) % 4 == 0;
                    }
                }
            }
        }
    }
    b
}

fn mask(values: &[usize]) -> [bool; 9] {
    let mut result = [false; 9];
    for &value in values {
        result[value - 1] = true;
    }
    result
}

#[test]
fn pointing_sets_handle_each_digit_on_its_own() {
    let mut a: Board = [[Cell::Candidates([false; 9]); 9]; 9];
    a[3][3] = Cell::Candidates(mask(&[2, 5]));
    a[3][4] = Cell::Candidates(mask(&[1, 4]));
    a[3][5] = Cell::Candidates(mask(&[3, 5]));
    a[3][0] = Cell::Candidates(mask(&[1, 5, 7]));
    a[3][6] = Cell::Candidates(mask(&[1, 5, 8]));
    a[7][7] = Cell::Value(5);
    a[0][8] = Cell::Empty;
    let mut b = scramble_except(&a, 4);
    assert_ne!(a[7][7], b[7][7]);
    assert!(agree_on(&a, &b, 4));
    assert!(eliminate_pointing_sets(&mut a));
    eliminate_pointing_sets(&mut b);
    assert!(agree_on(&a, &b, 4));
    assert!(matches!(b[3][0], Cell::Candidates(m) if !m[4]));
}

#[test]
fn fish_handle_each_digit_on_its_own() {
    let mut a: Board = [[Cell::Candidates([true; 9]); 9]; 9];
    for row in [2, 6] {
        for col in 0..9 {
            if col == 3 || col == 8 {
                continue;
            }
            if let Cell::Candidates(m) = &mut a[row][col] {
                m[6] = false;
            }
        }
    }
    a[4][4] = Cell::Value(7);
    let mut b = scramble_except(&a, 6);
    assert_ne!(a[4][4], b[4][4]);
    assert!(agree_on(&a, &b, 6));
    assert!(swordfish_elimination(&mut a));
    swordfish_elimination(&mut b);
    assert!(agree_on(&a, &b, 6));
    assert!(matches!(b[0][3], Cell::Candidates(m) if !m[6]));
}

#[test]
fn singles_need_no_safe_board_when_nothing_is_placed() {
    let mut board: Board = [[Cell::Candidates([true; 9]); 9]; 9];
    board[0][0] = Cell::Value(42);
    let before = board;
    assert!(!solve_naked_singles(&mut board));
    assert!(!solve_hidden_singles(&mut board));
    assert_eq!(board, before);
}
