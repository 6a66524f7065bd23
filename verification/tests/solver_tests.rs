use sudoku::candidates::eliminate_candidates;
use sudoku::grid::{cells_to_grid, grid_to_cells, make_candidate_sets};
use sudoku::parser::{Action, Key, Parser};
use sudoku::puzzles::{board_from_digits, count_empty_cells, Difficulty};
use sudoku::solver::{count_unsolved_cells, propagate, solve};
use sudoku::types::{BasicGrid, Board, Cell};

fn solved_grid() -> BasicGrid {
    let mut g: BasicGrid = [[0; 9]; 9];
    for r in 0..9 {
        for c in 0..9 {
            g[r][c] = (((r % 3) * 3 + r / 3 + c) % 9 + 1) as i16;
        }
    }
    g
}

fn puzzle_digits() -> String {
    let g = solved_grid();
    let mut s = String::new();
    for r in 0..9 {
        for c in 0..9 {
            let d = if (r + c) % 2 == 0 { 0 } else { g[r][c] };
            s.push(char::from(b'0' + d as u8));
        }
    }
    s
}

fn consistent_with(board: &Board, g: &BasicGrid) -> bool {
    for r in 0..9 {
        for c in 0..9 {
            let ok = match board[r][c] {
                Cell::Value(v) => v == g[r][c],
                Cell::Candidates(m) => m[(g[r][c] - 1) as usize],
                Cell::Empty => false,
            };
            if !ok {
                return false;
            }
        }
    }
    true
}

#[test]
fn board_from_digits_reads_values_and_unknowns() {
    let digits = puzzle_digits();
    let board = board_from_digits(digits.as_bytes());
    assert_eq!(board[0][0], Cell::Candidates([true; 9]));
    assert_eq!(board[0][1], Cell::Value(2));
    assert_eq!(board[8][7], Cell::Value(7));
    assert_eq!(count_unsolved_cells(&board), 41);
    assert_eq!(count_empty_cells(&board), 0);
}

#[test]
fn board_from_digits_leaves_missing_cells_empty() {
    let board = board_from_digits(b"1203");
    assert_eq!(board[0][0], Cell::Value(1));
    assert_eq!(board[0][2], Cell::Candidates([true; 9]));
    assert_eq!(board[0][3], Cell::Value(3));
    assert_eq!(board[0][4], Cell::Empty);
    assert_eq!(count_empty_cells(&board), 77);
    assert_eq!(count_unsolved_cells(&board), 1);
}

#[test]
fn solve_finishes_an_easy_puzzle() {
    let digits = puzzle_digits();
    let mut board = board_from_digits(digits.as_bytes());
    assert!(solve(&mut board));
    assert_eq!(cells_to_grid(&board), solved_grid());
    assert_eq!(count_unsolved_cells(&board), 0);
}

#[test]
fn solve_reports_an_unsolvable_start() {
    let mut board = board_from_digits(&[b'0'; 81]);
    assert!(!solve(&mut board));
    assert_eq!(count_unsolved_cells(&board), 81);
}

#[test]
fn solve_keeps_the_solution_possible() {
    let g = solved_grid();
    let mut board = board_from_digits(&[b'0'; 81]);
    board[0][0] = Cell::Value(g[0][0]);
    board[4][4] = Cell::Value(g[4][4]);
    board[8][2] = Cell::Value(g[8][2]);
    assert!(consistent_with(&board, &g));
    solve(&mut board);
    assert!(consistent_with(&board, &g));
}

#[test]
fn propagate_counts_the_rounds_that_changed_the_board() {
    let g = solved_grid();
    let mut board = grid_to_cells(&g);
    board[6][6] = Cell::Empty;
    assert_eq!(count_empty_cells(&board), 1);
    make_candidate_sets(&mut board);
    assert_eq!(propagate(&mut board), 1);
    assert_eq!(cells_to_grid(&board), g);
}

#[test]
fn propagate_does_nothing_on_a_solved_board() {
    let g = solved_grid();
    let mut board = grid_to_cells(&g);
    assert_eq!(propagate(&mut board), 0);
    assert_eq!(cells_to_grid(&board), g);
}

#[test]
fn propagate_solves_an_easy_puzzle() {
    let digits = puzzle_digits();
    let mut board = board_from_digits(digits.as_bytes());
    let rounds = propagate(&mut board);
    assert!(rounds >= 1);
    assert_eq!(cells_to_grid(&board), solved_grid());
}

#[test]
fn elimination_keeps_a_consistent_board_consistent() {
    let g = solved_grid();
    let mut board = board_from_digits(&[b'0'; 81]);
    board[3][3] = Cell::Value(g[3][3]);
    board[3][7] = Cell::Value(g[3][7]);
    assert!(eliminate_candidates(&mut board));
    assert!(consistent_with(&board, &g));
    let Cell::Candidates(m) = board[3][0] else { panic!("expected candidates") };
    assert!(!m[(g[3][3] - 1) as usize] && !m[(g[3][7] - 1) as usize]);
}

#[test]
fn difficulty_names_its_collection() {
    assert_eq!(Difficulty::Easy.collection_name(), "easy");
    assert_eq!(Difficulty::Medium.collection_name(), "medium");
    assert_eq!(Difficulty::Hard.collection_name(), "hard");
    assert_eq!(Difficulty::Diabolical.collection_name(), "diabolical");
    assert_eq!(Difficulty::All.collection_name(), "easy");
}

#[test]
fn input_screen_quits_on_q_and_esc() {
    let mut parser = Parser::new();
    assert_eq!(parser.handle_key(Key::Char('q')), Action::Quit);
    assert_eq!(parser.handle_key(Key::Esc), Action::Quit);
    assert_eq!(parser.handle_key(Key::Char('Q')), Action::Continue);
    assert_eq!(parser.handle_key(Key::Other), Action::Continue);
}

#[test]
fn input_screen_solves_on_enter() {
    let mut parser = Parser::new();
    assert_eq!(parser.handle_key(Key::Enter), Action::Solve);
}

#[test]
fn input_screen_moves_the_cursor_within_the_board() {
    let mut parser = Parser::new();
    parser.handle_key(Key::Up);
    parser.handle_key(Key::Left);
    assert_eq!((parser.row, parser.col), (0, 0));
    parser.handle_key(Key::Down);
    parser.handle_key(Key::Right);
    parser.handle_key(Key::Right);
    assert_eq!((parser.row, parser.col), (1, 2));
    for _ in 0..12 {
        parser.handle_key(Key::Down);
        parser.handle_key(Key::Right);
    }
    assert_eq!((parser.row, parser.col), (8, 8));
}

#[test]
fn input_screen_writes_and_clears_digits_at_the_cursor() {
    let mut parser = Parser::new();
    parser.handle_key(Key::Right);
    assert_eq!(parser.handle_key(Key::Char('7')), Action::Continue);
    assert_eq!(parser.grid[0][1], 7);
    parser.handle_key(Key::Char('0'));
    parser.handle_key(Key::Char('x'));
    assert_eq!(parser.grid[0][1], 7);
    parser.handle_key(Key::Delete);
    assert_eq!(parser.grid[0][1], 0);
    parser.handle_key(Key::Down);
    parser.handle_key(Key::Char('9'));
    assert_eq!(parser.grid[1][1], 9);
    assert_eq!(parser.grid[0][0], 0);
}
