use sudoku::grid::{cells_to_grid, grid_to_cells, make_candidate_sets, verify};
use sudoku::types::{BasicGrid, Cell, Grid};

fn solved_grid() -> BasicGrid {
    let mut g: BasicGrid = [[0; 9]; 9];
    for r in 0..9 {
        for c in 0..9 {
            g[r][c] = (((r % 3) * 3 + r / 3 + c) % 9 + 1) as i16;
        }
    }
    g
}

#[test]
fn verify_accepts_a_solved_grid() {
    assert!(verify(&solved_grid()));
}

#[test]
fn verify_rejects_a_grid_with_a_blank() {
    let mut g = solved_grid();
    g[4][7] = 0;
    assert!(!verify(&g));
}

#[test]
fn verify_rejects_a_repeated_digit_in_a_row() {
    let mut g = solved_grid();
    g[0][0] = g[0][1];
    assert!(!verify(&g));
}

#[test]
fn verify_rejects_rows_that_break_columns() {
    let mut g = solved_grid();
    // Every row stays a permutation, but the first two columns now repeat digits.
    for r in 0..9 {
        let t = g[r][0];
        g[r][0] = g[r][1];
        g[r][1] = t;
    }
    g[0].swap(0, 1);
    assert!(!verify(&g));
}

#[test]
fn grid_round_trip_keeps_the_grid() {
    let mut g = solved_grid();
    g[2][3] = 0;
    g[8][8] = 0;
    let board = grid_to_cells(&g);
    assert_eq!(board[2][3], Cell::Empty);
    assert_eq!(board[0][0], Cell::Value(g[0][0]));
    assert_eq!(cells_to_grid(&board), g);
}

#[test]
fn cells_to_grid_shows_candidate_cells_as_zero() {
    let mut board = grid_to_cells(&solved_grid());
    board[5][5] = Cell::Candidates([true; 9]);
    let g = cells_to_grid(&board);
    assert_eq!(g[5][5], 0);
    assert_eq!(g[5][4], solved_grid()[5][4]);
}

#[test]
fn make_candidate_sets_fills_only_empty_cells() {
    let mut g = solved_grid();
    g[1][1] = 0;
    let mut board = grid_to_cells(&g);
    board[2][2] = Cell::Candidates([false; 9]);
    make_candidate_sets(&mut board);
    assert_eq!(board[1][1], Cell::Candidates([true; 9]));
    assert_eq!(board[2][2], Cell::Candidates([false; 9]));
    assert_eq!(board[0][0], Cell::Value(g[0][0]));
}

#[test]
fn render_draws_dots_bars_and_numbers() {
    let mut g: BasicGrid = [[0; 9]; 9];
    g[0] = [1, 0, 3, 0, 5, 0, 7, 0, 9];
    g[4][4] = -12;
    g[8][8] = 345;
    let expected = " ------- ------- ------- \n| 1 . 3 | . 5 . | 7 . 9 |\n| . . . | . . . | . . . |\n| . . . | . . . | . . . |\n ------- ------- ------- \n| . . . | . . . | . . . |\n| . . . | . -12 . | . . . |\n| . . . | . . . | . . . |\n ------- ------- ------- \n| . . . | . . . | . . . |\n| . . . | . . . | . . . |\n| . . . | . . . | . . 345 |\n ------- ------- ------- \n";
    assert_eq!(Grid(g).render(), expected);
}

#[test]
fn render_shows_the_smallest_number() {
    let mut g: BasicGrid = [[0; 9]; 9];
    g[0][0] = i16::MIN;
    let text = Grid(g).render();
    assert!(text.starts_with(" ------- ------- ------- \n| -32768 . . |"));
}
