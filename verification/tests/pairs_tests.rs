use sudoku::pairs::{determine_hidden_doubles, determine_naked_doubles};
use sudoku::types::{BitMask, Board, Cell};

fn mask(values: &[usize]) -> BitMask {
    let mut result = [false; 9];
    for &value in values {
        result[value - 1] = true;
    }
    result
}

fn candidate_board(b: bool) -> Board {
    std::array::from_fn(|_| {
        std::array::from_fn(|_| Cell::Candidates([b; 9]))
    })
}

#[test]
fn naked_pairs_isolated_correctly_in_row() {
    let mut board = candidate_board(false);
    board[3][1] = Cell::Candidates(mask(&[2, 5]));
    board[3][4] = Cell::Candidates(mask(&[2, 5, 7, 8]));
    board[3][7] = Cell::Candidates(mask(&[2, 5]));

    assert!(determine_naked_doubles(&mut board));
    let correct_mask = mask(&[7,8]);
    assert!(matches!(board[3][4], Cell::Candidates(actual) if actual == correct_mask));
}

#[test]
fn naked_pairs_isolated_correctly_single_in_row() {
    let mut board = candidate_board(false);
    board[3][1] = Cell::Candidates(mask(&[2, 5]));
    board[3][4] = Cell::Candidates(mask(&[2, 7, 8]));
    board[3][7] = Cell::Candidates(mask(&[2, 5]));

    assert!(determine_naked_doubles(&mut board));
    let correct_mask = mask(&[7,8]);
    assert!(matches!(board[3][4], Cell::Candidates(actual) if actual == correct_mask));
}

#[test]
fn naked_pairs_isolated_eliminates_multiple_in_row() {
    let mut board = candidate_board(false);
    board[3][1] = Cell::Candidates(mask(&[2, 5]));
    board[3][4] = Cell::Candidates(mask(&[2, 7, 8]));
    board[3][7] = Cell::Candidates(mask(&[2, 5]));
    board[3][8] = Cell::Candidates(mask(&[2, 5, 6, 9]));

    assert!(determine_naked_doubles(&mut board));
    let correct_mask_first = mask(&[7,8]);
    assert!(matches!(board[3][4], Cell::Candidates(actual) if actual == correct_mask_first));

    let correct_mask_second = mask(&[6,9]);
    assert!(matches!(board[3][8], Cell::Candidates(actual) if actual == correct_mask_second));
}

#[test]
fn naked_pairs_isolated_correctly_in_column() {
    let mut board = candidate_board(false);
    board[1][3] = Cell::Candidates(mask(&[2, 5]));
    board[4][3] = Cell::Candidates(mask(&[2, 5, 7, 8]));
    board[7][3] = Cell::Candidates(mask(&[2, 5]));

    assert!(determine_naked_doubles(&mut board));
    let correct_mask = mask(&[7, 8]);
    assert!(matches!(board[4][3], Cell::Candidates(actual) if actual == correct_mask));
}

#[test]
fn naked_pairs_isolated_correctly_single_in_column() {
    let mut board = candidate_board(false);
    board[1][3] = Cell::Candidates(mask(&[2, 5]));
    board[4][3] = Cell::Candidates(mask(&[2, 7, 8]));
    board[7][3] = Cell::Candidates(mask(&[2, 5]));

    assert!(determine_naked_doubles(&mut board));
    let correct_mask = mask(&[7, 8]);
    assert!(matches!(board[4][3], Cell::Candidates(actual) if actual == correct_mask));
}

#[test]
fn naked_pairs_isolated_eliminates_multiple_in_column() {
    let mut board = candidate_board(false);
    board[1][3] = Cell::Candidates(mask(&[2, 5]));
    board[4][3] = Cell::Candidates(mask(&[2, 7, 8]));
    board[7][3] = Cell::Candidates(mask(&[2, 5]));
    board[8][3] = Cell::Candidates(mask(&[2, 5, 6, 9]));

    assert!(determine_naked_doubles(&mut board));
    let correct_mask_first = mask(&[7, 8]);
    assert!(matches!(board[4][3], Cell::Candidates(actual) if actual == correct_mask_first));

    let correct_mask_second = mask(&[6, 9]);
    assert!(matches!(board[8][3], Cell::Candidates(actual) if actual == correct_mask_second));
}

#[test]
fn naked_pairs_isolated_correctly_in_box() {
    let mut board = candidate_board(false);
    board[0][0] = Cell::Candidates(mask(&[2, 5]));
    board[1][1] = Cell::Candidates(mask(&[2, 5, 7, 8]));
    board[2][2] = Cell::Candidates(mask(&[2, 5]));

    assert!(determine_naked_doubles(&mut board));
    let correct_mask = mask(&[7, 8]);
    assert!(matches!(board[1][1], Cell::Candidates(actual) if actual == correct_mask));
}

#[test]
fn naked_pairs_isolated_correctly_single_in_box() {
    let mut board = candidate_board(false);
    board[0][0] = Cell::Candidates(mask(&[2, 5]));
    board[1][1] = Cell::Candidates(mask(&[2, 7, 8]));
    board[2][2] = Cell::Candidates(mask(&[2, 5]));

    assert!(determine_naked_doubles(&mut board));
    let correct_mask = mask(&[7, 8]);
    assert!(matches!(board[1][1], Cell::Candidates(actual) if actual == correct_mask));
}

#[test]
fn naked_pairs_isolated_eliminates_multiple_in_box() {
    let mut board = candidate_board(false);
    board[0][0] = Cell::Candidates(mask(&[2, 5]));
    board[1][1] = Cell::Candidates(mask(&[2, 7, 8]));
    board[2][2] = Cell::Candidates(mask(&[2, 5]));
    board[0][2] = Cell::Candidates(mask(&[2, 5, 6, 9]));

    assert!(determine_naked_doubles(&mut board));
    let correct_mask_first = mask(&[7, 8]);
    assert!(matches!(board[1][1], Cell::Candidates(actual) if actual == correct_mask_first));

    let correct_mask_second = mask(&[6, 9]);
    assert!(matches!(board[0][2], Cell::Candidates(actual) if actual == correct_mask_second));
}

#[test]
fn hidden_pairs_two_candidate_cells_row() {
    let mut board = candidate_board(true);
    board[0][0] = Cell::Candidates(mask(&[2, 4, 7, 9]));
    board[0][1] = Cell::Candidates(mask(&[1, 2, 7]));
    for col in 2..9 {
        if let Cell::Candidates(mask) = &mut board[0][col] {
            mask[1] = false;
            mask[6] = false;
        }
    }

    assert!(determine_hidden_doubles(&mut board));
    let correct_mask = Cell::Candidates(mask(&[2, 7]));
    assert_eq!(board[0][0], correct_mask);
    assert_eq!(board[0][1], correct_mask);
}

#[test]
fn hidden_pairs_four_candidate_cells_row() {
    let mut board = candidate_board(false);
    board[0][0] = Cell::Candidates(mask(&[2, 4, 7, 9]));
    board[0][1] = Cell::Candidates(mask(&[1, 2, 7]));
    board[0][4] = Cell::Candidates(mask(&[3, 6, 8]));
    board[0][7] = Cell::Candidates(mask(&[5, 6, 8]));

    assert!(determine_hidden_doubles(&mut board));
    let correct_mask_i = mask(&[2, 7]);
    assert!(matches!(board[0][0], Cell::Candidates(actual) if actual == correct_mask_i));
    assert!(matches!(board[0][1], Cell::Candidates(actual) if actual == correct_mask_i));

    let correct_mask_j = mask(&[6, 8]);
    assert!(matches!(board[0][4], Cell::Candidates(actual) if actual == correct_mask_j));
    assert!(matches!(board[0][7], Cell::Candidates(actual) if actual == correct_mask_j));
}

#[test]
fn shared_two_candidates_are_not_necessarily_a_hidden_pair_row() {
    let mut board = candidate_board(true);

    board[0][0] = Cell::Candidates(mask(&[2, 4, 7, 9]));
    board[0][1] = Cell::Candidates(mask(&[1, 2, 7]));
    board[0][2] = Cell::Candidates(mask(&[2, 3]));

    let before = board;

    assert!(!determine_hidden_doubles(&mut board));
    assert_eq!(board, before);
}

#[test]
fn hidden_pairs_two_candidate_cells_column() {
    let mut board = candidate_board(false);
    board[0][3] = Cell::Candidates(mask(&[2, 4, 7, 9]));
    board[1][3] = Cell::Candidates(mask(&[1, 2, 7]));

    assert!(determine_hidden_doubles(&mut board));
    let correct_mask = mask(&[2, 7]);
    assert!(matches!(board[0][3], Cell::Candidates(actual) if actual == correct_mask));
    assert!(matches!(board[1][3], Cell::Candidates(actual) if actual == correct_mask));
}

#[test]
fn hidden_pairs_four_candidate_cells_column() {
    let mut board = candidate_board(false);
    board[0][3] = Cell::Candidates(mask(&[2, 4, 7, 9]));
    board[1][3] = Cell::Candidates(mask(&[1, 2, 7]));
    board[4][3] = Cell::Candidates(mask(&[3, 6, 8]));
    board[7][3] = Cell::Candidates(mask(&[5, 6, 8]));

    assert!(determine_hidden_doubles(&mut board));
    let correct_mask_first = mask(&[2, 7]);
    assert!(matches!(board[0][3], Cell::Candidates(actual) if actual == correct_mask_first));
    assert!(matches!(board[1][3], Cell::Candidates(actual) if actual == correct_mask_first));

    let correct_mask_second = mask(&[6, 8]);
    assert!(matches!(board[4][3], Cell::Candidates(actual) if actual == correct_mask_second));
    assert!(matches!(board[7][3], Cell::Candidates(actual) if actual == correct_mask_second));
}

#[test]
fn shared_two_candidates_are_not_necessarily_a_hidden_pair_column() {
    let mut board = candidate_board(true);

    board[0][3] = Cell::Candidates(mask(&[2, 4, 7, 9]));
    board[1][3] = Cell::Candidates(mask(&[1, 2, 7]));
    board[2][3] = Cell::Candidates(mask(&[2, 3]));

    let before = board;

    assert!(!determine_hidden_doubles(&mut board));
    assert_eq!(board, before);
}

#[test]
fn hidden_pairs_two_candidate_cells_box() {
    let mut board = candidate_board(false);
    board[0][0] = Cell::Candidates(mask(&[2, 4, 7, 9]));
    board[1][1] = Cell::Candidates(mask(&[1, 2, 7]));

    assert!(determine_hidden_doubles(&mut board));
    let correct_mask = mask(&[2, 7]);
    assert!(matches!(board[0][0], Cell::Candidates(actual) if actual == correct_mask));
    assert!(matches!(board[1][1], Cell::Candidates(actual) if actual == correct_mask));
}

#[test]
fn hidden_pairs_four_candidate_cells_box() {
    let mut board = candidate_board(false);
    board[0][0] = Cell::Candidates(mask(&[2, 4, 7, 9]));
    board[1][1] = Cell::Candidates(mask(&[1, 2, 7]));
    board[1][2] = Cell::Candidates(mask(&[3, 6, 8]));
    board[2][1] = Cell::Candidates(mask(&[5, 6, 8]));

    assert!(determine_hidden_doubles(&mut board));
    let correct_mask_first = mask(&[2, 7]);
    assert!(matches!(board[0][0], Cell::Candidates(actual) if actual == correct_mask_first));
    assert!(matches!(board[1][1], Cell::Candidates(actual) if actual == correct_mask_first));

    let correct_mask_second = mask(&[6, 8]);
    assert!(matches!(board[1][2], Cell::Candidates(actual) if actual == correct_mask_second));
    assert!(matches!(board[2][1], Cell::Candidates(actual) if actual == correct_mask_second));
}

#[test]
fn shared_two_candidates_are_not_necessarily_a_hidden_pair_box() {
    let mut board = candidate_board(true);

    board[0][0] = Cell::Candidates(mask(&[2, 4, 7, 9]));
    board[1][1] = Cell::Candidates(mask(&[1, 2, 7]));
    board[2][2] = Cell::Candidates(mask(&[2, 3]));

    let before = board;

    assert!(!determine_hidden_doubles(&mut board));
    assert_eq!(board, before);
}
