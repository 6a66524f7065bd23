use sudoku::subsets::determine_naked_subsets;
use sudoku::types::{BitMask, BitMaskExt, Board, Cell};

fn mask(values: &[usize]) -> BitMask {
    let mut result = [false; 9];
    for &value in values {
        result[value - 1] = true;
    }
    result
}

fn candidate_board(b: bool) -> Board {
    std::array::from_fn(|_| {
        std::array::from_fn(|_| Cell::Candidates([b; 9]))
    })
}

#[test]
fn determine_naked_subsets_isolates_triple_in_row() {
    let mut board = candidate_board(true);
    board[3][1] = Cell::Candidates(mask(&[1, 2]));
    board[3][4] = Cell::Candidates(mask(&[2, 3]));
    board[3][7] = Cell::Candidates(mask(&[1, 3]));
    board[3][8] = Cell::Candidates(mask(&[1, 2, 3, 6, 9]));

    assert!(determine_naked_subsets(&mut board));
    let mut correct_mask = mask(&[6, 9]);
    assert!(matches!(board[3][8], Cell::Candidates(actual) if actual == correct_mask));
    correct_mask = mask( &[4, 5, 6, 7, 8, 9]);
    for col in 0..9 {
        if [1,4,7,8].contains(&col) {
            continue;
        }
        if let Cell::Candidates(mask) = board[3][col] {
            assert_eq!(mask, correct_mask);
        }
    }
}

#[test]
fn determine_naked_subsets_ignores_non_triple_in_row() {
    let mut board = candidate_board(true);
    board[3][1] = Cell::Candidates(mask(&[1, 2]));
    board[3][4] = Cell::Candidates(mask(&[2, 3]));
    board[3][7] = Cell::Candidates(mask(&[1, 3, 4]));
    board[3][8] = Cell::Candidates(mask(&[1, 2, 3, 6, 9]));

    assert!(!determine_naked_subsets(&mut board));
    for col in 0..9 {
        if [1,4,7,8].contains(&col) {
            continue;
        }
        if let Cell::Candidates(mask) = board[3][col] {
            assert!(mask.bits_set() == 9);
        }
    }
}

#[test]
fn determine_naked_subsets_isolates_triple_in_column() {
    let mut board = candidate_board(true);
    board[1][3] = Cell::Candidates(mask(&[1, 2]));
    board[4][3] = Cell::Candidates(mask(&[2, 3]));
    board[7][3] = Cell::Candidates(mask(&[1, 3]));
    board[8][3] = Cell::Candidates(mask(&[1, 2, 3, 6, 9]));

    assert!(determine_naked_subsets(&mut board));
    let mut correct_mask = mask(&[6, 9]);
    assert!(matches!(board[8][3], Cell::Candidates(actual) if actual == correct_mask));
    correct_mask = mask( &[4, 5, 6, 7, 8, 9]);
    for row in 0..9 {
        if [1,4,7,8].contains(&row) {
            continue;
        }
        if let Cell::Candidates(mask) = board[row][3] {
            assert_eq!(mask, correct_mask);
        }
    }
}

#[test]
fn determine_naked_subsets_ignores_non_triple_in_column() {
    let mut board = candidate_board(true);
    board[1][3] = Cell::Candidates(mask(&[1, 2]));
    board[4][3] = Cell::Candidates(mask(&[2, 3]));
    board[7][3] = Cell::Candidates(mask(&[1, 3, 4]));
    board[8][3] = Cell::Candidates(mask(&[1, 2, 3, 6, 9]));

    assert!(!determine_naked_subsets(&mut board));
    for row in 0..9 {
        if [1,4,7,8].contains(&row) {
            continue;
        }
        if let Cell::Candidates(mask) = board[row][3] {
            assert!(mask.bits_set() == 9);
        }
    }
}

#[test]
fn determine_naked_subsets_isolates_triple_in_box() {
    let mut board = candidate_board(true);
    board[0][0] = Cell::Candidates(mask(&[1, 2]));
    board[0][1] = Cell::Candidates(mask(&[2, 3]));
    board[1][1] = Cell::Candidates(mask(&[1, 3]));
    board[2][2] = Cell::Candidates(mask(&[1, 2, 3, 6, 9]));

    assert!(determine_naked_subsets(&mut board));
    let mut correct_mask = mask(&[6, 9]);
    assert!(matches!(board[2][2], Cell::Candidates(actual) if actual == correct_mask));
    correct_mask = mask( &[4, 5, 6, 7, 8, 9]);
    for row in 0..3 {
        for col in 0..3 {
            if [(0, 0), (0, 1), (1, 1), (2, 2)].contains(&(row, col))  {
                continue;
            }
            if let Cell::Candidates(mask) = board[row][col] {
                assert_eq!(mask, correct_mask, "Assertion failed at ({row}, {col})");
            }
        }
    }
}

#[test]
fn determine_naked_subsets_ignores_non_triple_in_box() {
    let mut board = candidate_board(true);
    board[0][0] = Cell::Candidates(mask(&[1, 2]));
    board[0][1] = Cell::Candidates(mask(&[2, 3]));
    board[1][1] = Cell::Candidates(mask(&[1, 3, 4]));
    board[2][2] = Cell::Candidates(mask(&[1, 2, 3, 6, 9]));

    assert!(!determine_naked_subsets(&mut board));
    for row in 0..3 {
        for col in 0..3 {
            if [(0, 0), (0, 1), (1, 1), (2, 2)].contains(&(row, col))  {
                continue;
            }
            if let Cell::Candidates(mask) = board[row][col] {
                assert!(mask.bits_set() == 9);
            }
        }
    }
}
