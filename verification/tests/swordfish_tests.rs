use sudoku::swordfish::swordfish_elimination;
use sudoku::types::{BitMask, Board, Cell};

fn mask(values: &[usize]) -> BitMask {
    let mut result = [false; 9];
    for &value in values {
        result[value - 1] = true;
    }
    result
}

fn candidate_board(b: bool) -> Board {
    std::array::from_fn(|_| {
        std::array::from_fn(|_| Cell::Candidates([b; 9]))
    })
}

#[test]
fn swordfish_eliminates_from_pair_in_row() {
    let mut board = candidate_board(true);
    for row in [2, 6] {
        for col in 0..9 {
            if col == 3 || col == 8 {
                continue;
            }
            if let Cell::Candidates(m) = &mut board[row][col]{
                m[6] = false;
            }
        }
    }
    assert!(swordfish_elimination(&mut board));
    for row in 0..9 {
        for col in [3, 8] {
            if row == 2 || row == 6 {
                if let Cell::Candidates(m) = &board[row][col]{
                    assert!(m[6], "Expected value of 7 to be true at ({row}, {col})");
                }
            }
            else if let Cell::Candidates(m) = &board[row][col]{
                assert!(!m[6], "Expected value of 7 to be false at ({row}, {col})");
            }
        }
    }
}

#[test]
fn swordfish_ignores_extra_in_pair_in_row() {
    let mut board = candidate_board(true);
    // Two rows, but three columns, where 7 is a candidate
    for row in [2, 6] {
        for col in 0..9 {
            if col == 3 || col == 5 || col == 8 {
                continue;
            }
            if let Cell::Candidates(m) = &mut board[row][col]{
                m[6] = false;
            }
        }
    }
    assert!(!swordfish_elimination(&mut board));
}

#[test]
fn swordfish_eliminates_from_triple_in_row() {
    let mut board = candidate_board(true);
    for row in [2, 5, 6] {
        for col in 0..9 {
            if col == 3 || col == 4 || col == 8 {
                continue;
            }
            if let Cell::Candidates(m) = &mut board[row][col]{
                m[6] = false;
            }
        }
    }
    assert!(swordfish_elimination(&mut board));
    for row in 0..9 {
        for col in [3, 4, 8] {
            if row == 2 || row == 5 || row == 6 {
                if let Cell::Candidates(m) = &board[row][col]{
                    assert!(m[6], "Expected value of 7 to be true at ({row}, {col})");
                }
            }
            else if let Cell::Candidates(m) = &board[row][col]{
                assert!(!m[6], "Expected value of 7 to be false at ({row}, {col})");
            }
        }
    }
}

#[test]
fn swordfish_ignores_extra_in_triple_in_row() {
    let mut board = candidate_board(true);
    // Three rows, but four columns, where 7 is a candidate
    for row in [2, 5, 6] {
        for col in 0..9 {
            if col == 3 || col == 4 || col == 5 || col == 8 {
                continue;
            }
            if let Cell::Candidates(m) = &mut board[row][col]{
                m[6] = false;
            }
        }
    }
    assert!(!swordfish_elimination(&mut board));
}



#[test]
fn swordfish_eliminates_from_pair_in_column() {
    let mut board = candidate_board(true);
    for col in [2, 6] {
        for row in 0..9 {
            if row == 3 || row == 8 {
                continue;
            }
            if let Cell::Candidates(m) = &mut board[row][col]{
                m[6] = false;
            }
        }
    }
    assert!(swordfish_elimination(&mut board));
    for col in 0..9 {
        for row in [3, 8] {
            if col == 2 || col == 6 {
                if let Cell::Candidates(m) = &board[row][col]{
                    assert!(m[6], "Expected value of 7 to be true at ({row}, {col})");
                }
            }
            else if let Cell::Candidates(m) = &board[row][col]{
                assert!(!m[6], "Expected value of 7 to be false at ({row}, {col})");
            }
        }
    }
}

#[test]
fn swordfish_ignores_extra_in_pair_in_column() {
    let mut board = candidate_board(true);
    // Two columns, but three rows, where 7 is a candidate
    for col in [2, 6] {
        for row in 0..9 {
            if row == 3 || row == 5 || row == 8 {
                continue;
            }
            if let Cell::Candidates(m) = &mut board[row][col]{
                m[6] = false;
            }
        }
    }
    assert!(!swordfish_elimination(&mut board));
}

#[test]
fn swordfish_eliminates_from_triple_in_column() {
    let mut board = candidate_board(true);
    for col in [2, 5, 6] {
        for row in 0..9 {
            if row == 3 || row == 4 || row == 8 {
                continue;
            }
            if let Cell::Candidates(m) = &mut board[row][col]{
                m[6] = false;
            }
        }
    }
    assert!(swordfish_elimination(&mut board));
    for col in 0..9 {
        for row in [3, 4, 8] {
            if col == 2 || col == 5 || col == 6 {
                if let Cell::Candidates(m) = &board[row][col]{
                    assert!(m[6], "Expected value of 7 to be true at ({row}, {col})");
                }
            }
            else if let Cell::Candidates(m) = &board[row][col]{
                assert!(!m[6], "Expected value of 7 to be false at ({row}, {col})");
            }
        }
    }
}

#[test]
fn swordfish_ignores_extra_in_triple_in_column() {
    let mut board = candidate_board(true);
    // Three columns, but four rows, where 7 is a candidate
    for col in [2, 5, 6] {
        for row in 0..9 {
            if row == 3 || row == 4 || row == 5 || row == 8 {
                continue;
            }
            if let Cell::Candidates(m) = &mut board[row][col]{
                m[6] = false;
            }
        }
    }
    assert!(!swordfish_elimination(&mut board));
}
