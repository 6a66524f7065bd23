use sudoku::heuristics::xyz_wing::{xyz_detection, xyz_wing, Xyz};
use sudoku::types::{BitMask, Board, Cell};

fn mask(values: &[usize]) -> BitMask {
    let mut result = [false; 9];
    for &value in values {
        result[value - 1] = true;
    }
    result
}

fn candidate_board(b: bool) -> Board {
    std::array::from_fn(|_| {
        std::array::from_fn(|_| Cell::Candidates([b; 9]))
    })
}

#[test]
fn xyz_detection_returns_correct_candidates_row_col() {
    let mut board = candidate_board(true);
    let hinge = mask(&[1,2,4]);
    
    board[3][8] = Cell::Candidates(mask(&[1,2]));
    board[5][1] = Cell::Candidates(mask(&[1,4]));
    board[5][8] = Cell::Candidates(hinge);

    let correct_result: Xyz = Xyz { xz_row: 5, xz_col: 1, yz_row: 3, yz_col: 8, z: 1 };

    let result = xyz_detection(&board, &hinge, 5, 8);

    assert!(result.is_some());
    assert_eq!(correct_result, result.unwrap());
}

#[test]
fn xyz_detection_returns_correct_candidates_row_box() {
    let mut board = candidate_board(true);
    let hinge = mask(&[4,6,7]);
    
    board[3][6] = Cell::Candidates(mask(&[6,7]));
    board[4][5] = Cell::Candidates(mask(&[4,6]));
    board[4][7] = Cell::Candidates(hinge);

    let correct_result: Xyz = Xyz { xz_row: 4, xz_col: 5, yz_row: 3, yz_col: 6, z: 6 };

    let result = xyz_detection(&board, &hinge, 4, 7);

    assert!(result.is_some());
    assert_eq!(correct_result, result.unwrap());
}

#[test]
fn xyz_detection_returns_correct_candidates_col_box() {
    let mut board = candidate_board(true);
    let hinge = mask(&[4,6,7]);
    
    board[6][3] = Cell::Candidates(mask(&[6,7]));
    board[5][4] = Cell::Candidates(mask(&[4,6]));
    board[7][4] = Cell::Candidates(hinge);

    let correct_result: Xyz = Xyz { xz_row: 5, xz_col: 4, yz_row: 6, yz_col: 3, z: 6 };

    let result = xyz_detection(&board, &hinge, 7,4);

    assert!(result.is_some());
    assert_eq!(correct_result, result.unwrap());
}

    #[test]
fn xyz_eliminates_correct_candidates_row_col() {
    let mut board = candidate_board(true);
    let hinge = mask(&[1,2,4]);
    
    board[3][8] = Cell::Candidates(mask(&[1,2]));
    board[5][1] = Cell::Candidates(mask(&[1,4]));
    board[5][8] = Cell::Candidates(hinge);

    board[5][6] = Cell::Candidates(mask(&[1,4,8]));

    assert!(xyz_wing(&mut board));

    let correct_mask = Cell::Candidates(mask(&[4,8]));

    assert_eq!(board[5][6], correct_mask);
}

#[test]
fn xyz_eliminates_correct_candidates_row_box() {
    let mut board = candidate_board(true);
    let hinge = mask(&[4,6,7]);
    
    board[3][6] = Cell::Candidates(mask(&[6,7]));
    board[4][5] = Cell::Candidates(mask(&[4,6]));
    board[4][7] = Cell::Candidates(hinge);

    board[4][8] = Cell::Candidates(mask(&[1,6,9]));

    assert!(xyz_wing(&mut board));

    let correct_mask = Cell::Candidates(mask(&[1,9]));

    assert_eq!(board[4][8], correct_mask);
}

#[test]
fn xyz_eliminates_correct_candidates_col_box() {
    let mut board = candidate_board(true);
    let hinge = mask(&[4,6,7]);
    
    board[6][3] = Cell::Candidates(mask(&[6,7]));
    board[5][4] = Cell::Candidates(mask(&[4,6]));
    board[7][4] = Cell::Candidates(hinge);

    board[8][4] = Cell::Candidates(mask(&[1,6,9]));

    assert!(xyz_wing(&mut board));

    let correct_mask = Cell::Candidates(mask(&[1,9]));

    assert_eq!(board[8][4], correct_mask);
}
