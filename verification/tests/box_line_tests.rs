use sudoku::box_line::{detect_lines_in_pointing_set, eliminate_pointing_sets};
use sudoku::helpers::UnitMode;
use sudoku::types::{BitMask, Board, Cell};

fn mask(values: &[usize]) -> BitMask {
    let mut result = [false; 9];
    for &value in values {
        result[value - 1] = true;
    }
    result
}

fn candidate_board() -> Board {
    std::array::from_fn(|_| {
        std::array::from_fn(|_| Cell::Candidates([false; 9]))
    })
}

#[test]
fn eliminate_pointing_sets_eliminates_from_row() {
    let mut board = candidate_board();
    board[3][3] = Cell::Candidates(mask(&[2, 5]));
    board[3][4] = Cell::Candidates(mask(&[1, 4]));
    board[3][5] = Cell::Candidates(mask(&[3, 5]));

    board[3][0] = Cell::Candidates(mask(&[1, 5, 7]));
    board[3][6] = Cell::Candidates(mask(&[1, 5, 8]));

    assert!(eliminate_pointing_sets(&mut board));

    let correct_mask_0 = mask(&[1,7]);
    assert!(matches!(board[3][0], Cell::Candidates(actual) if actual == correct_mask_0));

    let correct_mask_1 = mask(&[1,8]);
    assert!(matches!(board[3][6], Cell::Candidates(actual) if actual == correct_mask_1));
}

#[test]
fn eliminate_pointing_sets_avoids_elimination_when_not_unique_in_row() {
    let mut board = candidate_board();
    board[3][3] = Cell::Candidates(mask(&[2, 5]));
    board[4][4] = Cell::Candidates(mask(&[1, 5]));
    board[3][5] = Cell::Candidates(mask(&[3, 5]));

    board[3][0] = Cell::Candidates(mask(&[1, 5, 7]));
    board[3][6] = Cell::Candidates(mask(&[1, 5, 8]));

    assert!(!eliminate_pointing_sets(&mut board));

    let correct_mask_0 = mask(&[1, 5,7]);
    assert!(matches!(board[3][0], Cell::Candidates(actual) if actual == correct_mask_0));

    let correct_mask_1 = mask(&[1, 5, 8]);
    assert!(matches!(board[3][6], Cell::Candidates(actual) if actual == correct_mask_1));
}

#[test]
fn detect_lines_in_pointing_set_identifies_row() {
    let indices = vec![0,1,2];
    let result = detect_lines_in_pointing_set(&indices);
    assert!(result == Some((0, UnitMode::Row)));
}

#[test]
fn detect_lines_in_pointing_set_identifies_column() {
    let indices = vec![1,4,7];
    let result = detect_lines_in_pointing_set(&indices);
    assert!(result == Some((1, UnitMode::Column)));
}

 #[test]
fn detect_lines_in_pointing_set_identifies_skipped_row() {
    let indices = vec![0,2];
    let result = detect_lines_in_pointing_set(&indices);
    assert!(result == Some((0, UnitMode::Row)));
}

#[test]
fn detect_lines_in_pointing_set_identifies_skipped_column() {
    let indices = vec![1,7];
    let result = detect_lines_in_pointing_set(&indices);
    assert!(result == Some((1, UnitMode::Column)));
}

#[test]
fn detect_lines_in_pointing_set_rejects_row() {
    let indices = vec![0,2,3];
    let result = detect_lines_in_pointing_set(&indices);
    assert!(result == None)
}

#[test]
fn detect_lines_in_pointing_set_rejects_column() {
    let indices = vec![1,5,7];
    let result = detect_lines_in_pointing_set(&indices);
    assert!(result == None)
}
