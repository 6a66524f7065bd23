use sudoku::helpers::{
    box_index_to_row_col, get_unit, get_unit_candidate_masks, row_col_to_box_index, set_unit, set_unit_candidate_masks, UnitMode,
};
use sudoku::heuristics::xyz_wing::visible_to;
use sudoku::subsets::iterate_for_subsets;
use sudoku::types::{BitMask, BitMaskExt, Board, Cell};

fn mask(values: &[usize]) -> BitMask {
    let mut result = [false; 9];
    for &value in values {
        result[value - 1] = true;
    }
    result
}

fn value_board() -> Board {
    let mut board: Board = [[Cell::Empty; 9]; 9];
    for r in 0..9 {
        for c in 0..9 {
            board[r][c] = Cell::Value((r * 9 + c) as i16);
        }
    }
    board
}

#[test]
fn bits_set_counts_candidates() {
    assert_eq!(mask(&[1, 5, 9]).bits_set(), 3);
    assert_eq!([false; 9].bits_set(), 0);
    assert_eq!([true; 9].bits_set(), 9);
}

#[test]
fn and_mask_keeps_shared_candidates() {
    let both = <BitMask as BitMaskExt>::and_mask(&mask(&[1, 2, 3]), &mask(&[2, 3, 4]));
    assert_eq!(both, mask(&[2, 3]));
    assert_eq!(mask(&[1, 2, 3]).bits_and(&mask(&[3, 9])), mask(&[3]));
}

#[test]
fn or_adds_candidates_and_returns_the_union() {
    let mut m = mask(&[1, 2]);
    let union = m.or(&mask(&[2, 8]));
    assert_eq!(union, mask(&[1, 2, 8]));
    assert_eq!(m, mask(&[1, 2, 8]));
}

#[test]
fn and_keeps_only_shared_candidates() {
    let mut m = mask(&[1, 2, 7]);
    m.and(&mask(&[2, 7, 9]));
    assert_eq!(m, mask(&[2, 7]));
}

#[test]
fn remove_reports_whether_a_candidate_went() {
    let mut m = mask(&[1, 2, 7]);
    assert!(m.remove(&mask(&[2, 4])));
    assert_eq!(m, mask(&[1, 7]));
    assert!(!m.remove(&mask(&[2, 4])));
    assert_eq!(m, mask(&[1, 7]));
}

#[test]
fn box_indices_go_row_by_row() {
    assert_eq!(row_col_to_box_index(0, 0), 0);
    assert_eq!(row_col_to_box_index(4, 7), 5);
    assert_eq!(row_col_to_box_index(8, 3), 7);
    assert_eq!(box_index_to_row_col(5, 0), (3, 6));
    assert_eq!(box_index_to_row_col(5, 7), (5, 7));
    assert_eq!(box_index_to_row_col(7, 2), (6, 5));
}

#[test]
fn get_unit_reads_rows_columns_and_boxes() {
    let board = value_board();
    let row = get_unit(&board, 2, UnitMode::Row);
    assert_eq!(row[4], Cell::Value(22));
    let col = get_unit(&board, 2, UnitMode::Column);
    assert_eq!(col[4], Cell::Value(38));
    let bx = get_unit(&board, 4, UnitMode::Box);
    assert_eq!(bx[0], Cell::Value(30));
    assert_eq!(bx[5], Cell::Value(41));
}

#[test]
fn get_unit_candidate_masks_lists_candidate_cells_with_their_index() {
    let mut board = value_board();
    board[4][1] = Cell::Candidates(mask(&[1, 2]));
    board[4][6] = Cell::Candidates(mask(&[3]));
    board[5][7] = Cell::Candidates(mask(&[9]));
    let row = get_unit_candidate_masks(&board, 4, 0, UnitMode::Row);
    assert_eq!(row, vec![(1, mask(&[1, 2])), (6, mask(&[3]))]);
    let col = get_unit_candidate_masks(&board, 0, 6, UnitMode::Column);
    assert_eq!(col, vec![(4, mask(&[3]))]);
    let bx = get_unit_candidate_masks(&board, 3, 8, UnitMode::Box);
    assert_eq!(bx, vec![(3, mask(&[3])), (7, mask(&[9]))]);
}

#[test]
fn set_unit_writes_the_unit_and_reports_change() {
    let mut board = value_board();
    let cells = get_unit(&board, 6, UnitMode::Box);
    assert!(!set_unit(&mut board, 6, &cells, UnitMode::Box));
    let mut changed = cells;
    changed[8] = Cell::Empty;
    assert!(set_unit(&mut board, 6, &changed, UnitMode::Box));
    assert_eq!(board[8][2], Cell::Empty);
    assert_eq!(board[8][3], Cell::Value(75));
}

#[test]
fn set_unit_candidate_masks_replaces_named_masks() {
    let mut board = value_board();
    board[0][3] = Cell::Candidates(mask(&[1, 2, 3]));
    board[8][3] = Cell::Candidates(mask(&[4]));
    assert!(set_unit_candidate_masks(&mut board, 3, &[(0, mask(&[2])), (8, mask(&[4]))], UnitMode::Column));
    assert_eq!(board[0][3], Cell::Candidates(mask(&[2])));
    assert_eq!(board[8][3], Cell::Candidates(mask(&[4])));
    assert!(!set_unit_candidate_masks(&mut board, 3, &[(8, mask(&[4]))], UnitMode::Column));
}

#[test]
fn visible_to_needs_a_shared_unit_and_two_cells() {
    assert!(visible_to(0, 0, 0, 8));
    assert!(visible_to(0, 0, 8, 0));
    assert!(visible_to(0, 0, 2, 2));
    assert!(!visible_to(0, 0, 3, 3));
    assert!(!visible_to(4, 4, 4, 4));
}

#[test]
fn iterate_for_subsets_lists_combinations_in_order() {
    let set = vec![1u8, 2, 3, 4];
    let mut subset = Vec::new();
    let mut result = Vec::new();
    iterate_for_subsets(&set, 2, 0, &mut subset, &mut result);
    assert_eq!(result, vec![vec![1, 2], vec![1, 3], vec![1, 4], vec![2, 3], vec![2, 4], vec![3, 4]]);
    assert!(subset.is_empty());
}
