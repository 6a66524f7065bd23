use vstd::prelude::*;

use crate::candidates::clear_cell;
use crate::helpers::{
    board_from, in9, lemma_board_ext, lemma_board_from, lemma_candidate_entries, lemma_unit_geometry, lemma_unit_sees,
    row_col_to_box_index, sees, unit_candidate_masks, unit_cells, unit_col, unit_entries, unit_of, unit_position, unit_row,
    UnitMode,
};
use crate::rules::{clears_only, allows, cell_refines, cell_without, consistent, is_solution, lemma_mask_without, lemma_refines_strict, lemma_refines_trans, refines};
use crate::singles::first_candidate;
use crate::types::{
    and_count, both, count_bits, lemma_count_congruent, lemma_count_exact, lemma_count_one, lemma_count_single, lemma_count_two, mask_pred,
    BasicGrid, BitMask, BitMaskExt, Board, Cell,
};

verus! {

/// The cells of an XYZ-wing: the two wing cells XZ and YZ and the shared digit `z`.
#[derive(PartialEq, Debug)]
pub struct Xyz {
    pub xz_row: usize,
    pub xz_col: usize,
    pub yz_row: usize,
    pub yz_col: usize,
    pub z: usize,
}

/// Whether the cell at (`r1`, `c1`) sees the cell at (`r2`, `c2`): they are different
/// and share a row, a column or a box.
pub fn visible_to(r1: usize, c1: usize, r2: usize, c2: usize) -> (visible: bool)
    requires
        r1 < 9,
        c1 < 9,
        r2 < 9,
        c2 < 9,
    ensures
        visible == sees(r1 as int, c1 as int, r2 as int, c2 as int),
{
    if r1 == r2 && c1 != c2 {
        return true;
    }
    if c1 == c2 && r1 != r2 {
        return true;
    }
    let b1 = row_col_to_box_index(r1, c1);
    let b2 = row_col_to_box_index(r2, c2);
    if b1 == b2 && r1 != r2 && c1 != c2 {
        return true;
    }
    false
}

/// The kinds of unit searched for the XZ and the YZ cell, for the three searches in
/// order: row and column, row and box, column and box.
pub open spec fn combo_modes(ci: int) -> (UnitMode, UnitMode) {
    if ci == 0 {
        (UnitMode::Row, UnitMode::Column)
    } else if ci == 1 {
        (UnitMode::Row, UnitMode::Box)
    } else {
        (UnitMode::Column, UnitMode::Box)
    }
}

/// The candidate cells of the unit of kind `mode` through (`row`, `col`).
pub open spec fn wing_entries(b: Board, row: int, col: int, mode: UnitMode) -> Seq<(usize, BitMask)> {
    unit_entries(b, mode, unit_of(mode, row, col))
}

/// In search `ci`, entry `a` of the XZ unit and entry `bb` of the YZ unit are wing
/// cells for the hinge candidates `hinge`: each has two candidates, both among the
/// hinge's, and they share exactly one.
pub open spec fn xyz_pick(b: Board, hinge: BitMask, row: int, col: int, ci: int, a: int, bb: int) -> bool {
    let xs = wing_entries(b, row, col, combo_modes(ci).0);
    let ys = wing_entries(b, row, col, combo_modes(ci).1);
    &&& 0 <= ci < 3
    &&& 0 <= a < xs.len()
    &&& 0 <= bb < ys.len()
    &&& count_bits(xs[a].1) == 2
    &&& and_count(xs[a].1, hinge) == 2
    &&& count_bits(ys[bb].1) == 2
    &&& and_count(ys[bb].1, hinge) == 2
    &&& and_count(ys[bb].1, xs[a].1) == 1
}

/// The digit index that two masks share.
pub open spec fn common_digit(m1: BitMask, m2: BitMask) -> int {
    choose|d: int| 0 <= d < 9 && m1[d] && m2[d]
}

/// The wing that a pick names.
pub open spec fn xyz_of(b: Board, row: int, col: int, ci: int, a: int, bb: int) -> Xyz {
    let (xm, ym) = combo_modes(ci);
    let xs = wing_entries(b, row, col, xm);
    let ys = wing_entries(b, row, col, ym);
    let xi = unit_of(xm, row, col);
    let yi = unit_of(ym, row, col);
    Xyz {
        xz_row: unit_row(xm, xi, xs[a].0 as int) as usize,
        xz_col: unit_col(xm, xi, xs[a].0 as int) as usize,
        yz_row: unit_row(ym, yi, ys[bb].0 as int) as usize,
        yz_col: unit_col(ym, yi, ys[bb].0 as int) as usize,
        z: (common_digit(ys[bb].1, xs[a].1) + 1) as usize,
    }
}

/// The search order: search, then XZ entry, then YZ entry.
pub open spec fn pick_before(c1: int, a1: int, b1: int, c2: int, a2: int, b2: int) -> bool {
    c1 < c2 || (c1 == c2 && (a1 < a2 || (a1 == a2 && b1 < b2)))
}

/// The pick is the first one in search order.
pub open spec fn first_pick(b: Board, hinge: BitMask, row: int, col: int, ci: int, a: int, bb: int) -> bool {
    xyz_pick(b, hinge, row, col, ci, a, bb) && forall|c2: int, a2: int, b2: int|
        #[trigger] pick_before(c2, a2, b2, ci, a, bb) ==> !xyz_pick(b, hinge, row, col, c2, a2, b2)
}

/// The first wing found for the hinge at (`row`, `col`), if any.
pub open spec fn xyz_found(b: Board, hinge: BitMask, row: int, col: int) -> Option<Xyz> {
    if exists|ci: int, a: int, bb: int| #[trigger] first_pick(b, hinge, row, col, ci, a, bb) {
        let (ci, a, bb) = choose|ci: int, a: int, bb: int| #[trigger] first_pick(b, hinge, row, col, ci, a, bb);
        Some(xyz_of(b, row, col, ci, a, bb))
    } else {
        None
    }
}

/// The first pick is unique, so it is the one that `xyz_found` names.
proof fn lemma_first_pick_unique(b: Board, hinge: BitMask, row: int, col: int, ci: int, a: int, bb: int)
    requires
        first_pick(b, hinge, row, col, ci, a, bb),
    ensures
        xyz_found(b, hinge, row, col) == Some(xyz_of(b, row, col, ci, a, bb)),
{
    let (c2, a2, b2) = choose|c2: int, a2: int, b2: int| #[trigger] first_pick(b, hinge, row, col, c2, a2, b2);
    if pick_before(c2, a2, b2, ci, a, bb) {
        assert(false);
    }
    if pick_before(ci, a, bb, c2, a2, b2) {
        assert(false);
    }
    assert(c2 == ci && a2 == a && b2 == bb);
}

/// Looks for two wing cells for the hinge at (`row`, `col`) with candidates `hinge`:
/// XZ in the hinge's row and YZ in its column, then XZ in its row and YZ in its box,
/// then XZ in its column and YZ in its box; gives the first found.
pub fn xyz_detection(board: &Board, hinge: &BitMask, row: usize, col: usize) -> (found: Option<Xyz>)
    requires
        row < 9,
        col < 9,
    ensures
        found == xyz_found(*board, *hinge, row as int, col as int),
{
    let box_index = row_col_to_box_index(row, col);
    let mut ci: usize = 0;
    while ci < 3
        invariant
            ci <= 3,
            row < 9,
            col < 9,
            box_index == unit_of(UnitMode::Box, row as int, col as int),
            forall|c2: int, a2: int, b2: int| c2 < ci ==> !#[trigger] xyz_pick(*board, *hinge, row as int, col as int, c2, a2, b2),
        decreases 3 - ci,
    {
        let (xz_mode, yz_mode) = if ci == 0 {
            (UnitMode::Row, UnitMode::Column)
        } else if ci == 1 {
            (UnitMode::Row, UnitMode::Box)
        } else {
            (UnitMode::Column, UnitMode::Box)
        };
        let xz_index = match xz_mode {
            UnitMode::Row => row,
            UnitMode::Column => col,
            UnitMode::Box => box_index,
        };
        let yz_index = match yz_mode {
            UnitMode::Row => row,
            UnitMode::Column => col,
            UnitMode::Box => box_index,
        };
        let xz_candidate_set = unit_candidate_masks(board, xz_index, xz_mode);
        let yz_candidate_set = unit_candidate_masks(board, yz_index, yz_mode);
        let ghost xs = xz_candidate_set@;
        let ghost ys = yz_candidate_set@;
        assert(combo_modes(ci as int) == (xz_mode, yz_mode));
        assert(xs == wing_entries(*board, row as int, col as int, xz_mode));
        assert(ys == wing_entries(*board, row as int, col as int, yz_mode));
        proof {
            lemma_candidate_entries(unit_cells(*board, xz_mode, xz_index as int), 9);
            lemma_candidate_entries(unit_cells(*board, yz_mode, yz_index as int), 9);
        }
        let mut a: usize = 0;
        while a < xz_candidate_set.len()
            invariant
                a <= xs.len(),
                ci < 3,
                row < 9,
                col < 9,
                xz_index < 9,
                yz_index < 9,
                xz_index == unit_of(xz_mode, row as int, col as int),
                yz_index == unit_of(yz_mode, row as int, col as int),
                box_index == unit_of(UnitMode::Box, row as int, col as int),
                combo_modes(ci as int) == (xz_mode, yz_mode),
                xz_candidate_set@ == xs,
                yz_candidate_set@ == ys,
                xs == wing_entries(*board, row as int, col as int, xz_mode),
                ys == wing_entries(*board, row as int, col as int, yz_mode),
                forall|t: int| 0 <= t < xs.len() ==> (#[trigger] xs[t]).0 < 9,
                forall|t: int| 0 <= t < ys.len() ==> (#[trigger] ys[t]).0 < 9,
                forall|c2: int, a2: int, b2: int|
                    c2 < ci || (c2 == ci && a2 < a) ==> !#[trigger] xyz_pick(*board, *hinge, row as int, col as int, c2, a2, b2),
            decreases xs.len() - a,
        {
            let (xz_idx, xz) = xz_candidate_set[a];
            let n_xz = xz.bits_set();
            let xz_h = xz.bits_and(hinge);
            let n_xz_h = xz_h.bits_set();
            proof {
                lemma_count_congruent(mask_pred(xz_h), both(xz, *hinge), 9);
            }
            if n_xz == 2 && n_xz_h == 2 {
                let mut bb: usize = 0;
                while bb < yz_candidate_set.len()
                    invariant
                        bb <= ys.len(),
                        a < xs.len(),
                        ci < 3,
                        row < 9,
                        col < 9,
                        xz_index < 9,
                        yz_index < 9,
                        xz_index == unit_of(xz_mode, row as int, col as int),
                        yz_index == unit_of(yz_mode, row as int, col as int),
                        combo_modes(ci as int) == (xz_mode, yz_mode),
                        xz_candidate_set@ == xs,
                        yz_candidate_set@ == ys,
                        xs == wing_entries(*board, row as int, col as int, xz_mode),
                        ys == wing_entries(*board, row as int, col as int, yz_mode),
                        (xz_idx, xz) == xs[a as int],
                        count_bits(xz) == 2,
                        and_count(xz, *hinge) == 2,
                        forall|t: int| 0 <= t < xs.len() ==> (#[trigger] xs[t]).0 < 9,
                        forall|t: int| 0 <= t < ys.len() ==> (#[trigger] ys[t]).0 < 9,
                        forall|c2: int, a2: int, b2: int|
                            c2 < ci || (c2 == ci && a2 < a) || (c2 == ci && a2 == a && b2 < bb) ==> !#[trigger] xyz_pick(
                                *board,
                                *hinge,
                                row as int,
                                col as int,
                                c2,
                                a2,
                                b2,
                            ),
                    decreases ys.len() - bb,
                {
                    let (yz_idx, yz) = yz_candidate_set[bb];
                    let n_yz = yz.bits_set();
                    let yz_h = yz.bits_and(hinge);
                    let n_yz_h = yz_h.bits_set();
                    let common = yz.bits_and(&xz);
                    let n_common = common.bits_set();
                    proof {
                        lemma_count_congruent(mask_pred(yz_h), both(yz, *hinge), 9);
                        lemma_count_congruent(mask_pred(common), both(yz, xz), 9);
                    }
                    if n_yz == 2 && n_yz_h == 2 && n_common == 1 {
                        proof {
                            lemma_count_single(common);
                        }
                        let value = first_candidate(&common) + 1;
                        let (xz_row, xz_col) = unit_position(xz_mode, xz_index, xz_idx);
                        let (yz_row, yz_col) = unit_position(yz_mode, yz_index, yz_idx);
                        proof {
                            assert(xyz_pick(*board, *hinge, row as int, col as int, ci as int, a as int, bb as int));
                            assert(first_pick(*board, *hinge, row as int, col as int, ci as int, a as int, bb as int));
                            lemma_first_pick_unique(*board, *hinge, row as int, col as int, ci as int, a as int, bb as int);
                            let d = common_digit(yz, xz);
                            assert(common[d]);
                            assert(d == value - 1);
                        }
                        return Some(Xyz { xz_row, xz_col, yz_row, yz_col, z: value });
                    }
                    bb = bb + 1;
                }
            }
            a = a + 1;
        }
        ci = ci + 1;
    }
    proof {
        assert forall|c2: int, a2: int, b2: int| !#[trigger] first_pick(*board, *hinge, row as int, col as int, c2, a2, b2) by {
            if c2 >= 3 {
            }
        }
    }
    None
}

/// The cell at (`r`, `c`) sees both wing cells and the hinge at (`row`, `col`).
pub open spec fn xyz_target(row: int, col: int, x: Xyz, r: int, c: int) -> bool {
    sees(r, c, x.xz_row as int, x.xz_col as int) && sees(r, c, x.yz_row as int, x.yz_col as int) && sees(r, c, row, col)
}

/// The cell at (`r`, `c`) after the wing `x` of the hinge at (`row`, `col`) removed its
/// digit from it, if it sees the hinge and both wing cells.
pub open spec fn xyz_cleared_cell(b: Board, row: int, col: int, x: Xyz, r: int, c: int) -> Cell {
    if xyz_target(row, col, x, r, c) {
        cell_without(b[r][c], x.z - 1)
    } else {
        b[r][c]
    }
}

/// The board after the wing `x` of the hinge at (`row`, `col`) removed its digit from
/// every candidate cell that sees the hinge and both wing cells.
pub open spec fn xyz_cleared(b: Board, row: int, col: int, x: Xyz) -> Board {
    board_from(b, |r: int, c: int| xyz_cleared_cell(b, row, col, x, r, c), 81)
}

/// Removing the wing's digit would leave a target cell with no candidate.
pub open spec fn xyz_empties(b: Board, row: int, col: int, x: Xyz) -> bool {
    exists|r: int, c: int|
        in9(r) && in9(c) && xyz_target(row, col, x, r, c) && (#[trigger] b[r][c]) is Candidates && b[r][c]->Candidates_0[x.z - 1]
            && count_bits(b[r][c]->Candidates_0) == 1
}

/// The XYZ-wing step for the hinge at the `p`-th cell in row-major order: `None` when it
/// would leave a cell with no candidate.
pub open spec fn xyz_step(b: Board, p: int) -> Option<Board> {
    let row = p / 9;
    let col = p % 9;
    if b[row][col] is Candidates && count_bits(b[row][col]->Candidates_0) == 3 {
        match xyz_found(b, b[row][col]->Candidates_0, row, col) {
            Some(x) => if xyz_empties(b, row, col, x) {
                None
            } else {
                Some(xyz_cleared(b, row, col, x))
            },
            None => Some(b),
        }
    } else {
        Some(b)
    }
}

/// The XYZ-wing steps for the hinges among the first `n` cells, `None` once one of them
/// would leave a cell with no candidate.
pub open spec fn xyz_upto(b: Board, n: nat) -> Option<Board>
    decreases n,
{
    if n == 0 {
        Some(b)
    } else {
        match xyz_upto(b, (n - 1) as nat) {
            Some(b1) => xyz_step(b1, n - 1),
            None => None,
        }
    }
}

proof fn lemma_xyz_upto_prefix(b: Board, n: nat, m: nat)
    requires
        n <= m,
        xyz_upto(b, m) is Some,
    ensures
        xyz_upto(b, n) is Some,
    decreases m - n,
{
    if n < m {
        lemma_xyz_upto_prefix(b, (n + 1) as nat, m);
    }
}

/// Removes, for every hinge cell with three candidates and its first XYZ-wing, the
/// wing's digit from every candidate cell that sees the hinge and both wing cells;
/// tells whether any candidate was removed.
pub fn xyz_wing(board: &mut Board) -> (change: bool)
    requires
        xyz_upto(*old(board), 81) is Some,
    ensures
        Some(*final(board)) == xyz_upto(*old(board), 81),
        change == (*final(board) != *old(board)),
        refines(*old(board), *final(board)),
        clears_only(*old(board), *final(board)),
        forall|s: BasicGrid| is_solution(s) && consistent(*old(board), s) ==> consistent(*final(board), s),
{
    let mut change = false;
    let mut row: usize = 0;
    while row < 9
        invariant
            row <= 9,
            xyz_upto(*old(board), 81) is Some,
            Some(*board) == xyz_upto(*old(board), (row * 9) as nat),
            change == (*board != *old(board)),
            refines(*old(board), *board),
            clears_only(*old(board), *board),
            forall|s: BasicGrid| is_solution(s) && consistent(*old(board), s) ==> consistent(*board, s),
        decreases 9 - row,
    {
        let mut col: usize = 0;
        while col < 9
            invariant
                row < 9,
                col <= 9,
                xyz_upto(*old(board), 81) is Some,
                Some(*board) == xyz_upto(*old(board), (row * 9 + col) as nat),
                change == (*board != *old(board)),
                refines(*old(board), *board),
                clears_only(*old(board), *board),
            clears_only(*old(board), *board),
                forall|s: BasicGrid| is_solution(s) && consistent(*old(board), s) ==> consistent(*board, s),
            decreases 9 - col,
        {
            let ghost before = *board;
            let ghost p = row * 9 + col;
            proof {
                assert(p / 9 == row && p % 9 == col);
                lemma_xyz_upto_prefix(*old(board), (p + 1) as nat, 81);
            }
            if let Cell::Candidates(hinge) = board[row][col] {
                if hinge.bits_set() == 3 {
                    let xyz = xyz_detection(board, &hinge, row, col);
                    if let Some(result) = xyz {
                        proof {
                            lemma_xyz_found_sane(before, hinge, row as int, col as int);
                        }
                        let ghost x = result;
                        let z_idx = result.z - 1;
                        let mut r: usize = 0;
                        while r < 9
                            invariant
                                r <= 9,
                                row < 9,
                                col < 9,
                                x == result,
                                z_idx == x.z - 1,
                                z_idx < 9,
                                x.xz_row < 9 && x.xz_col < 9 && x.yz_row < 9 && x.yz_col < 9,
                                forall|r2: int, c2: int|
                                    in9(r2) && in9(c2) ==> #[trigger] board[r2][c2] == if r2 < r {
                                        xyz_cleared_cell(before, row as int, col as int, x, r2, c2)
                                    } else {
                                        before[r2][c2]
                                    },
                                change == (*board != *old(board)),
                                refines(*old(board), before),
                            decreases 9 - r,
                        {
                            let mut c: usize = 0;
                            while c < 9
                                invariant
                                    r < 9,
                                    c <= 9,
                                    row < 9,
                                    col < 9,
                                    x == result,
                                    z_idx == x.z - 1,
                                    z_idx < 9,
                                    x.xz_row < 9 && x.xz_col < 9 && x.yz_row < 9 && x.yz_col < 9,
                                    forall|r2: int, c2: int|
                                        in9(r2) && in9(c2) ==> #[trigger] board[r2][c2] == if r2 < r || (r2 == r && c2 < c) {
                                            xyz_cleared_cell(before, row as int, col as int, x, r2, c2)
                                        } else {
                                            before[r2][c2]
                                        },
                                    change == (*board != *old(board)),
                                    refines(*old(board), before),
                                decreases 9 - c,
                            {
                                let v1 = visible_to(r, c, result.xz_row, result.xz_col);
                                let v2 = visible_to(r, c, result.yz_row, result.yz_col);
                                let v3 = visible_to(r, c, row, col);
                                let visible = v1 && v2 && v3;
                                let ghost prev = *board;
                                if let Cell::Candidates(mask) = board[r][c] {
                                    if visible && mask[z_idx] {
                                        clear_cell(board, r, c, z_idx);
                                        change = true;
                                        proof {
                                            lemma_mask_without(mask, z_idx as int);
                                            assert(!board[r as int][c as int]->Candidates_0[z_idx as int]);
                                            assert(board[r as int][c as int] != before[r as int][c as int]);
                                            assert(refines(before, *board)) by {
                                                assert forall|r2: int, c2: int| in9(r2) && in9(c2) implies cell_refines(
                                                    #[trigger] before[r2][c2],
                                                    board[r2][c2],
                                                ) by {
                                                    if before[r2][c2] is Candidates {
                                                        lemma_mask_without(before[r2][c2]->Candidates_0, z_idx as int);
                                                    }
                                                }
                                            }
                                            lemma_refines_strict(*old(board), before, *board);
                                        }
                                    } else {
                                        proof {
                                            if visible {
                                                crate::candidates::lemma_mask_without_keeps(before[r as int][c as int], z_idx as int);
                                            }
                                        }
                                    }
                                }
                                c = c + 1;
                            }
                            r = r + 1;
                        }
                        proof {
                            lemma_board_from(before, |r: int, c: int| xyz_cleared_cell(before, row as int, col as int, x, r, c), 81);
                            lemma_board_ext(*board, xyz_cleared(before, row as int, col as int, x));
                            assert(refines(before, *board)) by {
                                assert forall|r2: int, c2: int| in9(r2) && in9(c2) implies cell_refines(
                                    #[trigger] before[r2][c2],
                                    board[r2][c2],
                                ) by {
                                    if before[r2][c2] is Candidates {
                                        lemma_mask_without(before[r2][c2]->Candidates_0, x.z - 1);
                                    }
                                }
                            }
                            lemma_refines_trans(*old(board), before, *board);
                            assert(clears_only(before, *board)) by {
                                assert forall|r2: int, c2: int| in9(r2) && in9(c2) && before[r2][c2] is Candidates implies (#[trigger] board[r2][c2]) is Candidates
                                    && forall|d: int| 0 <= d < 9 && #[trigger] board[r2][c2]->Candidates_0[d] ==> before[r2][c2]->Candidates_0[d] by {
                                    lemma_mask_without(before[r2][c2]->Candidates_0, x.z - 1);
                                }
                            }
                            crate::rules::lemma_clears_only_trans(*old(board), before, *board);
                            assert forall|s: BasicGrid| is_solution(s) && consistent(*old(board), s) implies consistent(*board, s) by {
                                lemma_xyz_step_sound(before, row as int, col as int, s);
                            }
                        }
                    }
                }
            }
            col = col + 1;
        }
        row = row + 1;
    }
    change
}

/// On a board consistent with a solution, the XYZ-wing pass never leaves a cell with no
/// candidate, and never removes the digit that the solution puts in a cell.
pub proof fn lemma_xyz_wing_sound(b: Board, s: BasicGrid, n: nat)
    requires
        n <= 81,
        is_solution(s),
        consistent(b, s),
    ensures
        xyz_upto(b, n) is Some,
        consistent(xyz_upto(b, n)->Some_0, s),
    decreases n,
{
    if n > 0 {
        lemma_xyz_wing_sound(b, s, (n - 1) as nat);
        let b1 = xyz_upto(b, (n - 1) as nat)->Some_0;
        let p = n - 1;
        let row = p / 9;
        let col = p % 9;
        assert(row * 9 + col == p);
        lemma_xyz_step_sound(b1, row, col, s);
    }
}

/// A found wing names cells on the board and a digit from 1 to 9.
proof fn lemma_xyz_found_sane(b: Board, hinge: BitMask, row: int, col: int)
    requires
        in9(row),
        in9(col),
        xyz_found(b, hinge, row, col) is Some,
    ensures
        ({
            let x = xyz_found(b, hinge, row, col)->Some_0;
            x.xz_row < 9 && x.xz_col < 9 && x.yz_row < 9 && x.yz_col < 9 && 1 <= x.z <= 9
        }),
{
    let (ci, a, bb) = choose|ci: int, a: int, bb: int| #[trigger] first_pick(b, hinge, row, col, ci, a, bb);
    let (xm, ym) = combo_modes(ci);
    let xs = wing_entries(b, row, col, xm);
    let ys = wing_entries(b, row, col, ym);
    let xi = unit_of(xm, row, col);
    let yi = unit_of(ym, row, col);
    lemma_unit_geometry(xm, xi);
    lemma_unit_geometry(ym, yi);
    lemma_candidate_entries(unit_cells(b, xm, xi), 9);
    lemma_candidate_entries(unit_cells(b, ym, yi), 9);
    crate::types::lemma_count_zero(both(ys[bb].1, xs[a].1), 9);
    let d = choose|d: int| 0 <= d < 9 && #[trigger] both(ys[bb].1, xs[a].1)(d);
    assert(ys[bb].1[d] && xs[a].1[d]);
}

/// On a board consistent with a solution, the XYZ-wing step for a hinge empties no
/// cell and never removes the digit that the solution puts in a cell.
pub proof fn lemma_xyz_step_sound(b: Board, row: int, col: int, s: BasicGrid)
    requires
        in9(row),
        in9(col),
        is_solution(s),
        consistent(b, s),
    ensures
        xyz_step(b, row * 9 + col) is Some,
        consistent(xyz_step(b, row * 9 + col)->Some_0, s),
{
    let p = row * 9 + col;
    assert(p / 9 == row && p % 9 == col);
    if b[row][col] is Candidates && count_bits(b[row][col]->Candidates_0) == 3 {
        let hinge = b[row][col]->Candidates_0;
        if let Some(x) = xyz_found(b, hinge, row, col) {
            lemma_xyz_found_sane(b, hinge, row, col);
            lemma_xyz_wing_holds_z(b, hinge, row, col, s);
            let z0 = x.z - 1;
            assert forall|r: int, c: int|
                in9(r) && in9(c) && xyz_target(row, col, x, r, c) && (#[trigger] b[r][c]) is Candidates implies s[r][c] != z0 + 1
                && b[r][c]->Candidates_0[s[r][c] - 1] by {
                assert(allows(b[r][c], s[r][c]));
                assert(sees(r, c, x.xz_row as int, x.xz_col as int));
                assert(sees(r, c, x.yz_row as int, x.yz_col as int));
                assert(sees(r, c, row, col));
            }
            if xyz_empties(b, row, col, x) {
                let (r, c) = choose|r: int, c: int|
                    in9(r) && in9(c) && xyz_target(row, col, x, r, c) && (#[trigger] b[r][c]) is Candidates
                        && b[r][c]->Candidates_0[x.z - 1] && count_bits(b[r][c]->Candidates_0) == 1;
                lemma_count_single(b[r][c]->Candidates_0);
                assert(b[r][c]->Candidates_0[s[r][c] - 1]);
                assert(false);
            }
            lemma_board_from(b, |r: int, c: int| xyz_cleared_cell(b, row, col, x, r, c), 81);
            let n = xyz_cleared(b, row, col, x);
            assert forall|r: int, c: int| in9(r) && in9(c) implies allows(#[trigger] n[r][c], s[r][c]) by {
                assert(allows(b[r][c], s[r][c]));
                if xyz_target(row, col, x, r, c) && b[r][c] is Candidates {
                    lemma_mask_without(b[r][c]->Candidates_0, z0);
                }
            }
        }
    }
}

/// On a board consistent with a solution, one of the hinge and the two wing cells of a
/// found wing holds the wing's digit in the solution.
proof fn lemma_xyz_wing_holds_z(b: Board, hinge: BitMask, row: int, col: int, s: BasicGrid)
    requires
        in9(row),
        in9(col),
        b[row][col] == Cell::Candidates(hinge),
        count_bits(hinge) == 3,
        is_solution(s),
        consistent(b, s),
        xyz_found(b, hinge, row, col) is Some,
    ensures
        ({
            let x = xyz_found(b, hinge, row, col)->Some_0;
            s[row][col] == x.z || s[x.xz_row as int][x.xz_col as int] == x.z || s[x.yz_row as int][x.yz_col as int] == x.z
        }),
        ({
            let x = xyz_found(b, hinge, row, col)->Some_0;
            sees(x.xz_row as int, x.xz_col as int, row, col) && sees(x.yz_row as int, x.yz_col as int, row, col)
        }),
{
    let (ci, a, bb) = choose|ci: int, a: int, bb: int| #[trigger] first_pick(b, hinge, row, col, ci, a, bb);
    let x = xyz_found(b, hinge, row, col)->Some_0;
    let (xm, ym) = combo_modes(ci);
    let xs = wing_entries(b, row, col, xm);
    let ys = wing_entries(b, row, col, ym);
    let xi = unit_of(xm, row, col);
    let yi = unit_of(ym, row, col);
    lemma_unit_geometry(xm, xi);
    lemma_unit_geometry(ym, yi);
    lemma_candidate_entries(unit_cells(b, xm, xi), 9);
    lemma_candidate_entries(unit_cells(b, ym, yi), 9);
    let xmask = xs[a].1;
    let ymask = ys[bb].1;
    let kx = xs[a].0 as int;
    let ky = ys[bb].0 as int;
    let (xr, xc) = (unit_row(xm, xi, kx), unit_col(xm, xi, kx));
    let (yr, yc) = (unit_row(ym, yi, ky), unit_col(ym, yi, ky));
    assert(unit_cells(b, xm, xi)[kx] == Cell::Candidates(xmask));
    assert(unit_cells(b, ym, yi)[ky] == Cell::Candidates(ymask));
    assert(b[xr][xc] == Cell::Candidates(xmask));
    assert(b[yr][yc] == Cell::Candidates(ymask));
    // The wing cells are not the hinge.
    assert(xmask != hinge);
    assert(ymask != hinge);
    let kh_x = crate::helpers::pos_in_unit(xm, row, col);
    let kh_y = crate::helpers::pos_in_unit(ym, row, col);
    assert(kx != kh_x);
    assert(ky != kh_y);
    lemma_unit_sees(xm, xi, kx, kh_x);
    lemma_unit_sees(ym, yi, ky, kh_y);
    // The masks: xmask and ymask are two hinge candidates each, sharing exactly z0.
    let z0 = common_digit(ymask, xmask);
    crate::types::lemma_count_zero(both(ymask, xmask), 9);
    let dd = choose|d: int| 0 <= d < 9 && #[trigger] both(ymask, xmask)(d);
    assert(ymask[dd] && xmask[dd]);
    assert(ymask[z0] && xmask[z0] && 0 <= z0 < 9);
    lemma_xyz_subset(xmask, hinge);
    lemma_xyz_subset(ymask, hinge);
    // The solution digits.
    assert(allows(b[row][col], s[row][col]));
    assert(allows(b[xr][xc], s[xr][xc]));
    assert(allows(b[yr][yc], s[yr][yc]));
    let dh = s[row][col] - 1;
    let dx = s[xr][xc] - 1;
    let dy = s[yr][yc] - 1;
    assert(x.z == z0 + 1);
    if dh != z0 && dx != z0 && dy != z0 {
        // dx and z0 are the two candidates of xmask, dy and z0 those of ymask.
        assert(xmask[dx] && ymask[dy]);
        crate::types::lemma_count_pair(mask_pred(xmask), z0, dx, 9);
        crate::types::lemma_count_pair(mask_pred(ymask), z0, dy, 9);
        assert(s[xr][xc] != s[row][col]);
        assert(s[yr][yc] != s[row][col]);
        assert(dx != dh && dy != dh);
        if dx == dy {
            lemma_count_two(both(ymask, xmask), if z0 < dx { z0 } else { dx }, if z0 < dx { dx } else { z0 }, 9);
            assert(false);
        }
        // The hinge holds z0, dx, dy and dh: four different candidates.
        assert(hinge[z0] && hinge[dx] && hinge[dy] && hinge[dh]);
        let xsq = seq![z0, dx, dy];
        assert(xsq.no_duplicates());
        assert forall|i: int| 0 <= i < xsq.len() implies 0 <= #[trigger] xsq[i] < 9 && mask_pred(hinge)(xsq[i]) by {}
        lemma_count_exact(mask_pred(hinge), xsq, 9);
        assert(mask_pred(hinge)(dh));
        assert(xsq.contains(dh));
        assert(false);
    }
}

/// A mask with two candidates that shares two candidates with `hinge` is part of it.
proof fn lemma_xyz_subset(m: BitMask, hinge: BitMask)
    requires
        count_bits(m) == 2,
        and_count(m, hinge) == 2,
    ensures
        forall|d: int| 0 <= d < 9 && m[d] ==> hinge[d],
{
    assert forall|d: int| 0 <= d < 9 && m[d] implies hinge[d] by {
        if !hinge[d] {
            crate::types::lemma_count_zero(both(m, hinge), 9);
            let e1 = choose|e: int| 0 <= e < 9 && #[trigger] both(m, hinge)(e);
            assert(m[e1] && hinge[e1]);
            lemma_count_pair_other(m, hinge, e1);
            let e2 = choose|e: int| 0 <= e < 9 && e != e1 && m[e] && hinge[e];
            assert(e1 != d && e2 != d);
            let xsq = seq![e1, e2, d];
            assert(xsq.no_duplicates());
            assert forall|i: int| 0 <= i < xsq.len() implies 0 <= #[trigger] xsq[i] < 9 && mask_pred(m)(xsq[i]) by {}
            crate::types::lemma_count_distinct(mask_pred(m), xsq, 9);
            assert(false);
        }
    }
}

/// Two masks that share two candidates share one other than any given shared one.
proof fn lemma_count_pair_other(m: BitMask, hinge: BitMask, e1: int)
    requires
        and_count(m, hinge) == 2,
        0 <= e1 < 9,
        m[e1] && hinge[e1],
    ensures
        exists|e: int| 0 <= e < 9 && e != e1 && m[e] && hinge[e],
{
    if !exists|e: int| 0 <= e < 9 && e != e1 && m[e] && hinge[e] {
        let g = |e: int| e == e1;
        lemma_count_congruent(both(m, hinge), g, 9);
        lemma_count_is_single(e1);
        assert(false);
    }
}

/// The predicate "is `e1`" counts one on `0..9`.
proof fn lemma_count_is_single(e1: int)
    requires
        0 <= e1 < 9,
    ensures
        crate::types::count_pred(|e: int| e == e1, 9) == 1,
{
    let g = |e: int| e == e1;
    crate::types::lemma_count_is_len(g, 9);
    assert(crate::types::pred_set(g, 9) =~= set![e1]);
}

} // verus!
