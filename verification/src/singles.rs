use vstd::prelude::*;

use crate::candidates::{
    elimination, seen_value,
    eliminate_candidates, eliminated, elimination_safe, lemma_elimination_refines, lemma_elimination_settles,
    lemma_elimination_sound, lemma_elimination_unique, lemma_refines_keeps_safe,
};
use crate::helpers::{
    board_set, get_unit, in9, lemma_board_ext, lemma_board_set, lemma_unit_geometry, pos_in_unit, same_unit, set_unit,
    sees, unit_cells, unit_col, unit_of, unit_row, UnitMode,
};
use crate::rules::{
    keep_board, lemma_keep_board,
    allows, cell_refines, consistent, is_solution, lemma_refines_strict, lemma_refines_trans, refines, settled, unit_holds,
};
use crate::types::{count_bits, lemma_count_one, lemma_count_single, lemma_count_sub, mask_pred, BasicGrid, BitMask, BitMaskExt, Board, Cell};

verus! {

/// The digit index of a mask that holds exactly one candidate.
pub open spec fn single_digit(m: BitMask) -> int {
    choose|d: int| 0 <= d < 9 && m[d]
}

/// `b` with the digit `d + 1` placed at (`r`, `c`).
pub open spec fn place(b: Board, r: int, c: int, d: int) -> Board {
    board_set(b, r, c, Cell::Value((d + 1) as i16))
}

/// The cell at (`r`, `c`) holds exactly one candidate.
pub open spec fn naked_single_at(b: Board, r: int, c: int) -> bool {
    b[r][c] is Candidates && count_bits(b[r][c]->Candidates_0) == 1
}

/// The naked-singles pass at the `p`-th cell in row-major order: a cell with one
/// candidate gets that digit, and then the whole board is eliminated.
pub open spec fn naked_step(b: Board, p: int) -> Board {
    let r = p / 9;
    let c = p % 9;
    if naked_single_at(b, r, c) {
        eliminated(place(b, r, c, single_digit(b[r][c]->Candidates_0)))
    } else {
        b
    }
}

/// The naked-singles pass over the first `n` cells in row-major order.
pub open spec fn naked_singles_upto(b: Board, n: nat) -> Board
    decreases n,
{
    if n == 0 {
        b
    } else {
        naked_step(naked_singles_upto(b, (n - 1) as nat), n - 1)
    }
}

/// Every naked single among the first `n` cells in row-major order is placed on a
/// board that is safe to eliminate on, so the pass never fails there.
pub open spec fn naked_run_safe(b: Board, n: nat) -> bool
    decreases n,
{
    if n == 0 {
        true
    } else {
        let x = naked_singles_upto(b, (n - 1) as nat);
        let r = (n - 1) / 9;
        let c = (n - 1) % 9;
        &&& naked_run_safe(b, (n - 1) as nat)
        &&& naked_single_at(x, r, c) ==> elimination_safe(place(x, r, c, single_digit(x[r][c]->Candidates_0)))
    }
}

/// A run that is safe up to `n` cells is safe up to any fewer.
proof fn lemma_naked_run_prefix(b: Board, n: nat, m: nat)
    requires
        m <= n,
        naked_run_safe(b, n),
    ensures
        naked_run_safe(b, m),
    decreases n,
{
    if m < n {
        lemma_naked_run_prefix(b, (n - 1) as nat, m);
    }
}

/// The cell at position `k` is the only candidate cell of `cells` that holds the
/// candidate `v`.
pub open spec fn sole_holder(cells: Seq<Cell>, v: int, k: int) -> bool {
    &&& 0 <= k < 9
    &&& cells[k] is Candidates
    &&& cells[k]->Candidates_0[v]
    &&& forall|j: int| 0 <= j < 9 && j != k && (#[trigger] cells[j]) is Candidates ==> !cells[j]->Candidates_0[v]
}

/// The hidden-single step for the digit `v + 1` in a unit: if one cell alone can hold
/// it, it gets it.
pub open spec fn hidden_step(cells: Seq<Cell>, v: int) -> Seq<Cell> {
    if exists|k: int| sole_holder(cells, v, k) {
        cells.update(choose|k: int| sole_holder(cells, v, k), Cell::Value((v + 1) as i16))
    } else {
        cells
    }
}

/// The hidden-single steps for the digits 1 to `n`, in order, in a unit.
pub open spec fn hidden_singles_upto(cells: Seq<Cell>, n: nat) -> Seq<Cell>
    decreases n,
{
    if n == 0 {
        cells
    } else {
        hidden_step(hidden_singles_upto(cells, (n - 1) as nat), n - 1)
    }
}

/// The kind of the `n`-th unit when the rows come first, then the columns, then the boxes.
pub open spec fn mode_at(n: int) -> UnitMode {
    if n < 9 {
        UnitMode::Row
    } else if n < 18 {
        UnitMode::Column
    } else {
        UnitMode::Box
    }
}

/// `b` with the first `n` cells of unit `index` of kind `mode` replaced by those of `cells`.
pub open spec fn write_cells(b: Board, mode: UnitMode, index: int, cells: Seq<Cell>, n: nat) -> Board
    decreases n,
{
    if n == 0 {
        b
    } else {
        board_set(
            write_cells(b, mode, index, cells, (n - 1) as nat),
            unit_row(mode, index, n - 1),
            unit_col(mode, index, n - 1),
            cells[n - 1],
        )
    }
}

/// The hidden-singles pass on the `n`-th unit: its cells get their hidden singles, and
/// if that changed the board, the whole board is eliminated.
pub open spec fn hidden_unit_step(b: Board, n: int) -> Board {
    let mode = mode_at(n);
    let index = n % 9;
    let written = write_cells(b, mode, index, hidden_singles_upto(unit_cells(b, mode, index), 9), 9);
    if written != b {
        eliminated(written)
    } else {
        b
    }
}

/// Every unit among the first `n` whose hidden singles change the board leaves a board
/// that is safe to eliminate on, so the pass never fails there.
pub open spec fn hidden_run_safe(b: Board, n: nat) -> bool
    decreases n,
{
    if n == 0 {
        true
    } else {
        let x = hidden_singles_board(b, (n - 1) as nat);
        let mode = mode_at(n - 1);
        let index = (n - 1) % 9;
        let written = write_cells(x, mode, index, hidden_singles_upto(unit_cells(x, mode, index), 9), 9);
        &&& hidden_run_safe(b, (n - 1) as nat)
        &&& written != x ==> elimination_safe(written)
    }
}

/// A run that is safe up to `n` units is safe up to any fewer.
proof fn lemma_hidden_run_prefix(b: Board, n: nat, m: nat)
    requires
        m <= n,
        hidden_run_safe(b, n),
    ensures
        hidden_run_safe(b, m),
    decreases n,
{
    if m < n {
        lemma_hidden_run_prefix(b, (n - 1) as nat, m);
    }
}

/// The hidden-singles pass over the first `n` units.
pub open spec fn hidden_singles_board(b: Board, n: nat) -> Board
    decreases n,
{
    if n == 0 {
        b
    } else {
        hidden_unit_step(hidden_singles_board(b, (n - 1) as nat), n - 1)
    }
}

/// The position of the first candidate of a mask that holds one.
pub fn first_candidate(m: &BitMask) -> (i: usize)
    requires
        exists|d: int| 0 <= d < 9 && m[d],
    ensures
        i < 9,
        m[i as int],
        forall|j: int| 0 <= j < i ==> !m[j],
{
    let mut i: usize = 0;
    while i < 9
        invariant
            i <= 9,
            forall|j: int| 0 <= j < i ==> !m[j],
            exists|d: int| i <= d < 9 && m[d],
        decreases 9 - i,
    {
        if m[i] {
            return i;
        }
        i = i + 1;
    }
    proof {
        assert(false);
    }
    0
}

proof fn lemma_write_cells(b: Board, mode: UnitMode, index: int, cells: Seq<Cell>, n: nat)
    requires
        in9(index),
        n <= 9,
    ensures
        forall|r: int, c: int|
            in9(r) && in9(c) ==> #[trigger] write_cells(b, mode, index, cells, n)[r][c] == if unit_of(mode, r, c) == index
                && pos_in_unit(mode, r, c) < n {
                cells[pos_in_unit(mode, r, c)]
            } else {
                b[r][c]
            },
    decreases n,
{
    lemma_unit_geometry(mode, index);
    if n > 0 {
        lemma_write_cells(b, mode, index, cells, (n - 1) as nat);
        let prev = write_cells(b, mode, index, cells, (n - 1) as nat);
        lemma_board_set(prev, unit_row(mode, index, n - 1), unit_col(mode, index, n - 1), cells[n - 1]);
    }
}

/// Places a digit in every candidate cell of `cells` that alone can hold it, taking
/// the digits in increasing order.
fn solve_hidden_singles_in_unit(set: &mut [Cell; 9])
    ensures
        final(set)@ == hidden_singles_upto(old(set)@, 9),
{
    let mut value: usize = 0;
    while value < 9
        invariant
            value <= 9,
            set@ == hidden_singles_upto(old(set)@, value as nat),
        decreases 9 - value,
    {
        let mut seen = false;
        let mut single = true;
        let mut idx: usize = 10;
        let mut i: usize = 0;
        while i < 9
            invariant
                i <= 9,
                value < 9,
                seen ==> idx < i && set@[idx as int] is Candidates && set@[idx as int]->Candidates_0[value as int],
                !seen ==> forall|j: int| 0 <= j < i && (#[trigger] set@[j]) is Candidates ==> !set@[j]->Candidates_0[value as int],
                seen ==> forall|j: int| 0 <= j < idx && (#[trigger] set@[j]) is Candidates ==> !set@[j]->Candidates_0[value as int],
                single == forall|j: int|
                    0 <= j < i && (#[trigger] set@[j]) is Candidates && set@[j]->Candidates_0[value as int] ==> j == idx,
            decreases 9 - i,
        {
            if let Cell::Candidates(mask) = set[i] {
                if mask[value] && !seen {
                    seen = true;
                    idx = i;
                } else if mask[value] && seen {
                    single = false;
                }
            }
            i = i + 1;
        }
        let ghost cells = set@;
        proof {
            if seen && single {
                assert(sole_holder(cells, value as int, idx as int));
                let k = choose|k: int| sole_holder(cells, value as int, k);
                assert(k == idx);
            } else {
                assert forall|k: int| !sole_holder(cells, value as int, k) by {
                    if sole_holder(cells, value as int, k) {
                        if seen {
                            let j = choose|j: int|
                                !(0 <= j < 9 && (#[trigger] cells[j]) is Candidates && cells[j]->Candidates_0[value as int]
                                    ==> j == idx);
                            assert(j == k);
                            assert(idx == k);
                        }
                    }
                }
            }
        }
        if seen && single {
            set[idx] = Cell::Value((value as i16) + 1);
        }
        proof {
            assert(set@ =~= hidden_step(cells, value as int));
        }
        value = value + 1;
    }
}

/// Every cell among the first `p` in row-major order that holds exactly one candidate
/// in `b` holds the digit of the solution `s` in `x`.
pub open spec fn singles_placed(b: Board, x: Board, s: BasicGrid, p: int) -> bool {
    forall|r: int, c: int|
        in9(r) && in9(c) && r * 9 + c < p && naked_single_at(b, r, c) ==> #[trigger] x[r][c] == Cell::Value(s[r][c])
}

/// Every candidate cell of `b` from the `p`-th on in row-major order is still a
/// candidate cell in `x`.
pub open spec fn candidates_kept(b: Board, x: Board, p: int) -> bool {
    forall|r: int, c: int| in9(r) && in9(c) && r * 9 + c >= p && b[r][c] is Candidates ==> (#[trigger] x[r][c]) is Candidates
}

/// A candidate set within a one-candidate set that still holds some digit holds
/// exactly that one.
proof fn lemma_single_within(old_m: BitMask, m: BitMask, x: int)
    requires
        count_bits(old_m) == 1,
        forall|d: int| 0 <= d < 9 && #[trigger] m[d] ==> old_m[d],
        0 <= x < 9,
        m[x],
    ensures
        count_bits(m) == 1,
{
    lemma_count_sub(mask_pred(old_m), mask_pred(m), 9);
    lemma_count_one(mask_pred(m), x, 9);
}

/// Gives every cell that holds exactly one candidate that digit, in row-major order,
/// eliminating around each new digit at once; tells whether any digit was placed. The
/// elimination after a placement is the only step that can fail, so the board must be
/// safe to eliminate on only where a digit is placed. On a board consistent with a
/// solution, every cell that starts with one candidate ends with the solution's digit.
pub fn solve_naked_singles(board: &mut Board) -> (change: bool)
    requires
        elimination_safe(*old(board)) || naked_run_safe(*old(board), 81),
    ensures
        *final(board) == naked_singles_upto(*old(board), 81),
        change == (*final(board) != *old(board)),
        refines(*old(board), *final(board)),
        elimination_safe(*old(board)) ==> elimination_safe(*final(board)),
        settled(*old(board)) ==> settled(*final(board)),
        forall|s: BasicGrid| is_solution(s) && consistent(*old(board), s) ==> consistent(*final(board), s),
        forall|s: BasicGrid| is_solution(s) && consistent(*old(board), s) ==> singles_placed(*old(board), *final(board), s, 81),
{
    let mut change = false;
    let mut row: usize = 0;
    while row < 9
        invariant
            row <= 9,
            *board == naked_singles_upto(*old(board), (row * 9) as nat),
            change == (*board != *old(board)),
            refines(*old(board), *board),
            elimination_safe(*old(board)) || naked_run_safe(*old(board), 81),
            elimination_safe(*old(board)) ==> elimination_safe(*board),
            settled(*old(board)) ==> settled(*board),
            forall|s: BasicGrid| is_solution(s) && consistent(*old(board), s) ==> consistent(*board, s),
            forall|s: BasicGrid|
                is_solution(s) && consistent(*old(board), s) ==> singles_placed(*old(board), *board, s, row * 9),
            candidates_kept(*old(board), *board, row * 9),
        decreases 9 - row,
    {
        let mut col: usize = 0;
        while col < 9
            invariant
                row < 9,
                col <= 9,
                *board == naked_singles_upto(*old(board), (row * 9 + col) as nat),
                change == (*board != *old(board)),
                refines(*old(board), *board),
                elimination_safe(*old(board)) || naked_run_safe(*old(board), 81),
                elimination_safe(*old(board)) ==> elimination_safe(*board),
                settled(*old(board)) ==> settled(*board),
                forall|s: BasicGrid| is_solution(s) && consistent(*old(board), s) ==> consistent(*board, s),
                forall|s: BasicGrid|
                    is_solution(s) && consistent(*old(board), s) ==> singles_placed(*old(board), *board, s, row * 9 + col),
                candidates_kept(*old(board), *board, row * 9 + col),
            decreases 9 - col,
        {
            let ghost before = *board;
            let ghost p = row * 9 + col;
            assert(p / 9 == row && p % 9 == col);
            if let Cell::Candidates(bits) = board[row][col] {
                if bits.bits_set() == 1 {
                    proof {
                        lemma_count_single(bits);
                    }
                    let index = first_candidate(&bits);
                    board[row][col] = Cell::Value((index + 1) as i16);
                    change = true;
                    let ghost placed = *board;
                    proof {
                        let d = single_digit(bits);
                        assert(bits[d]);
                        assert(d == index);
                        lemma_board_set(before, row as int, col as int, Cell::Value((index + 1) as i16));
                        lemma_board_ext(placed, place(before, row as int, col as int, d));
                        assert(refines(before, placed)) by {
                            assert forall|r: int, c: int| in9(r) && in9(c) implies cell_refines(
                                #[trigger] before[r][c],
                                placed[r][c],
                            ) by {}
                        }
                        lemma_refines_trans(*old(board), before, placed);
                        if elimination_safe(*old(board)) {
                            lemma_refines_keeps_safe(before, placed);
                        } else {
                            lemma_naked_run_prefix(*old(board), 81, (p + 1) as nat);
                            assert(naked_run_safe(*old(board), (p + 1) as nat));
                        }
                        assert forall|s: BasicGrid| is_solution(s) && consistent(*old(board), s) implies consistent(placed, s) by {
                            assert(consistent(before, s));
                            assert forall|r: int, c: int| in9(r) && in9(c) implies allows(#[trigger] placed[r][c], s[r][c]) by {
                                if r == row && c == col {
                                    assert(allows(before[r][c], s[r][c]));
                                    assert(bits[s[r][c] - 1]);
                                }
                            }
                        }
                    }
                    eliminate_candidates(board);
                    proof {
                        lemma_elimination_unique(placed, *board);
                        lemma_refines_trans(*old(board), placed, *board);
                        lemma_refines_trans(before, placed, *board);
                        assert(board[row as int][col as int] != before[row as int][col as int]);
                        lemma_refines_strict(*old(board), before, *board);
                        assert forall|s: BasicGrid|
                            is_solution(s) && consistent(*old(board), s) implies singles_placed(*old(board), *board, s, p + 1) by {
                            assert(consistent(before, s));
                            assert(allows(before[row as int][col as int], s[row as int][col as int]));
                            assert(bits[s[row as int][col as int] - 1]);
                            assert forall|r: int, c: int|
                                in9(r) && in9(c) && r * 9 + c < p + 1 && naked_single_at(*old(board), r, c) implies #[trigger] board[r][c]
                                == Cell::Value(s[r][c]) by {
                                if r * 9 + c < p {
                                    assert(before[r][c] == Cell::Value(s[r][c]));
                                    assert(placed[r][c] == before[r][c]);
                                } else {
                                    assert(r == row && c == col);
                                }
                            }
                        }
                        assert forall|r: int, c: int|
                            in9(r) && in9(c) && r * 9 + c >= p + 1 && old(board)[r][c] is Candidates implies (
                            #[trigger] board[r][c]) is Candidates by {
                            assert(placed[r][c] == before[r][c]);
                        }
                    }
                }
            }
            proof {
                if *board == before {
                    assert forall|s: BasicGrid|
                        is_solution(s) && consistent(*old(board), s) implies singles_placed(*old(board), *board, s, p + 1) by {
                        if naked_single_at(*old(board), row as int, col as int) {
                            let old_m = old(board)[row as int][col as int]->Candidates_0;
                            assert(before[row as int][col as int] is Candidates);
                            let m = before[row as int][col as int]->Candidates_0;
                            assert(cell_refines(old(board)[row as int][col as int], before[row as int][col as int]));
                            assert(allows(before[row as int][col as int], s[row as int][col as int]));
                            lemma_single_within(old_m, m, s[row as int][col as int] - 1);
                            assert(false);
                        }
                        assert forall|r: int, c: int|
                            in9(r) && in9(c) && r * 9 + c < p + 1 && naked_single_at(*old(board), r, c) implies #[trigger] board[r][c]
                            == Cell::Value(s[r][c]) by {
                            if r * 9 + c == p {
                                assert(r == row && c == col);
                            }
                        }
                    }
                }
            }
            col = col + 1;
        }
        row = row + 1;
    }
    change
}

/// Within one unit of a settled board, the hidden-single steps only place digits that
/// a consistent solution puts there, and only on candidate cells that hold them.
proof fn lemma_hidden_unit_sound(b: Board, mode: UnitMode, index: int, s: BasicGrid, n: nat)
    requires
        in9(index),
        n <= 9,
        settled(b),
        is_solution(s),
        consistent(b, s),
    ensures
        hidden_singles_upto(unit_cells(b, mode, index), n).len() == 9,
        forall|k: int|
            0 <= k < 9 ==> allows(
                #[trigger] hidden_singles_upto(unit_cells(b, mode, index), n)[k],
                s[unit_row(mode, index, k)][unit_col(mode, index, k)],
            ),
    decreases n,
{
    lemma_hidden_unit_refines(b, mode, index, n);
    lemma_unit_geometry(mode, index);
    let orig = unit_cells(b, mode, index);
    if n > 0 {
        lemma_hidden_unit_sound(b, mode, index, s, (n - 1) as nat);
        lemma_hidden_unit_refines(b, mode, index, (n - 1) as nat);
        let prev = hidden_singles_upto(orig, (n - 1) as nat);
        let v = n - 1;
        if exists|k: int| sole_holder(prev, v, k) {
            let k = choose|k: int| sole_holder(prev, v, k);
            assert(unit_holds(s, mode, index, v + 1));
            let k2 = choose|k2: int| in9(k2) && s[unit_row(mode, index, k2)][unit_col(mode, index, k2)] == v + 1;
            assert(allows(prev[k2], s[unit_row(mode, index, k2)][unit_col(mode, index, k2)]));
            if prev[k2] is Value {
                assert(orig[k2] == prev[k2]);
                assert(orig[k] is Candidates);
                assert(orig[k] == prev[k]);
                let r = unit_row(mode, index, k);
                let c = unit_col(mode, index, k);
                let r2 = unit_row(mode, index, k2);
                let c2 = unit_col(mode, index, k2);
                assert(sees(r, c, r2, c2));
                assert(b[r2][c2] is Value);
                assert(false);
            }
            assert(k2 == k);
        }
    }
}

/// The hidden-single steps leave the unit with nine cells, each refining the cell it
/// replaces, with candidate cells unchanged and new digits below `n + 1`.
proof fn lemma_hidden_unit_refines(b: Board, mode: UnitMode, index: int, n: nat)
    requires
        in9(index),
        n <= 9,
    ensures
        hidden_singles_upto(unit_cells(b, mode, index), n).len() == 9,
        forall|k: int|
            0 <= k < 9 ==> cell_refines(unit_cells(b, mode, index)[k], #[trigger] hidden_singles_upto(unit_cells(b, mode, index), n)[k]),
        forall|k: int|
            0 <= k < 9 && (#[trigger] hidden_singles_upto(unit_cells(b, mode, index), n)[k]) is Candidates
                ==> hidden_singles_upto(unit_cells(b, mode, index), n)[k] == unit_cells(b, mode, index)[k],
        forall|k: int|
            0 <= k < 9 && (#[trigger] hidden_singles_upto(unit_cells(b, mode, index), n)[k]) != unit_cells(b, mode, index)[k]
                ==> hidden_singles_upto(unit_cells(b, mode, index), n)[k] is Value && hidden_singles_upto(unit_cells(b, mode, index), n)[k]->Value_0
                <= n,
    decreases n,
{
    if n > 0 {
        lemma_hidden_unit_refines(b, mode, index, (n - 1) as nat);
    }
}

/// Places every hidden single: a digit that only one candidate cell of a row, a
/// column or a box can hold goes there. Goes through the rows, then the columns, then
/// the boxes, and eliminates the whole board after each unit that changed; tells
/// whether any digit was placed. Only those eliminations can fail, so the board must
/// be safe to eliminate on only after a unit changed.
pub fn solve_hidden_singles(board: &mut Board) -> (change: bool)
    requires
        elimination_safe(*old(board)) || hidden_run_safe(*old(board), 27),
    ensures
        *final(board) == hidden_singles_board(*old(board), 27),
        change == (*final(board) != *old(board)),
        refines(*old(board), *final(board)),
        elimination_safe(*old(board)) ==> elimination_safe(*final(board)),
        settled(*old(board)) ==> settled(*final(board)),
        forall|s: BasicGrid|
            is_solution(s) && consistent(*old(board), s) && settled(*old(board)) ==> consistent(*final(board), s),
{
    let mut change = false;
    let mut n: usize = 0;
    while n < 27
        invariant
            n <= 27,
            *board == hidden_singles_board(*old(board), n as nat),
            change == (*board != *old(board)),
            refines(*old(board), *board),
            elimination_safe(*old(board)) || hidden_run_safe(*old(board), 27),
            elimination_safe(*old(board)) ==> elimination_safe(*board),
            settled(*old(board)) ==> settled(*board),
            forall|s: BasicGrid|
                is_solution(s) && consistent(*old(board), s) && settled(*old(board)) ==> consistent(*board, s) && settled(*board),
        decreases 27 - n,
    {
        let mode = if n < 9 {
            UnitMode::Row
        } else if n < 18 {
            UnitMode::Column
        } else {
            UnitMode::Box
        };
        let index = n % 9;
        let ghost before = *board;
        let mut candidate_set = get_unit(board, index, mode);
        solve_hidden_singles_in_unit(&mut candidate_set);
        let ghost cells = candidate_set@;
        proof {
            lemma_write_cells(before, mode, index as int, cells, 9);
            lemma_unit_geometry(mode, index as int);
            lemma_hidden_unit_refines(before, mode, index as int, 9);
        }
        let changed = set_unit(board, index, &candidate_set, mode);
        let ghost written = *board;
        proof {
            let w = write_cells(before, mode, index as int, cells, 9);
            assert forall|r: int, c: int| in9(r) && in9(c) implies #[trigger] written[r][c] == w[r][c] by {
                if unit_of(mode, r, c) == index {
                    let k = pos_in_unit(mode, r, c);
                    assert(written[unit_row(mode, index as int, k)][unit_col(mode, index as int, k)] == cells[k]);
                }
            }
            lemma_board_ext(written, w);
            assert(refines(before, written)) by {
                assert forall|r: int, c: int| in9(r) && in9(c) implies cell_refines(#[trigger] before[r][c], written[r][c]) by {
                    if unit_of(mode, r, c) == index {
                        let k = pos_in_unit(mode, r, c);
                        assert(unit_cells(before, mode, index as int)[k] == before[r][c]);
                    }
                }
            }
            lemma_refines_trans(*old(board), before, written);
            if elimination_safe(*old(board)) {
                lemma_refines_keeps_safe(before, written);
            } else {
                lemma_hidden_run_prefix(*old(board), 27, (n + 1) as nat);
                assert(mode == mode_at(n as int));
                assert(hidden_run_safe(*old(board), (n + 1) as nat));
            }
            assert forall|s: BasicGrid|
                is_solution(s) && consistent(*old(board), s) && settled(*old(board)) implies consistent(written, s) by {
                lemma_hidden_unit_sound(before, mode, index as int, s, 9);
                assert forall|r: int, c: int| in9(r) && in9(c) implies allows(#[trigger] written[r][c], s[r][c]) by {
                    if unit_of(mode, r, c) == index {
                        let k = pos_in_unit(mode, r, c);
                        assert(allows(cells[k], s[unit_row(mode, index as int, k)][unit_col(mode, index as int, k)]));
                    } else {
                        assert(allows(before[r][c], s[r][c]));
                    }
                }
            }
        }
        if changed {
            eliminate_candidates(board);
            change = true;
            proof {
                lemma_elimination_unique(written, *board);
                lemma_refines_trans(*old(board), written, *board);
                lemma_refines_trans(before, written, *board);
                if *board == before {
                    crate::rules::lemma_refines_antisym(written, before);
                }
                lemma_refines_strict(*old(board), before, *board);
            }
        }
        proof {
            assert(mode == mode_at(n as int));
        }
        n = n + 1;
    }
    change
}

/// Places the hidden singles, then the naked singles; tells whether either placed a
/// digit.
pub fn solve_singles(board: &mut Board) -> (change: bool)
    requires
        elimination_safe(*old(board)) || (hidden_run_safe(*old(board), 27) && naked_run_safe(
            hidden_singles_board(*old(board), 27),
            81,
        )),
    ensures
        *final(board) == naked_singles_upto(hidden_singles_board(*old(board), 27), 81),
        change == (*final(board) != *old(board)),
        refines(*old(board), *final(board)),
        elimination_safe(*old(board)) ==> elimination_safe(*final(board)),
        settled(*old(board)) ==> settled(*final(board)),
        forall|s: BasicGrid|
            is_solution(s) && consistent(*old(board), s) && settled(*old(board)) ==> consistent(*final(board), s),
{
    let ghost start = *board;
    let hidden = solve_hidden_singles(board);
    let ghost mid = *board;
    let naked = solve_naked_singles(board);
    proof {
        lemma_refines_trans(start, mid, *board);
        if naked {
            lemma_refines_strict(start, mid, *board);
        }
    }
    hidden || naked
}

/// The index of the hidden-singles step that handles unit `index` of kind `mode`: the
/// rows come first, then the columns, then the boxes.
pub open spec fn unit_step(mode: UnitMode, index: int) -> int {
    match mode {
        UnitMode::Row => index,
        UnitMode::Column => 9 + index,
        UnitMode::Box => 18 + index,
    }
}

/// On a settled board consistent with a solution, a cell that alone in its unit holds
/// the candidate `v` gets the digit `v + 1` in that solution.
proof fn lemma_sole_holder_digit(b: Board, mode: UnitMode, index: int, s: BasicGrid, v: int, x: int)
    requires
        in9(index),
        in9(v),
        in9(x),
        settled(b),
        is_solution(s),
        consistent(b, s),
        unit_cells(b, mode, index)[x] is Candidates,
        unit_cells(b, mode, index)[x]->Candidates_0[v],
        forall|k: int|
            in9(k) && k != x && (#[trigger] unit_cells(b, mode, index)[k]) is Candidates ==> !unit_cells(b, mode, index)[k]->Candidates_0[v],
    ensures
        s[unit_row(mode, index, x)][unit_col(mode, index, x)] == v + 1,
{
    lemma_unit_geometry(mode, index);
    let cells = unit_cells(b, mode, index);
    assert(unit_holds(s, mode, index, v + 1));
    let k = choose|k: int| in9(k) && s[unit_row(mode, index, k)][unit_col(mode, index, k)] == v + 1;
    let r = unit_row(mode, index, k);
    let c = unit_col(mode, index, k);
    assert(allows(b[r][c], s[r][c]));
    assert(cells[k] == b[r][c]);
    if k != x {
        if cells[k] is Value {
            let rx = unit_row(mode, index, x);
            let cx = unit_col(mode, index, x);
            crate::helpers::lemma_unit_sees(mode, index, x, k);
            assert(sees(rx, cx, r, c));
            assert(cells[x] == b[rx][cx]);
            assert(false);
        }
    }
}

/// Within a unit, the hidden-single steps leave a placed digit in place.
proof fn lemma_hidden_keeps_value(cells: Seq<Cell>, x: int, n: nat, m: nat)
    requires
        n <= m,
        cells.len() == 9,
        hidden_singles_upto(cells, n).len() == 9,
        0 <= x < 9,
        hidden_singles_upto(cells, n)[x] is Value,
    ensures
        hidden_singles_upto(cells, m).len() == 9,
        hidden_singles_upto(cells, m)[x] == hidden_singles_upto(cells, n)[x],
    decreases m,
{
    if m > n {
        lemma_hidden_keeps_value(cells, x, n, (m - 1) as nat);
        let prev = hidden_singles_upto(cells, (m - 1) as nat);
        let w: int = m - 1;
        assert(hidden_singles_upto(cells, m) == hidden_step(prev, w));
        if exists|k: int| sole_holder(prev, w, k) {
            let k = choose|k: int| sole_holder(prev, w, k);
            assert(k != x);
            assert(hidden_step(prev, w) == prev.update(k, Cell::Value((w + 1) as i16)));
        }
    }
}

/// On a settled board consistent with a solution, the hidden-single steps of a unit
/// place `v + 1` in the cell that alone holds the candidate `v`.
proof fn lemma_hidden_unit_places(b: Board, mode: UnitMode, index: int, s: BasicGrid, v: int, x: int)
    requires
        in9(index),
        in9(v),
        in9(x),
        settled(b),
        is_solution(s),
        consistent(b, s),
        unit_cells(b, mode, index)[x] is Candidates,
        unit_cells(b, mode, index)[x]->Candidates_0[v],
        forall|k: int|
            in9(k) && k != x && (#[trigger] unit_cells(b, mode, index)[k]) is Candidates ==> !unit_cells(b, mode, index)[k]->Candidates_0[v],
    ensures
        hidden_singles_upto(unit_cells(b, mode, index), 9)[x] == Cell::Value((v + 1) as i16),
{
    let orig = unit_cells(b, mode, index);
    lemma_sole_holder_digit(b, mode, index, s, v, x);
    lemma_hidden_unit_sound(b, mode, index, s, v as nat);
    lemma_hidden_unit_refines(b, mode, index, v as nat);
    let prev = hidden_singles_upto(orig, v as nat);
    assert(allows(prev[x], s[unit_row(mode, index, x)][unit_col(mode, index, x)]));
    if prev[x] != orig[x] {
        assert(prev[x] is Value && prev[x]->Value_0 <= v);
        assert(false);
    }
    assert forall|k: int| 0 <= k < 9 && k != x && (#[trigger] prev[k]) is Candidates implies !prev[k]->Candidates_0[v] by {
        assert(prev[k] == orig[k]);
    }
    assert(sole_holder(prev, v, x));
    let k = choose|k: int| sole_holder(prev, v, k);
    assert(k == x);
    let next = hidden_singles_upto(orig, (v + 1) as nat);
    assert(next == hidden_step(prev, v));
    assert(next[x] == Cell::Value((v + 1) as i16));
    lemma_hidden_keeps_value(orig, x, (v + 1) as nat, 9);
}

/// On a settled board consistent with a solution, the hidden-singles pass on one unit
/// only refines the board, keeps it consistent with the solution and settled.
proof fn lemma_hidden_step_sound(b: Board, n: int, s: BasicGrid)
    requires
        0 <= n < 27,
        settled(b),
        is_solution(s),
        consistent(b, s),
    ensures
        refines(b, hidden_unit_step(b, n)),
        consistent(hidden_unit_step(b, n), s),
        settled(hidden_unit_step(b, n)),
{
    let mode = mode_at(n);
    let index = n % 9;
    let cells = hidden_singles_upto(unit_cells(b, mode, index), 9);
    let written = write_cells(b, mode, index, cells, 9);
    lemma_write_cells(b, mode, index, cells, 9);
    lemma_unit_geometry(mode, index);
    lemma_hidden_unit_refines(b, mode, index, 9);
    lemma_hidden_unit_sound(b, mode, index, s, 9);
    assert forall|r: int, c: int| in9(r) && in9(c) implies cell_refines(#[trigger] b[r][c], written[r][c]) && allows(
        written[r][c],
        s[r][c],
    ) by {
        assert(allows(b[r][c], s[r][c]));
        if unit_of(mode, r, c) == index {
            let k = pos_in_unit(mode, r, c);
            assert(unit_cells(b, mode, index)[k] == b[r][c]);
        }
    }
    if written != b {
        lemma_elimination_exists(written);
        let e = eliminated(written);
        lemma_elimination_refines(written, e);
        lemma_elimination_sound(written, e, s);
        lemma_elimination_settles(written, e);
        lemma_refines_trans(b, written, e);
    }
}

/// The hidden-singles pass over the first `n` units, on a settled board consistent with
/// a solution, keeps it so, and has placed `v + 1` at the `x`-th cell of a unit that
/// alone held `v` once that unit has been passed.
proof fn lemma_hidden_run_places(
    b: Board,
    s: BasicGrid,
    mode: UnitMode,
    index: int,
    v: int,
    x: int,
    n: nat,
)
    requires
        n <= 27,
        in9(index),
        in9(v),
        in9(x),
        is_solution(s),
        consistent(b, s),
        settled(b),
        unit_cells(b, mode, index)[x] is Candidates,
        unit_cells(b, mode, index)[x]->Candidates_0[v],
        forall|k: int|
            in9(k) && k != x && (#[trigger] unit_cells(b, mode, index)[k]) is Candidates ==> !unit_cells(b, mode, index)[k]->Candidates_0[v],
    ensures
        refines(b, hidden_singles_board(b, n)),
        consistent(hidden_singles_board(b, n), s),
        settled(hidden_singles_board(b, n)),
        n > unit_step(mode, index) ==> hidden_singles_board(b, n)[unit_row(mode, index, x)][unit_col(mode, index, x)] == Cell::Value(
            (v + 1) as i16,
        ),
    decreases n,
{
    lemma_unit_geometry(mode, index);
    lemma_sole_holder_digit(b, mode, index, s, v, x);
    let rx = unit_row(mode, index, x);
    let cx = unit_col(mode, index, x);
    if n == 0 {
        crate::rules::lemma_refines_refl(b);
    } else {
        lemma_hidden_run_places(b, s, mode, index, v, x, (n - 1) as nat);
        let prev = hidden_singles_board(b, (n - 1) as nat);
        lemma_hidden_step_sound(prev, n - 1, s);
        let next = hidden_singles_board(b, n);
        assert(next == hidden_unit_step(prev, n - 1));
        lemma_refines_trans(b, prev, next);
        if n - 1 > unit_step(mode, index) {
            assert(cell_refines(prev[rx][cx], next[rx][cx]));
        } else if n - 1 == unit_step(mode, index) {
            assert(mode_at(n - 1) == mode && (n - 1) % 9 == index);
            assert(cell_refines(b[rx][cx], prev[rx][cx]));
            assert(allows(prev[rx][cx], s[rx][cx]));
            if prev[rx][cx] is Value {
                assert(cell_refines(prev[rx][cx], next[rx][cx]));
            } else {
                assert forall|k: int|
                    in9(k) && k != x && (#[trigger] unit_cells(prev, mode, index)[k]) is Candidates implies !unit_cells(
                    prev,
                    mode,
                    index,
                )[k]->Candidates_0[v] by {
                    let r = unit_row(mode, index, k);
                    let c = unit_col(mode, index, k);
                    assert(cell_refines(b[r][c], prev[r][c]));
                    assert(unit_cells(b, mode, index)[k] == b[r][c]);
                }
                lemma_hidden_unit_places(prev, mode, index, s, v, x);
                let cells = hidden_singles_upto(unit_cells(prev, mode, index), 9);
                let written = write_cells(prev, mode, index, cells, 9);
                lemma_write_cells(prev, mode, index, cells, 9);
                assert(written[rx][cx] == Cell::Value((v + 1) as i16));
                if written != prev {
                    lemma_elimination_exists(written);
                }
            }
        }
    }
}

/// Completeness of the hidden-singles pass: on a settled board consistent with a
/// solution, a cell that is the only candidate cell of a row, a column or a box to hold
/// the candidate `v` ends with the digit `v + 1`, for every digit and every unit.
pub proof fn lemma_hidden_singles_complete(b: Board, s: BasicGrid, mode: UnitMode, index: int, v: int, x: int)
    requires
        in9(index),
        in9(v),
        in9(x),
        is_solution(s),
        consistent(b, s),
        settled(b),
        unit_cells(b, mode, index)[x] is Candidates,
        unit_cells(b, mode, index)[x]->Candidates_0[v],
        forall|k: int|
            in9(k) && k != x && (#[trigger] unit_cells(b, mode, index)[k]) is Candidates ==> !unit_cells(b, mode, index)[k]->Candidates_0[v],
    ensures
        hidden_singles_board(b, 27)[unit_row(mode, index, x)][unit_col(mode, index, x)] == Cell::Value((v + 1) as i16),
{
    lemma_hidden_run_places(b, s, mode, index, v, x, 27);
}

/// Elimination has a result on every board.
proof fn lemma_elimination_exists(b: Board)
    ensures
        elimination(b, eliminated(b)),
{
    let keep = |r: int, c: int, d: int| !seen_value(b, r, c, d);
    lemma_keep_board(b, keep);
    assert(elimination(b, keep_board(b, keep)));
}

} // verus!
