use vstd::prelude::*;

use crate::helpers::{in9, lemma_unit_geometry, lemma_unit_sees, sees, unit_col, unit_of, unit_position, unit_row, UnitMode};
use crate::rules::{allows, consistent, is_solution, unit_holds};
use crate::types::{BasicGrid, Board, Cell};

verus! {

/// Unit `index` of kind `mode` of `g` holds only digits from 1 to 9, and all of them.
pub open spec fn unit_complete(g: BasicGrid, mode: UnitMode, index: int) -> bool {
    &&& forall|k: int| in9(k) ==> 1 <= #[trigger] g[unit_row(mode, index, k)][unit_col(mode, index, k)] <= 9
    &&& forall|d: int| 1 <= d <= 9 ==> #[trigger] unit_holds(g, mode, index, d)
}

/// Every row, column and box of `g` holds the digits from 1 to 9.
pub open spec fn is_solved_grid(g: BasicGrid) -> bool {
    forall|mode: UnitMode, index: int| in9(index) ==> #[trigger] unit_complete(g, mode, index)
}

/// The number at the `k`-th cell of a unit is neither 0 nor a digit.
pub open spec fn out_of_range(g: BasicGrid, mode: UnitMode, index: int, k: int) -> bool {
    !(0 <= g[unit_row(mode, index, k)][unit_col(mode, index, k)] <= 9)
}

/// Checking the unit reaches a number that is neither 0 nor a digit before it meets a 0.
pub open spec fn unit_scan_fails(g: BasicGrid, mode: UnitMode, index: int) -> bool {
    exists|k: int|
        in9(k) && #[trigger] out_of_range(g, mode, index, k) && forall|j: int|
            0 <= j < k ==> g[unit_row(mode, index, j)][unit_col(mode, index, j)] != 0
}

/// Checking the grid reaches, in a row whose earlier rows are all complete, a number
/// that is neither 0 nor a digit before it meets a 0.
pub open spec fn verify_fails(g: BasicGrid) -> bool {
    exists|r: int|
        in9(r) && #[trigger] unit_scan_fails(g, UnitMode::Row, r) && forall|r2: int| 0 <= r2 < r ==> unit_complete(g, UnitMode::Row, r2)
}

/// The number that a grid shows for a cell: its digit, or 0.
pub open spec fn grid_value(cell: Cell) -> i16 {
    match cell {
        Cell::Value(n) => n,
        _ => 0,
    }
}

/// `g` is the grid of the board `b`: each entry is what the board's cell shows.
pub open spec fn grid_of(b: Board, g: BasicGrid) -> bool {
    forall|r: int, c: int| in9(r) && in9(c) ==> #[trigger] g[r][c] == grid_value(b[r][c])
}

/// A board has only one grid.
pub proof fn lemma_grid_of_unique(b: Board, g1: BasicGrid, g2: BasicGrid)
    requires
        grid_of(b, g1),
        grid_of(b, g2),
    ensures
        g1 == g2,
{
    assert forall|r: int| in9(r) implies #[trigger] g1[r] == g2[r] by {
        assert forall|c: int| in9(c) implies #[trigger] g1[r][c] == g2[r][c] by {
            assert(g1[r][c] == grid_value(b[r][c]));
        }
        assert(g1[r] =~= g2[r]);
    }
    assert(g1 =~= g2);
}

/// The cell that a grid number stands for: empty for 0, a placed digit otherwise.
pub open spec fn cell_of(v: i16) -> Cell {
    if v == 0 {
        Cell::Empty
    } else {
        Cell::Value(v)
    }
}

/// Whether unit `index` of kind `mode` holds the digits from 1 to 9.
fn check_unit(grid: &BasicGrid, mode: UnitMode, index: usize) -> (ok: bool)
    requires
        index < 9,
        !unit_scan_fails(*grid, mode, index as int),
    ensures
        ok == unit_complete(*grid, mode, index as int),
{
    let mut checks: [bool; 9] = [false; 9];
    let mut k: usize = 0;
    while k < 9
        invariant
            k <= 9,
            index < 9,
            !unit_scan_fails(*grid, mode, index as int),
            forall|j: int| 0 <= j < k ==> 1 <= #[trigger] grid[unit_row(mode, index as int, j)][unit_col(mode, index as int, j)] <= 9,
            forall|d: int|
                0 <= d < 9 ==> #[trigger] checks[d] == exists|j: int|
                    0 <= j < k && grid[unit_row(mode, index as int, j)][unit_col(mode, index as int, j)] == d + 1,
        decreases 9 - k,
    {
        let (r, c) = unit_position(mode, index, k);
        let num = grid[r][c];
        if num == 0 {
            return false;
        }
        proof {
            if !(0 <= num <= 9) {
                assert(out_of_range(*grid, mode, index as int, k as int));
                assert(unit_scan_fails(*grid, mode, index as int));
            }
        }
        checks[(num - 1) as usize] = true;
        proof {
            assert forall|d: int| 0 <= d < 9 implies #[trigger] checks[d] == exists|j: int|
                0 <= j < k + 1 && grid[unit_row(mode, index as int, j)][unit_col(mode, index as int, j)] == d + 1 by {
                if d == num - 1 {
                    assert(grid[unit_row(mode, index as int, k as int)][unit_col(mode, index as int, k as int)] == d + 1);
                }
                if exists|j: int| 0 <= j < k + 1 && grid[unit_row(mode, index as int, j)][unit_col(mode, index as int, j)] == d + 1 {
                    let j = choose|j: int|
                        0 <= j < k + 1 && grid[unit_row(mode, index as int, j)][unit_col(mode, index as int, j)] == d + 1;
                    if j < k {
                    } else {
                        assert(j == k);
                    }
                }
            }
        }
        k = k + 1;
    }
    let mut i: usize = 0;
    while i < 9
        invariant
            i <= 9,
            index < 9,
            forall|d: int| 0 <= d < i ==> #[trigger] checks[d],
            forall|j: int| 0 <= j < 9 ==> 1 <= #[trigger] grid[unit_row(mode, index as int, j)][unit_col(mode, index as int, j)] <= 9,
            forall|d: int|
                0 <= d < 9 ==> #[trigger] checks[d] == exists|j: int|
                    0 <= j < 9 && grid[unit_row(mode, index as int, j)][unit_col(mode, index as int, j)] == d + 1,
        decreases 9 - i,
    {
        if !checks[i] {
            proof {
                assert(!unit_holds(*grid, mode, index as int, i as int + 1)) by {
                    if unit_holds(*grid, mode, index as int, i as int + 1) {
                        let j = choose|j: int|
                            in9(j) && grid[unit_row(mode, index as int, j)][unit_col(mode, index as int, j)] == i as int + 1;
                        assert(checks[i as int]);
                    }
                }
            }
            return false;
        }
        i = i + 1;
    }
    proof {
        assert forall|d: int| 1 <= d <= 9 implies #[trigger] unit_holds(*grid, mode, index as int, d) by {
            assert(checks[d - 1]);
            let j = choose|j: int| 0 <= j < 9 && grid[unit_row(mode, index as int, j)][unit_col(mode, index as int, j)] == (d - 1) + 1;
            assert(in9(j) && grid[unit_row(mode, index as int, j)][unit_col(mode, index as int, j)] == d);
        }
    }
    true
}

/// A row that passed the scan of an earlier row's failure: the first number that is
/// neither 0 nor a digit, when no 0 comes before it.
proof fn lemma_first_out_of_range(g: BasicGrid, r: int, k: int)
    requires
        in9(r),
        in9(k),
        out_of_range(g, UnitMode::Row, r, k),
        forall|j: int| 0 <= j < k ==> g[r][j] != 0,
    ensures
        exists|k2: int| in9(k2) && #[trigger] out_of_range(g, UnitMode::Row, r, k2) && forall|j: int| 0 <= j < k2 ==> 1 <= #[trigger] g[r][j] <= 9,
    decreases k,
{
    if exists|j: int| 0 <= j < k && out_of_range(g, UnitMode::Row, r, j) {
        let j = choose|j: int| 0 <= j < k && out_of_range(g, UnitMode::Row, r, j);
        lemma_first_out_of_range(g, r, j);
    } else {
        assert forall|j: int| 0 <= j < k implies 1 <= #[trigger] g[r][j] <= 9 by {
            assert(!out_of_range(g, UnitMode::Row, r, j));
        }
    }
}

/// Whether `grid` is solved: every row, column and box holds the digits from 1 to 9.
pub fn verify(grid: &BasicGrid) -> (ok: bool)
    requires
        !verify_fails(*grid),
    ensures
        ok == is_solved_grid(*grid),
{
    let mut m: usize = 0;
    while m < 3
        invariant
            m <= 3,
            !verify_fails(*grid),
            forall|mode: UnitMode, index: int|
                in9(index) && (mode == UnitMode::Row && m > 0 || mode == UnitMode::Column && m > 1 || mode == UnitMode::Box && m > 2) ==> #[trigger] unit_complete(
                    *grid,
                    mode,
                    index,
                ),
        decreases 3 - m,
    {
        let mode = if m == 0 {
            UnitMode::Row
        } else if m == 1 {
            UnitMode::Column
        } else {
            UnitMode::Box
        };
        let mut index: usize = 0;
        while index < 9
            invariant
                index <= 9,
                m < 3,
                mode == (if m == 0 {
                    UnitMode::Row
                } else if m == 1 {
                    UnitMode::Column
                } else {
                    UnitMode::Box
                }),
                !verify_fails(*grid),
                forall|mode2: UnitMode, index2: int|
                    in9(index2) && (mode2 == UnitMode::Row && m > 0 || mode2 == UnitMode::Column && m > 1 || mode2 == UnitMode::Box && m > 2) ==> #[trigger] unit_complete(
                        *grid,
                        mode2,
                        index2,
                    ),
                forall|index2: int| 0 <= index2 < index ==> #[trigger] unit_complete(*grid, mode, index2),
            decreases 9 - index,
        {
            proof {
                if unit_scan_fails(*grid, mode, index as int) {
                    let k = choose|k: int|
                        in9(k) && #[trigger] out_of_range(*grid, mode, index as int, k) && forall|j: int|
                            0 <= j < k ==> grid[unit_row(mode, index as int, j)][unit_col(mode, index as int, j)] != 0;
                    if m == 0 {
                        lemma_first_out_of_range(*grid, index as int, k);
                        let k2 = choose|k2: int|
                            in9(k2) && #[trigger] out_of_range(*grid, UnitMode::Row, index as int, k2) && forall|j: int|
                                0 <= j < k2 ==> 1 <= #[trigger] grid[index as int][j] <= 9;
                        assert(unit_scan_fails(*grid, UnitMode::Row, index as int));
                        assert(verify_fails(*grid));
                    } else {
                        lemma_unit_geometry(mode, index as int);
                        let r = unit_row(mode, index as int, k);
                        let c = unit_col(mode, index as int, k);
                        assert(unit_complete(*grid, UnitMode::Row, r));
                        assert(grid[unit_row(UnitMode::Row, r, c)][unit_col(UnitMode::Row, r, c)] == grid[r][c]);
                        assert(false);
                    }
                }
            }
            if !check_unit(grid, mode, index) {
                proof {
                    assert(!unit_complete(*grid, mode, index as int));
                }
                return false;
            }
            index = index + 1;
        }
        proof {
            assert forall|mode2: UnitMode, index2: int|
                in9(index2) && (mode2 == UnitMode::Row && m + 1 > 0 || mode2 == UnitMode::Column && m + 1 > 1 || mode2 == UnitMode::Box
                    && m + 1 > 2) implies #[trigger] unit_complete(*grid, mode2, index2) by {
                if mode2 == mode {
                    assert(unit_complete(*grid, mode, index2));
                }
            }
        }
        m = m + 1;
    }
    proof {
        assert forall|mode: UnitMode, index: int| in9(index) implies #[trigger] unit_complete(*grid, mode, index) by {
            match mode {
                UnitMode::Row => {},
                UnitMode::Column => {},
                UnitMode::Box => {},
            }
        }
    }
    true
}

/// A grid in which every unit holds the digits from 1 to 9 is a sudoku solution: no
/// digit repeats in a row, a column or a box.
pub proof fn lemma_solved_grid_is_solution(g: BasicGrid)
    requires
        is_solved_grid(g),
    ensures
        is_solution(g),
{
    assert forall|r: int, c: int| in9(r) && in9(c) implies 1 <= #[trigger] g[r][c] <= 9 by {
        assert(unit_complete(g, UnitMode::Row, r));
        assert(g[unit_row(UnitMode::Row, r, c)][unit_col(UnitMode::Row, r, c)] == g[r][c]);
    }
    assert forall|r1: int, c1: int, r2: int, c2: int|
        in9(r1) && in9(c1) && in9(r2) && in9(c2) && #[trigger] sees(r1, c1, r2, c2) implies g[r1][c1] != g[r2][c2] by {
        let mode = if r1 == r2 {
            UnitMode::Row
        } else if c1 == c2 {
            UnitMode::Column
        } else {
            UnitMode::Box
        };
        let index = unit_of(mode, r1, c1);
        lemma_unit_geometry(mode, index);
        crate::helpers::lemma_cell_unit(mode, r1, c1);
        crate::helpers::lemma_cell_unit(mode, r2, c2);
        let k1 = crate::helpers::pos_in_unit(mode, r1, c1);
        let k2 = crate::helpers::pos_in_unit(mode, r2, c2);
        assert(unit_of(mode, r2, c2) == index);
        lemma_unit_distinct(g, mode, index);
        assert(k1 != k2);
    }
    assert forall|mode: UnitMode, index: int, d: int| in9(index) && 1 <= d <= 9 implies #[trigger] unit_holds(g, mode, index, d) by {
        assert(unit_complete(g, mode, index));
    }
}

/// A unit that holds all nine digits in nine cells holds each digit once.
proof fn lemma_unit_distinct(g: BasicGrid, mode: UnitMode, index: int)
    requires
        in9(index),
        unit_complete(g, mode, index),
    ensures
        forall|k1: int, k2: int|
            in9(k1) && in9(k2) && k1 != k2 ==> g[unit_row(mode, index, k1)][unit_col(mode, index, k1)] != g[unit_row(
                mode,
                index,
                k2,
            )][unit_col(mode, index, k2)],
{
    let xs = Seq::new(9, |k: int| g[unit_row(mode, index, k)][unit_col(mode, index, k)] as int);
    let digits = vstd::set_lib::set_int_range(1, 10);
    vstd::set_lib::lemma_int_range(1, 10);
    assert(digits.subset_of(xs.to_set())) by {
        assert forall|d: int| digits.contains(d) implies xs.to_set().contains(d) by {
            assert(unit_holds(g, mode, index, d));
            let k = choose|k: int| in9(k) && g[unit_row(mode, index, k)][unit_col(mode, index, k)] == d;
            assert(xs[k] == d);
        }
    }
    vstd::seq_lib::seq_to_set_is_finite(xs);
    vstd::set_lib::lemma_len_subset(digits, xs.to_set());
    xs.lemma_cardinality_of_set();
    xs.lemma_no_dup_set_cardinality();
    assert forall|k1: int, k2: int| in9(k1) && in9(k2) && k1 != k2 implies g[unit_row(mode, index, k1)][unit_col(mode, index, k1)]
        != g[unit_row(mode, index, k2)][unit_col(mode, index, k2)] by {
        assert(xs[k1] != xs[k2]);
    }
}

/// A sudoku solution holds the digits from 1 to 9 in every unit.
pub proof fn lemma_solution_is_solved_grid(g: BasicGrid)
    requires
        is_solution(g),
    ensures
        is_solved_grid(g),
{
    assert forall|mode: UnitMode, index: int| in9(index) implies #[trigger] unit_complete(g, mode, index) by {
        lemma_unit_geometry(mode, index);
        assert forall|k: int| in9(k) implies 1 <= #[trigger] g[unit_row(mode, index, k)][unit_col(mode, index, k)] <= 9 by {}
        assert forall|d: int| 1 <= d <= 9 implies #[trigger] unit_holds(g, mode, index, d) by {}
    }
}

/// Turns every empty cell into a candidate cell with all nine candidates.
pub fn make_candidate_sets(board: &mut Board)
    ensures
        forall|r: int, c: int|
            in9(r) && in9(c) ==> if old(board)[r][c] is Empty {
                (#[trigger] final(board)[r][c]) is Candidates && forall|d: int| 0 <= d < 9 ==> #[trigger] final(board)[r][c]->Candidates_0[d]
            } else {
                final(board)[r][c] == old(board)[r][c]
            },
{
    let mut row: usize = 0;
    while row < 9
        invariant
            row <= 9,
            forall|r: int, c: int|
                in9(r) && in9(c) ==> if old(board)[r][c] is Empty && r < row {
                    (#[trigger] board[r][c]) is Candidates && forall|d: int| 0 <= d < 9 ==> #[trigger] board[r][c]->Candidates_0[d]
                } else {
                    board[r][c] == old(board)[r][c]
                },
        decreases 9 - row,
    {
        let mut col: usize = 0;
        while col < 9
            invariant
                row < 9,
                col <= 9,
                forall|r: int, c: int|
                    in9(r) && in9(c) ==> if old(board)[r][c] is Empty && (r < row || (r == row && c < col)) {
                        (#[trigger] board[r][c]) is Candidates && forall|d: int| 0 <= d < 9 ==> #[trigger] board[r][c]->Candidates_0[d]
                    } else {
                        board[r][c] == old(board)[r][c]
                    },
            decreases 9 - col,
        {
            if let Cell::Empty = board[row][col] {
                board[row][col] = Cell::Candidates([true; 9]);
            }
            col = col + 1;
        }
        row = row + 1;
    }
}

/// The board of a grid: 0 is an empty cell, any other number a placed digit.
pub fn grid_to_cells(grid: &BasicGrid) -> (board: Board)
    ensures
        forall|r: int, c: int| in9(r) && in9(c) ==> #[trigger] board[r][c] == cell_of(grid[r][c]),
{
    let mut board: Board = [[Cell::Empty; 9]; 9];
    let mut row: usize = 0;
    while row < 9
        invariant
            row <= 9,
            forall|r: int, c: int| in9(r) && in9(c) && r < row ==> #[trigger] board[r][c] == cell_of(grid[r][c]),
        decreases 9 - row,
    {
        let mut col: usize = 0;
        while col < 9
            invariant
                row < 9,
                col <= 9,
                forall|r: int, c: int|
                    in9(r) && in9(c) && (r < row || (r == row && c < col)) ==> #[trigger] board[r][c] == cell_of(grid[r][c]),
            decreases 9 - col,
        {
            let val = grid[row][col];
            board[row][col] = if val == 0 {
                Cell::Empty
            } else {
                Cell::Value(val)
            };
            col = col + 1;
        }
        row = row + 1;
    }
    board
}

/// The grid of a board: a placed digit shows as itself, any other cell as 0.
pub fn cells_to_grid(board: &Board) -> (grid: BasicGrid)
    ensures
        grid_of(*board, grid),
{
    let mut result: BasicGrid = [[0; 9]; 9];
    let mut row: usize = 0;
    while row < 9
        invariant
            row <= 9,
            forall|r: int, c: int| in9(r) && in9(c) && r < row ==> #[trigger] result[r][c] == grid_value(board[r][c]),
        decreases 9 - row,
    {
        let mut col: usize = 0;
        while col < 9
            invariant
                row < 9,
                col <= 9,
                forall|r: int, c: int|
                    in9(r) && in9(c) && (r < row || (r == row && c < col)) ==> #[trigger] result[r][c] == grid_value(board[r][c]),
            decreases 9 - col,
        {
            result[row][col] = match &board[row][col] {
                Cell::Value(num) => *num,
                _ => 0,
            };
            col = col + 1;
        }
        row = row + 1;
    }
    result
}

/// Reading a grid into a board and writing it back gives the grid again.
pub proof fn lemma_grid_round_trip(g: BasicGrid, b: Board, g2: BasicGrid)
    requires
        forall|r: int, c: int| in9(r) && in9(c) ==> #[trigger] b[r][c] == cell_of(g[r][c]),
        forall|r: int, c: int| in9(r) && in9(c) ==> #[trigger] g2[r][c] == grid_value(b[r][c]),
    ensures
        g2 == g,
{
    assert forall|r: int| in9(r) implies #[trigger] g2[r] == g[r] by {
        assert forall|c: int| in9(c) implies #[trigger] g2[r][c] == g[r][c] by {
            assert(b[r][c] == cell_of(g[r][c]));
        }
        assert(g2[r] =~= g[r]);
    }
    assert(g2 =~= g);
}

/// A puzzle's board, with its empty cells turned into full candidate cells, is
/// consistent with every solution that keeps the puzzle's digits.
pub proof fn lemma_start_board_consistent(g: BasicGrid, b: Board, s: BasicGrid)
    requires
        is_solution(s),
        forall|r: int, c: int| in9(r) && in9(c) && g[r][c] != 0 ==> #[trigger] s[r][c] == g[r][c],
        forall|r: int, c: int|
            in9(r) && in9(c) ==> if g[r][c] == 0 {
                (#[trigger] b[r][c]) is Candidates && forall|d: int| 0 <= d < 9 ==> #[trigger] b[r][c]->Candidates_0[d]
            } else {
                b[r][c] == Cell::Value(g[r][c])
            },
    ensures
        consistent(b, s),
{
    assert forall|r: int, c: int| in9(r) && in9(c) implies allows(#[trigger] b[r][c], s[r][c]) by {
        if g[r][c] == 0 {
            assert(1 <= s[r][c] <= 9);
            assert(b[r][c]->Candidates_0[s[r][c] - 1]);
        }
    }
}

/// When a board is consistent with a solution and holds no candidate cell, its grid
/// is that solution.
pub proof fn lemma_filled_board_is_solution(b: Board, s: BasicGrid, g: BasicGrid)
    requires
        is_solution(s),
        consistent(b, s),
        forall|r: int, c: int| in9(r) && in9(c) ==> !((#[trigger] b[r][c]) is Candidates),
        forall|r: int, c: int| in9(r) && in9(c) ==> #[trigger] g[r][c] == grid_value(b[r][c]),
    ensures
        g == s,
{
    assert forall|r: int| in9(r) implies #[trigger] g[r] == s[r] by {
        assert forall|c: int| in9(c) implies #[trigger] g[r][c] == s[r][c] by {
            assert(allows(b[r][c], s[r][c]));
        }
        assert(g[r] =~= s[r]);
    }
    assert(g =~= s);
}

} // verus!
