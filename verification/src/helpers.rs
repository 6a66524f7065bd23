use vstd::prelude::*;

use crate::types::{BitMask, BitMaskExt, Board, Cell};

verus! {

/// The three kinds of unit of a board: a row, a column or a three by three box.
#[derive(PartialEq, Eq, Debug, Clone, Copy)]
pub enum UnitMode {
    Row,
    Column,
    Box,
}

/// `i` is a valid row, column, box or position index.
pub open spec fn in9(i: int) -> bool {
    0 <= i < 9
}

/// The row of the `k`-th cell of unit `index` of kind `mode`.
/// The cells of a box are counted left to right, then top to bottom,
/// and the boxes themselves in the same order.
pub open spec fn unit_row(mode: UnitMode, index: int, k: int) -> int {
    match mode {
        UnitMode::Row => index,
        UnitMode::Column => k,
        UnitMode::Box => (index / 3) * 3 + k / 3,
    }
}

/// The column of the `k`-th cell of unit `index` of kind `mode`.
pub open spec fn unit_col(mode: UnitMode, index: int, k: int) -> int {
    match mode {
        UnitMode::Row => k,
        UnitMode::Column => index,
        UnitMode::Box => (index % 3) * 3 + k % 3,
    }
}

/// The index of the box that holds the cell at (`r`, `c`).
pub open spec fn box_of(r: int, c: int) -> int {
    (r / 3) * 3 + c / 3
}

/// The index of the unit of kind `mode` that holds the cell at (`r`, `c`).
pub open spec fn unit_of(mode: UnitMode, r: int, c: int) -> int {
    match mode {
        UnitMode::Row => r,
        UnitMode::Column => c,
        UnitMode::Box => box_of(r, c),
    }
}

/// The position within its unit of kind `mode` of the cell at (`r`, `c`).
pub open spec fn pos_in_unit(mode: UnitMode, r: int, c: int) -> int {
    match mode {
        UnitMode::Row => c,
        UnitMode::Column => r,
        UnitMode::Box => (r % 3) * 3 + c % 3,
    }
}

/// The cells at (`r1`, `c1`) and (`r2`, `c2`) share a row, a column or a box.
pub open spec fn same_unit(r1: int, c1: int, r2: int, c2: int) -> bool {
    r1 == r2 || c1 == c2 || box_of(r1, c1) == box_of(r2, c2)
}

/// Two different cells that share a row, a column or a box.
pub open spec fn sees(r1: int, c1: int, r2: int, c2: int) -> bool {
    same_unit(r1, c1, r2, c2) && !(r1 == r2 && c1 == c2)
}

/// The nine cells of unit `index` of kind `mode`, in unit order.
pub open spec fn unit_cells(b: Board, mode: UnitMode, index: int) -> Seq<Cell> {
    Seq::new(9, |k: int| b[unit_row(mode, index, k)][unit_col(mode, index, k)])
}

/// The candidate cells among the first `n` of `cells`, each with its position and mask.
pub open spec fn candidate_entries(cells: Seq<Cell>, n: int) -> Seq<(usize, BitMask)>
    decreases n,
{
    if n <= 0 {
        Seq::empty()
    } else {
        let prev = candidate_entries(cells, n - 1);
        match cells[n - 1] {
            Cell::Candidates(m) => prev.push(((n - 1) as usize, m)),
            _ => prev,
        }
    }
}

/// The candidate cells of a unit, in unit order, each with its position and mask.
pub open spec fn unit_entries(b: Board, mode: UnitMode, index: int) -> Seq<(usize, BitMask)> {
    candidate_entries(unit_cells(b, mode, index), 9)
}

/// `b` with the cell at (`r`, `c`) replaced by `x`.
pub open spec fn board_set(b: Board, r: int, c: int, x: Cell) -> Board {
    vstd::array::spec_array_update(b, r, vstd::array::spec_array_update(b[r], c, x))
}

/// The board after writing the masks of `entries`, one after the other, into unit
/// `index` of kind `mode`.
pub open spec fn write_masks(b: Board, mode: UnitMode, index: int, entries: Seq<(usize, BitMask)>) -> Board
    decreases entries.len(),
{
    if entries.len() == 0 {
        b
    } else {
        let prev = write_masks(b, mode, index, entries.drop_last());
        let k = entries.last().0 as int;
        board_set(prev, unit_row(mode, index, k), unit_col(mode, index, k), Cell::Candidates(entries.last().1))
    }
}

/// Whether writing the masks of `entries` into unit `index` of kind `mode` replaces
/// a mask by a different one at some step.
pub open spec fn masks_change(b: Board, mode: UnitMode, index: int, entries: Seq<(usize, BitMask)>) -> bool
    decreases entries.len(),
{
    if entries.len() == 0 {
        false
    } else {
        let prev = write_masks(b, mode, index, entries.drop_last());
        let k = entries.last().0 as int;
        masks_change(b, mode, index, entries.drop_last())
            || prev[unit_row(mode, index, k)][unit_col(mode, index, k)] != Cell::Candidates(entries.last().1)
    }
}

pub proof fn lemma_board_set(b: Board, r: int, c: int, x: Cell)
    requires
        in9(r),
        in9(c),
    ensures
        forall|r2: int, c2: int|
            in9(r2) && in9(c2) ==> #[trigger] board_set(b, r, c, x)[r2][c2] == if r2 == r && c2 == c {
                x
            } else {
                b[r2][c2]
            },
{
    let inner = vstd::array::spec_array_update(b[r], c, x);
    assert(inner@ == b[r]@.update(c, x));
    assert(board_set(b, r, c, x)@ == b@.update(r, inner));
}

/// Writing masks to candidate cells at strictly increasing positions puts each mask
/// in its cell, leaves every other cell alone, and changes some mask exactly when the
/// board changes.
pub proof fn lemma_write_masks_distinct(b: Board, mode: UnitMode, index: int, entries: Seq<(usize, BitMask)>)
    requires
        in9(index),
        forall|t: int| 0 <= t < entries.len() ==> (#[trigger] entries[t]).0 < 9,
        forall|t1: int, t2: int| 0 <= t1 < t2 < entries.len() ==> (#[trigger] entries[t1]).0 < (#[trigger] entries[t2]).0,
    ensures
        forall|t: int|
            0 <= t < entries.len() ==> #[trigger] write_masks(b, mode, index, entries)[unit_row(mode, index, entries[t].0 as int)][unit_col(
                mode,
                index,
                entries[t].0 as int,
            )] == Cell::Candidates(entries[t].1),
        forall|r: int, c: int|
            in9(r) && in9(c) && (unit_of(mode, r, c) != index || forall|t: int|
                0 <= t < entries.len() ==> (#[trigger] entries[t]).0 != pos_in_unit(mode, r, c)) ==> #[trigger] write_masks(
                b,
                mode,
                index,
                entries,
            )[r][c] == b[r][c],
        masks_change(b, mode, index, entries) == (write_masks(b, mode, index, entries) != b),
    decreases entries.len(),
{
    lemma_unit_geometry(mode, index);
    if entries.len() > 0 {
        let prefix = entries.drop_last();
        lemma_write_masks_distinct(b, mode, index, prefix);
        let prev = write_masks(b, mode, index, prefix);
        let last = entries.last();
        let k = last.0 as int;
        let r0 = unit_row(mode, index, k);
        let c0 = unit_col(mode, index, k);
        lemma_board_set(prev, r0, c0, Cell::Candidates(last.1));
        let w = write_masks(b, mode, index, entries);
        assert(w == board_set(prev, r0, c0, Cell::Candidates(last.1)));
        assert(forall|t: int| 0 <= t < prefix.len() ==> #[trigger] prefix[t] == entries[t]);
        assert(prev[r0][c0] == b[r0][c0]) by {
            assert forall|t: int| 0 <= t < prefix.len() implies (#[trigger] prefix[t]).0 != pos_in_unit(mode, r0, c0) by {
                assert(entries[t].0 < entries[entries.len() - 1].0);
            }
        }
        assert forall|t: int| 0 <= t < entries.len() implies #[trigger] w[unit_row(mode, index, entries[t].0 as int)][unit_col(
            mode,
            index,
            entries[t].0 as int,
        )] == Cell::Candidates(entries[t].1) by {
            if t < entries.len() - 1 {
                assert(entries[t].0 < entries[entries.len() - 1].0);
                assert(prefix[t] == entries[t]);
            }
        }
        assert forall|r: int, c: int|
            in9(r) && in9(c) && (unit_of(mode, r, c) != index || forall|t: int|
                0 <= t < entries.len() ==> (#[trigger] entries[t]).0 != pos_in_unit(mode, r, c)) implies #[trigger] w[r][c]
            == b[r][c] by {
            if unit_of(mode, r, c) == index {
                assert(entries[entries.len() - 1].0 != pos_in_unit(mode, r, c));
                assert forall|t: int| 0 <= t < prefix.len() implies (#[trigger] prefix[t]).0 != pos_in_unit(mode, r, c) by {
                    assert(prefix[t] == entries[t]);
                }
            }
        }
        if prev != b {
            if w == b {
                assert forall|r: int, c: int| in9(r) && in9(c) implies #[trigger] prev[r][c] == b[r][c] by {
                    if r == r0 && c == c0 {
                    } else {
                        assert(w[r][c] == prev[r][c]);
                    }
                }
                lemma_board_ext(prev, b);
            }
        } else {
            if w != b {
                if prev[r0][c0] == Cell::Candidates(last.1) {
                    assert forall|r: int, c: int| in9(r) && in9(c) implies #[trigger] w[r][c] == b[r][c] by {}
                    lemma_board_ext(w, b);
                }
            } else {
                assert(w[r0][c0] == b[r0][c0]);
            }
        }
    }
}

/// `b` with its first `n` cells, in row-major order, replaced by those that `f` gives.
pub open spec fn board_from(b: Board, f: spec_fn(int, int) -> Cell, n: nat) -> Board
    decreases n,
{
    if n == 0 {
        b
    } else {
        board_set(board_from(b, f, (n - 1) as nat), (n - 1) / 9, (n - 1) % 9, f((n - 1) / 9, (n - 1) % 9))
    }
}

/// Every cell of `board_from(b, f, n)` is the one that `f` gives, among the first `n`
/// cells, and the one of `b` otherwise.
pub proof fn lemma_board_from(b: Board, f: spec_fn(int, int) -> Cell, n: nat)
    requires
        n <= 81,
    ensures
        forall|r: int, c: int|
            in9(r) && in9(c) ==> #[trigger] board_from(b, f, n)[r][c] == if r * 9 + c < n {
                f(r, c)
            } else {
                b[r][c]
            },
    decreases n,
{
    if n > 0 {
        lemma_board_from(b, f, (n - 1) as nat);
        lemma_board_set(board_from(b, f, (n - 1) as nat), (n - 1) / 9, (n - 1) % 9, f((n - 1) / 9, (n - 1) % 9));
    }
}

/// Two boards that agree on every cell are equal.
pub proof fn lemma_board_ext(a: Board, b: Board)
    requires
        forall|r: int, c: int| in9(r) && in9(c) ==> #[trigger] a[r][c] == b[r][c],
    ensures
        a == b,
{
    assert forall|r: int| in9(r) implies #[trigger] a[r] == b[r] by {
        assert(a[r] =~= b[r]);
    }
    assert(a =~= b);
}

/// Two masks that agree on every digit are equal.
pub proof fn lemma_mask_ext(a: BitMask, b: BitMask)
    requires
        forall|d: int| in9(d) ==> #[trigger] a[d] == b[d],
    ensures
        a == b,
{
    assert(a =~= b);
}

/// The cells of a unit lie on the board, and different positions are different cells.
pub proof fn lemma_unit_geometry(mode: UnitMode, index: int)
    requires
        in9(index),
    ensures
        forall|k: int|
            in9(k) ==> in9(#[trigger] unit_row(mode, index, k)) && in9(unit_col(mode, index, k))
                && unit_of(mode, unit_row(mode, index, k), unit_col(mode, index, k)) == index
                && pos_in_unit(mode, unit_row(mode, index, k), unit_col(mode, index, k)) == k,
        forall|r: int, c: int|
            in9(r) && in9(c) && #[trigger] unit_of(mode, r, c) == index ==> in9(pos_in_unit(mode, r, c))
                && unit_row(mode, index, pos_in_unit(mode, r, c)) == r
                && unit_col(mode, index, pos_in_unit(mode, r, c)) == c,
{
}

/// The unit of kind `mode` that holds a cell, and the cell's position in it, are in range.
pub proof fn lemma_cell_unit(mode: UnitMode, r: int, c: int)
    requires
        in9(r),
        in9(c),
    ensures
        in9(unit_of(mode, r, c)),
        in9(pos_in_unit(mode, r, c)),
        unit_row(mode, unit_of(mode, r, c), pos_in_unit(mode, r, c)) == r,
        unit_col(mode, unit_of(mode, r, c), pos_in_unit(mode, r, c)) == c,
{
}

/// The entries of a unit's candidate cells: each names a candidate cell and its mask,
/// their positions strictly increase, and every candidate cell among the first `n`
/// has one.
pub proof fn lemma_candidate_entries(cells: Seq<Cell>, n: int)
    requires
        0 <= n <= cells.len(),
        n <= 9,
    ensures
        forall|t: int|
            0 <= t < candidate_entries(cells, n).len() ==> (#[trigger] candidate_entries(cells, n)[t]).0 < n
                && cells[candidate_entries(cells, n)[t].0 as int] == Cell::Candidates(candidate_entries(cells, n)[t].1),
        forall|t1: int, t2: int|
            0 <= t1 < t2 < candidate_entries(cells, n).len() ==> (#[trigger] candidate_entries(cells, n)[t1]).0
                < (#[trigger] candidate_entries(cells, n)[t2]).0,
        forall|k: int|
            0 <= k < n && (#[trigger] cells[k]) is Candidates ==> exists|t: int|
                0 <= t < candidate_entries(cells, n).len() && #[trigger] candidate_entries(cells, n)[t].0 == k,
        candidate_entries(cells, n).len() <= n,
    decreases n,
{
    if n > 0 {
        lemma_candidate_entries(cells, n - 1);
        let prev = candidate_entries(cells, n - 1);
        let cur = candidate_entries(cells, n);
        if cells[n - 1] is Candidates {
            assert(cur == prev.push(((n - 1) as usize, cells[n - 1]->Candidates_0)));
            assert forall|k: int| 0 <= k < n && (#[trigger] cells[k]) is Candidates implies exists|t: int|
                0 <= t < cur.len() && #[trigger] cur[t].0 == k by {
                if k < n - 1 {
                    let t = choose|t: int| 0 <= t < prev.len() && #[trigger] prev[t].0 == k;
                    assert(cur[t] == prev[t]);
                } else {
                    assert(cur[prev.len() as int].0 == k);
                }
            }
        } else {
            assert(cur == prev);
        }
    }
}

/// Two different cells of a unit see each other.
pub proof fn lemma_unit_sees(mode: UnitMode, index: int, k1: int, k2: int)
    requires
        in9(index),
        in9(k1),
        in9(k2),
        k1 != k2,
    ensures
        sees(unit_row(mode, index, k1), unit_col(mode, index, k1), unit_row(mode, index, k2), unit_col(mode, index, k2)),
{
    lemma_unit_geometry(mode, index);
}

/// The row and column of the `k`-th cell of unit `index` of kind `mode`.
pub fn unit_position(mode: UnitMode, index: usize, k: usize) -> (rc: (usize, usize))
    requires
        index < 9,
        k < 9,
    ensures
        rc.0 == unit_row(mode, index as int, k as int),
        rc.1 == unit_col(mode, index as int, k as int),
        rc.0 < 9,
        rc.1 < 9,
{
    match mode {
        UnitMode::Row => (index, k),
        UnitMode::Column => (k, index),
        UnitMode::Box => ((index / 3) * 3 + k / 3, (index % 3) * 3 + k % 3),
    }
}

/// The index of the box that holds the cell at (`row`, `col`).
pub fn row_col_to_box_index(row: usize, col: usize) -> (b: usize)
    requires
        row < 9,
        col < 9,
    ensures
        b == box_of(row as int, col as int),
        b < 9,
{
    (row / 3) * 3 + col / 3
}

/// The row and column of the `idx`-th cell of box `box_index`.
pub fn box_index_to_row_col(box_index: usize, idx: usize) -> (rc: (usize, usize))
    requires
        box_index < 9,
        idx < 9,
    ensures
        rc.0 == unit_row(UnitMode::Box, box_index as int, idx as int),
        rc.1 == unit_col(UnitMode::Box, box_index as int, idx as int),
        rc.0 < 9,
        rc.1 < 9,
{
    unit_position(UnitMode::Box, box_index, idx)
}

/// Whether two cells are equal.
pub fn cells_equal(a: &Cell, b: &Cell) -> (eq: bool)
    ensures
        eq == (*a == *b),
{
    match (a, b) {
        (Cell::Empty, Cell::Empty) => true,
        (Cell::Value(x), Cell::Value(y)) => *x == *y,
        (Cell::Candidates(m1), Cell::Candidates(m2)) => masks_equal(m1, m2),
        _ => false,
    }
}

/// Whether two masks hold the same digits.
pub fn masks_equal(m1: &BitMask, m2: &BitMask) -> (eq: bool)
    ensures
        eq == (*m1 == *m2),
{
    let mut i: usize = 0;
    while i < 9
        invariant
            i <= 9,
            forall|d: int| 0 <= d < i ==> #[trigger] m1[d] == m2[d],
        decreases 9 - i,
    {
        if m1[i] != m2[i] {
            return false;
        }
        i = i + 1;
    }
    proof {
        lemma_mask_ext(*m1, *m2);
    }
    true
}

/// The candidate cells of unit `index` of kind `mode`, each with its position in the unit.
pub fn unit_candidate_masks(board: &Board, index: usize, mode: UnitMode) -> (entries: Vec<(usize, BitMask)>)
    requires
        index < 9,
    ensures
        entries@ == unit_entries(*board, mode, index as int),
{
    let mut candidate_set: Vec<(usize, BitMask)> = Vec::new();
    let ghost cells = unit_cells(*board, mode, index as int);
    let mut k: usize = 0;
    while k < 9
        invariant
            k <= 9,
            index < 9,
            cells == unit_cells(*board, mode, index as int),
            candidate_set@ == candidate_entries(cells, k as int),
        decreases 9 - k,
    {
        let (r, c) = unit_position(mode, index, k);
        if let Cell::Candidates(bits) = board[r][c] {
            candidate_set.push((k, bits));
        }
        k = k + 1;
    }
    candidate_set
}

/// The candidate cells of the row, column or box (by `mode`) through (`row`, `col`),
/// each with its index in that unit. Boxes count their cells left to right, then
/// top to bottom.
pub fn get_unit_candidate_masks(board: &Board, row: usize, col: usize, mode: UnitMode) -> (entries: Vec<(usize, BitMask)>)
    requires
        mode != UnitMode::Column ==> row < 9,
        mode != UnitMode::Row ==> col < 9,
    ensures
        entries@ == unit_entries(*board, mode, unit_of(mode, row as int, col as int)),
{
    match mode {
        UnitMode::Row => unit_candidate_masks(board, row, mode),
        UnitMode::Column => unit_candidate_masks(board, col, mode),
        UnitMode::Box => unit_candidate_masks(board, row_col_to_box_index(row, col), mode),
    }
}

/// The nine cells of unit `index` of kind `mode`, in unit order.
pub fn get_unit(board: &Board, index: usize, mode: UnitMode) -> (cells: [Cell; 9])
    requires
        index < 9,
    ensures
        cells@ == unit_cells(*board, mode, index as int),
{
    let mut cells: [Cell; 9] = [Cell::Empty; 9];
    let mut k: usize = 0;
    while k < 9
        invariant
            k <= 9,
            index < 9,
            forall|j: int| 0 <= j < k ==> #[trigger] cells[j] == unit_cells(*board, mode, index as int)[j],
        decreases 9 - k,
    {
        let (r, c) = unit_position(mode, index, k);
        cells[k] = board[r][c];
        k = k + 1;
    }
    assert(cells@ =~= unit_cells(*board, mode, index as int));
    cells
}

/// Writes the nine cells `masks` into unit `index` of kind `mode`; tells whether any
/// cell changed.
pub fn set_unit(board: &mut Board, index: usize, masks: &[Cell], mode: UnitMode) -> (change: bool)
    requires
        index < 9,
        masks@.len() >= 9,
    ensures
        forall|k: int| in9(k) ==> #[trigger] final(board)[unit_row(mode, index as int, k)][unit_col(mode, index as int, k)] == masks@[k],
        forall|r: int, c: int|
            in9(r) && in9(c) && unit_of(mode, r, c) != index ==> #[trigger] final(board)[r][c] == old(board)[r][c],
        change == exists|k: int| in9(k) && #[trigger] unit_cells(*old(board), mode, index as int)[k] != masks@[k],
        change == (*final(board) != *old(board)),
{
    let mut change = false;
    let mut k: usize = 0;
    proof {
        lemma_unit_geometry(mode, index as int);
    }
    while k < 9
        invariant
            k <= 9,
            index < 9,
            masks@.len() >= 9,
            forall|j: int| 0 <= j < k ==> #[trigger] board[unit_row(mode, index as int, j)][unit_col(mode, index as int, j)] == masks@[j],
            forall|r: int, c: int|
                in9(r) && in9(c) && (unit_of(mode, r, c) != index || pos_in_unit(mode, r, c) >= k) ==> #[trigger] board[r][c] == old(board)[r][c],
            change == exists|j: int| 0 <= j < k && #[trigger] unit_cells(*old(board), mode, index as int)[j] != masks@[j],
            forall|j: int|
                in9(j) ==> in9(#[trigger] unit_row(mode, index as int, j)) && in9(unit_col(mode, index as int, j))
                    && unit_of(mode, unit_row(mode, index as int, j), unit_col(mode, index as int, j)) == index
                    && pos_in_unit(mode, unit_row(mode, index as int, j), unit_col(mode, index as int, j)) == j,
            forall|r: int, c: int|
                in9(r) && in9(c) && #[trigger] unit_of(mode, r, c) == index ==> in9(pos_in_unit(mode, r, c))
                    && unit_row(mode, index as int, pos_in_unit(mode, r, c)) == r
                    && unit_col(mode, index as int, pos_in_unit(mode, r, c)) == c,
        decreases 9 - k,
    {
        let (r, c) = unit_position(mode, index, k);
        let m = masks[k];
        assert(board[r as int][c as int] == unit_cells(*old(board), mode, index as int)[k as int]);
        if !cells_equal(&board[r][c], &m) {
            board[r][c] = m;
            change = true;
        }
        k = k + 1;
    }
    proof {
        if *board == *old(board) {
            assert forall|j: int| in9(j) implies #[trigger] unit_cells(*old(board), mode, index as int)[j] == masks@[j] by {
                assert(board[unit_row(mode, index as int, j)][unit_col(mode, index as int, j)] == masks@[j]);
            }
        }
        if !change {
            assert forall|r: int, c: int| in9(r) && in9(c) implies #[trigger] board[r][c] == old(board)[r][c] by {
                if unit_of(mode, r, c) == index {
                    let j = pos_in_unit(mode, r, c);
                    assert(unit_cells(*old(board), mode, index as int)[j] == masks@[j]);
                }
            }
            lemma_board_ext(*board, *old(board));
        }
    }
    change
}

/// Writes the masks of `masks`, one after the other, into the candidate cells of unit
/// `index` of kind `mode` that they name; tells whether any write replaced a mask by
/// a different one.
pub fn set_unit_candidate_masks(board: &mut Board, index: usize, masks: &[(usize, BitMask)], mode: UnitMode) -> (change: bool)
    requires
        forall|i: int|
            0 <= i < masks@.len() ==> in9(unit_row(mode, index as int, (#[trigger] masks@[i]).0 as int)) && in9(
                unit_col(mode, index as int, masks@[i].0 as int),
            ) && old(board)[unit_row(mode, index as int, masks@[i].0 as int)][unit_col(mode, index as int, masks@[i].0 as int)] is Candidates,
    ensures
        *final(board) == write_masks(*old(board), mode, index as int, masks@),
        change == masks_change(*old(board), mode, index as int, masks@),
{
    let mut change = false;
    let mut i: usize = 0;
    while i < masks.len()
        invariant
            i <= masks@.len(),
            forall|j: int|
                0 <= j < masks@.len() ==> in9(unit_row(mode, index as int, (#[trigger] masks@[j]).0 as int)) && in9(
                    unit_col(mode, index as int, masks@[j].0 as int),
                ) && old(board)[unit_row(mode, index as int, masks@[j].0 as int)][unit_col(mode, index as int, masks@[j].0 as int)] is Candidates,
            *board == write_masks(*old(board), mode, index as int, masks@.subrange(0, i as int)),
            change == masks_change(*old(board), mode, index as int, masks@.subrange(0, i as int)),
            forall|r: int, c: int| in9(r) && in9(c) ==> ((#[trigger] board[r][c]) is Candidates <==> old(board)[r][c] is Candidates),
        decreases masks@.len() - i,
    {
        let ghost prefix = masks@.subrange(0, i as int);
        let ghost next = masks@.subrange(0, i as int + 1);
        assert(next.drop_last() =~= prefix);
        let (k, mask) = masks[i];
        assert(in9(unit_row(mode, index as int, masks@[i as int].0 as int)));
        let (r, c) = match mode {
            UnitMode::Row => (index, k),
            UnitMode::Column => (k, index),
            UnitMode::Box => ((index / 3) * 3 + k / 3, (index % 3) * 3 + k % 3),
        };
        proof {
            lemma_board_set(*board, r as int, c as int, Cell::Candidates(mask));
        }
        if let Cell::Candidates(bits) = board[r][c] {
            if !masks_equal(&bits, &mask) {
                board[r][c] = Cell::Candidates(mask);
                change = true;
            } else {
                proof {
                    lemma_board_ext(*board, board_set(*board, r as int, c as int, Cell::Candidates(mask)));
                }
            }
        }
        proof {
            lemma_board_ext(*board, write_masks(*old(board), mode, index as int, next));
        }
        i = i + 1;
    }
    assert(masks@.subrange(0, masks@.len() as int) =~= masks@);
    change
}

/// `new` is `old` without the digits of `mask` when `old` is a candidate set, and
/// `old` itself otherwise.
pub open spec fn minus_rel(old: Cell, new: Cell, mask: BitMask) -> bool {
    if old is Candidates {
        new is Candidates && forall|d: int| in9(d) ==> #[trigger] new->Candidates_0[d] == (old->Candidates_0[d] && !mask[d])
    } else {
        new == old
    }
}

/// Whether `v` holds `x`.
pub fn vec_contains(v: &Vec<usize>, x: usize) -> (found: bool)
    ensures
        found == v@.contains(x),
{
    let mut i: usize = 0;
    while i < v.len()
        invariant
            i <= v@.len(),
            forall|j: int| 0 <= j < i ==> v@[j] != x,
        decreases v@.len() - i,
    {
        if v[i] == x {
            return true;
        }
        i = i + 1;
    }
    false
}

/// Removes the digits of `mask` from every candidate cell of unit `index` of kind
/// `mode` whose position in the unit is not in `keep`; tells whether any cell lost a
/// candidate.
pub fn remove_from_unit(board: &mut Board, index: usize, mode: UnitMode, keep: &Vec<usize>, mask: &BitMask) -> (change: bool)
    requires
        index < 9,
    ensures
        forall|r: int, c: int|
            in9(r) && in9(c) ==> if unit_of(mode, r, c) == index && !keep@.contains(pos_in_unit(mode, r, c) as usize) {
                minus_rel(old(board)[r][c], #[trigger] final(board)[r][c], *mask)
            } else {
                final(board)[r][c] == old(board)[r][c]
            },
        change == (*final(board) != *old(board)),
{
    let mut change = false;
    proof {
        lemma_unit_geometry(mode, index as int);
    }
    let mut k: usize = 0;
    while k < 9
        invariant
            k <= 9,
            index < 9,
            forall|j: int|
                in9(j) ==> in9(#[trigger] unit_row(mode, index as int, j)) && in9(unit_col(mode, index as int, j))
                    && unit_of(mode, unit_row(mode, index as int, j), unit_col(mode, index as int, j)) == index
                    && pos_in_unit(mode, unit_row(mode, index as int, j), unit_col(mode, index as int, j)) == j,
            forall|r: int, c: int|
                in9(r) && in9(c) && #[trigger] unit_of(mode, r, c) == index ==> in9(pos_in_unit(mode, r, c))
                    && unit_row(mode, index as int, pos_in_unit(mode, r, c)) == r
                    && unit_col(mode, index as int, pos_in_unit(mode, r, c)) == c,
            forall|r: int, c: int|
                in9(r) && in9(c) ==> if unit_of(mode, r, c) == index && pos_in_unit(mode, r, c) < k && !keep@.contains(
                    pos_in_unit(mode, r, c) as usize,
                ) {
                    minus_rel(old(board)[r][c], #[trigger] board[r][c], *mask)
                } else {
                    board[r][c] == old(board)[r][c]
                },
            change == (*board != *old(board)),
        decreases 9 - k,
    {
        let ghost before = *board;
        if !vec_contains(keep, k) {
            let (r, c) = unit_position(mode, index, k);
            if let Cell::Candidates(bits) = board[r][c] {
                let mut b2 = bits;
                if b2.remove(mask) {
                    board[r][c] = Cell::Candidates(b2);
                    change = true;
                    proof {
                        let d = choose|d: int| 0 <= d < 9 && bits[d] && #[trigger] mask[d];
                        assert(!board[r as int][c as int]->Candidates_0[d]);
                        assert(board[r as int][c as int] != old(board)[r as int][c as int]);
                    }
                } else {
                    proof {
                        assert forall|d: int| in9(d) implies #[trigger] bits[d] == (bits[d] && !mask[d]) by {}
                    }
                }
            }
        }
        proof {
            if !change {
                assert forall|r: int, c: int| in9(r) && in9(c) implies #[trigger] board[r][c] == old(board)[r][c] by {
                    if unit_of(mode, r, c) == index && pos_in_unit(mode, r, c) < k + 1 && !keep@.contains(
                        pos_in_unit(mode, r, c) as usize,
                    ) && old(board)[r][c] is Candidates {
                        assert forall|d: int| in9(d) implies #[trigger] board[r][c]->Candidates_0[d]
                            == old(board)[r][c]->Candidates_0[d] by {
                            if pos_in_unit(mode, r, c) < k {
                                assert(before == *old(board));
                            }
                        }
                        lemma_mask_ext(board[r][c]->Candidates_0, old(board)[r][c]->Candidates_0);
                    }
                }
                lemma_board_ext(*board, *old(board));
            }
        }
        k = k + 1;
    }
    change
}

} // verus!
