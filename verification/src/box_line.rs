use vstd::prelude::*;

use crate::candidates::{clear_cell, lemma_mask_without_keeps};
use crate::helpers::{
    box_of, get_unit_candidate_masks, in9, lemma_board_ext, lemma_candidate_entries, lemma_mask_ext, lemma_unit_geometry,
    lemma_unit_sees, sees, unit_cells, unit_col, unit_entries, unit_of, unit_row, UnitMode,
};
use crate::rules::{agree_on_digit, keep_board, lemma_keep_board, lemma_unit_entries_agree, same_candidate_cells, clears_only, 
    allows, cell_refines, cell_without, consistent, is_solution, lemma_mask_without, lemma_refines_strict, lemma_refines_trans,
    refines, settled, unit_holds,
};
use crate::types::{BasicGrid, BitMask, Board, Cell};

verus! {

/// The line through the box positions `indices`, when there are two or three of them
/// and they lie on one row (then the first position and `Row`) or on one column (then
/// the first position and `Column`) of the box. Positions count left to right, then
/// top to bottom.
pub open spec fn pointing_line(indices: Seq<usize>) -> Option<(usize, UnitMode)> {
    if indices.len() > 3 || indices.len() < 2 {
        None
    } else if forall|j: int| 0 <= j < indices.len() ==> #[trigger] indices[j] / 3 == indices[0] / 3 {
        Some((indices[0], UnitMode::Row))
    } else if forall|j: int| 0 <= j < indices.len() ==> #[trigger] indices[j] % 3 == indices[0] % 3 {
        Some((indices[0], UnitMode::Column))
    } else {
        None
    }
}

/// The positions of the first `n` entries that hold the candidate `v`, in order.
pub open spec fn holder_positions(entries: Seq<(usize, BitMask)>, v: int, n: int) -> Seq<usize>
    decreases n,
{
    if n <= 0 {
        Seq::empty()
    } else {
        let prev = holder_positions(entries, v, n - 1);
        if entries[n - 1].1[v] {
            prev.push(entries[n - 1].0)
        } else {
            prev
        }
    }
}

/// The positions of the candidate cells of box `bx` that hold the candidate `v`.
pub open spec fn box_holders(b: Board, bx: int, v: int) -> Seq<usize> {
    holder_positions(unit_entries(b, UnitMode::Box, bx), v, unit_entries(b, UnitMode::Box, bx).len() as int)
}

/// In box `bx`, the candidate `v` lies on one line, and the cell at (`r`, `c`) is on that
/// line outside the box.
pub open spec fn pointing_clears(b: Board, bx: int, r: int, c: int, v: int) -> bool {
    match pointing_line(box_holders(b, bx, v)) {
        Some((i, UnitMode::Row)) => r == (bx / 3) * 3 + i / 3 && c / 3 != bx % 3,
        Some((i, UnitMode::Column)) => c == (bx % 3) * 3 + i % 3 && r / 3 != bx / 3,
        _ => false,
    }
}

/// `new` is `old` after each candidate that lies on one line within box `bx` was
/// removed from the rest of that line.
pub open spec fn pointing_unit(old: Board, bx: int, new: Board) -> bool {
    forall|r: int, c: int|
        in9(r) && in9(c) ==> if old[r][c] is Candidates {
            (#[trigger] new[r][c]) is Candidates && forall|d: int|
                in9(d) ==> #[trigger] new[r][c]->Candidates_0[d] == (old[r][c]->Candidates_0[d] && !pointing_clears(old, bx, r, c, d))
        } else {
            new[r][c] == old[r][c]
        }
}

/// The pointing pass on box `n`.
pub open spec fn pointing_step(b: Board, n: int) -> Board {
    choose|x: Board| #[trigger] pointing_unit(b, n, x)
}

/// The pointing pass over the first `n` boxes.
pub open spec fn pointing_board(b: Board, n: nat) -> Board
    decreases n,
{
    if n == 0 {
        b
    } else {
        pointing_step(pointing_board(b, (n - 1) as nat), n - 1)
    }
}

/// When the box positions `indices` are two or three on one row or one column of a
/// box, that line: its first position and whether it is a `Row` or a `Column`.
pub fn detect_lines_in_pointing_set(indices: &[usize]) -> (line: Option<(usize, UnitMode)>)
    ensures
        line == pointing_line(indices@),
{
    if indices.len() > 3 || indices.len() < 2 {
        return None;
    }
    let first = indices[0];
    let mut all_row = true;
    let mut j: usize = 0;
    while j < indices.len()
        invariant
            j <= indices@.len(),
            first == indices@[0],
            all_row == forall|i: int| 0 <= i < j ==> #[trigger] indices@[i] / 3 == first / 3,
        decreases indices@.len() - j,
    {
        if indices[j] / 3 != first / 3 {
            all_row = false;
        }
        j = j + 1;
    }
    if all_row {
        return Some((first, UnitMode::Row));
    }
    let mut all_col = true;
    let mut j: usize = 0;
    while j < indices.len()
        invariant
            j <= indices@.len(),
            first == indices@[0],
            all_col == forall|i: int| 0 <= i < j ==> #[trigger] indices@[i] % 3 == first % 3,
        decreases indices@.len() - j,
    {
        if indices[j] % 3 != first % 3 {
            all_col = false;
        }
        j = j + 1;
    }
    if all_col {
        return Some((first, UnitMode::Column));
    }
    None
}

/// Removes the candidate `value` from the cells of row `line` (or of column `line`,
/// when `on_row` is false) outside the third `block` of that line; tells whether any
/// cell lost it.
fn clear_line(board: &mut Board, on_row: bool, line: usize, block: usize, value: usize) -> (change: bool)
    requires
        line < 9,
        block < 3,
        value < 9,
    ensures
        forall|r: int, c: int|
            in9(r) && in9(c) ==> #[trigger] final(board)[r][c] == if (on_row && r == line && c / 3 != block) || (!on_row && c
                == line && r / 3 != block) {
                cell_without(old(board)[r][c], value as int)
            } else {
                old(board)[r][c]
            },
        change == (*final(board) != *old(board)),
{
    let mut change = false;
    let mut k: usize = 0;
    while k < 9
        invariant
            k <= 9,
            line < 9,
            block < 3,
            value < 9,
            forall|r: int, c: int|
                in9(r) && in9(c) ==> #[trigger] board[r][c] == if (on_row && r == line && c / 3 != block && c < k) || (!on_row
                    && c == line && r / 3 != block && r < k) {
                    cell_without(old(board)[r][c], value as int)
                } else {
                    old(board)[r][c]
                },
            change == (*board != *old(board)),
        decreases 9 - k,
    {
        let ghost before = *board;
        if k / 3 != block {
            let (rr, cc) = if on_row {
                (line, k)
            } else {
                (k, line)
            };
            proof {
                lemma_mask_without_keeps(old(board)[rr as int][cc as int], value as int);
            }
            let hit = clear_cell(board, rr, cc, value);
            if hit {
                change = true;
                assert(board[rr as int][cc as int] != old(board)[rr as int][cc as int]);
            } else {
                proof {
                    assert(board[rr as int][cc as int] == before[rr as int][cc as int]);
                    lemma_board_ext(*board, before);
                }
            }
        }
        k = k + 1;
    }
    change
}

/// The positions of the candidate cells of `candidate_set` that hold `value`.
fn holder_indices(candidate_set: &Vec<(usize, BitMask)>, value: usize) -> (indices: Vec<usize>)
    requires
        value < 9,
    ensures
        indices@ == holder_positions(candidate_set@, value as int, candidate_set@.len() as int),
{
    let mut indices: Vec<usize> = Vec::new();
    let mut t: usize = 0;
    while t < candidate_set.len()
        invariant
            t <= candidate_set@.len(),
            value < 9,
            indices@ == holder_positions(candidate_set@, value as int, t as int),
        decreases candidate_set@.len() - t,
    {
        let (n, b) = candidate_set[t];
        if b[value] {
            indices.push(n);
        }
        t = t + 1;
    }
    indices
}

/// For every candidate that lies on one line within the box whose top-left cell is
/// (`r`, `c`), removes it from the rest of that line; tells whether any was removed.
fn pointing_in_box(board: &mut Board, r: usize, c: usize) -> (change: bool)
    requires
        r < 9,
        c < 9,
        r % 3 == 0,
        c % 3 == 0,
    ensures
        pointing_unit(*old(board), box_of(r as int, c as int), *final(board)),
        change == (*final(board) != *old(board)),
{
    let ghost bx = box_of(r as int, c as int);
    let candidate_set = get_unit_candidate_masks(board, r, c, UnitMode::Box);
    assert(unit_of(UnitMode::Box, r as int, c as int) == bx);
    let mut change = false;
    let mut value: usize = 0;
    while value < 9
        invariant
            value <= 9,
            r < 9,
            c < 9,
            r % 3 == 0,
            c % 3 == 0,
            bx == box_of(r as int, c as int),
            candidate_set@ == unit_entries(*old(board), UnitMode::Box, bx),
            forall|r2: int, c2: int|
                in9(r2) && in9(c2) ==> if old(board)[r2][c2] is Candidates {
                    (#[trigger] board[r2][c2]) is Candidates && forall|d: int|
                        in9(d) ==> #[trigger] board[r2][c2]->Candidates_0[d] == (old(board)[r2][c2]->Candidates_0[d] && !(d < value
                            && pointing_clears(*old(board), bx, r2, c2, d)))
                } else {
                    board[r2][c2] == old(board)[r2][c2]
                },
            change == (*board != *old(board)),
        decreases 9 - value,
    {
        let indices = holder_indices(&candidate_set, value);
        let ghost before = *board;
        let line = detect_lines_in_pointing_set(indices.as_slice());
        assert(line == pointing_line(box_holders(*old(board), bx, value as int)));
        let mut hit_line = false;
        let mut on_row = true;
        let mut line_index: usize = 0;
        let mut block: usize = 0;
        match line {
            Some((index, UnitMode::Row)) => {
                hit_line = true;
                on_row = true;
                line_index = r + index / 3;
                block = c / 3;
                assert(index < 9) by {
                    lemma_holders_in_box(*old(board), bx, value as int);
                }
            },
            Some((index, UnitMode::Column)) => {
                hit_line = true;
                on_row = false;
                line_index = c + index % 3;
                block = r / 3;
            },
            _ => {},
        }
        if hit_line {
            let cleared = clear_line(board, on_row, line_index, block, value);
            if cleared {
                change = true;
            }
        }
        proof {
            assert forall|r2: int, c2: int| in9(r2) && in9(c2) implies if old(board)[r2][c2] is Candidates {
                (#[trigger] board[r2][c2]) is Candidates && forall|d: int|
                    in9(d) ==> #[trigger] board[r2][c2]->Candidates_0[d] == (old(board)[r2][c2]->Candidates_0[d] && !(d < value + 1
                        && pointing_clears(*old(board), bx, r2, c2, d)))
            } else {
                board[r2][c2] == old(board)[r2][c2]
            } by {
                if old(board)[r2][c2] is Candidates {
                    lemma_mask_without(before[r2][c2]->Candidates_0, value as int);
                }
            }
            if *board != before {
                assert(refines(*old(board), before)) by {
                    assert forall|r2: int, c2: int| in9(r2) && in9(c2) implies cell_refines(#[trigger] old(board)[r2][c2], before[r2][c2]) by {}
                }
                assert(refines(before, *board)) by {
                    assert forall|r2: int, c2: int| in9(r2) && in9(c2) implies cell_refines(#[trigger] before[r2][c2], board[r2][c2]) by {
                        if before[r2][c2] is Candidates {
                            lemma_mask_without(before[r2][c2]->Candidates_0, value as int);
                        }
                    }
                }
                lemma_refines_strict(*old(board), before, *board);
            }
        }
        value = value + 1;
    }
    change
}

/// The holders of a candidate in a box are box positions below nine.
proof fn lemma_holders_in_box(b: Board, bx: int, v: int)
    requires
        in9(bx),
    ensures
        forall|j: int| 0 <= j < box_holders(b, bx, v).len() ==> #[trigger] box_holders(b, bx, v)[j] < 9,
{
    let e = unit_entries(b, UnitMode::Box, bx);
    lemma_candidate_entries(unit_cells(b, UnitMode::Box, bx), 9);
    lemma_holder_positions(e, v, e.len() as int);
}

/// The holder positions are positions of entries that hold the candidate, and every
/// entry that holds it gives one.
proof fn lemma_holder_positions(entries: Seq<(usize, BitMask)>, v: int, n: int)
    requires
        0 <= n <= entries.len(),
        forall|t: int| 0 <= t < entries.len() ==> (#[trigger] entries[t]).0 < 9,
    ensures
        forall|j: int|
            0 <= j < holder_positions(entries, v, n).len() ==> #[trigger] holder_positions(entries, v, n)[j] < 9 && exists|t: int|
                0 <= t < n && entries[t].0 == holder_positions(entries, v, n)[j] && #[trigger] entries[t].1[v],
        forall|t: int| 0 <= t < n && (#[trigger] entries[t]).1[v] ==> holder_positions(entries, v, n).contains(entries[t].0),
    decreases n,
{
    if n > 0 {
        lemma_holder_positions(entries, v, n - 1);
        let prev = holder_positions(entries, v, n - 1);
        let cur = holder_positions(entries, v, n);
        assert forall|j: int| 0 <= j < cur.len() implies #[trigger] cur[j] < 9 && exists|t: int|
            0 <= t < n && entries[t].0 == cur[j] && #[trigger] entries[t].1[v] by {
            if j < prev.len() {
                assert(cur[j] == prev[j]);
                let t = choose|t: int| 0 <= t < n - 1 && entries[t].0 == prev[j] && #[trigger] entries[t].1[v];
            } else {
                assert(cur[j] == entries[n - 1].0);
            }
        }
        assert forall|t: int| 0 <= t < n && (#[trigger] entries[t]).1[v] implies cur.contains(entries[t].0) by {
            if t < n - 1 {
                let j = choose|j: int| 0 <= j < prev.len() && prev[j] == entries[t].0;
                assert(cur[j] == prev[j]);
            } else {
                assert(cur[prev.len() as int] == entries[t].0);
            }
        }
    }
}

/// Removes, for every box in order and every candidate that lies on one line within
/// the box, that candidate from the rest of the line; tells whether any candidate was
/// removed.
pub fn eliminate_pointing_sets(board: &mut Board) -> (change: bool)
    ensures
        *final(board) == pointing_board(*old(board), 9),
        change == (*final(board) != *old(board)),
        refines(*old(board), *final(board)),
        clears_only(*old(board), *final(board)),
        forall|s: BasicGrid|
            is_solution(s) && consistent(*old(board), s) && settled(*old(board)) ==> consistent(*final(board), s),
{
    let mut change = false;
    let mut n: usize = 0;
    while n < 9
        invariant
            n <= 9,
            *board == pointing_board(*old(board), n as nat),
            change == (*board != *old(board)),
            refines(*old(board), *board),
            clears_only(*old(board), *board),
            forall|s: BasicGrid|
                is_solution(s) && consistent(*old(board), s) && settled(*old(board)) ==> consistent(*board, s) && settled(*board),
        decreases 9 - n,
    {
        let r = (n / 3) * 3;
        let c = (n % 3) * 3;
        let ghost before = *board;
        let step = pointing_in_box(board, r, c);
        if step {
            change = true;
        }
        proof {
            assert(box_of(r as int, c as int) == n);
            lemma_pointing_unique(before, n as int, *board);
            lemma_pointing_refines(before, n as int, *board);
            lemma_refines_trans(*old(board), before, *board);
            crate::rules::lemma_clears_only_trans(*old(board), before, *board);
            if step {
                lemma_refines_strict(*old(board), before, *board);
            }
            assert forall|s: BasicGrid| is_solution(s) && consistent(*old(board), s) && settled(*old(board)) implies consistent(
                *board,
                s,
            ) && settled(*board) by {
                lemma_pointing_sound(before, n as int, *board, s);
            }
        }
        n = n + 1;
    }
    change
}

proof fn lemma_pointing_unique(b: Board, n: int, x: Board)
    requires
        pointing_unit(b, n, x),
    ensures
        pointing_step(b, n) == x,
{
    let y = pointing_step(b, n);
    assert(pointing_unit(b, n, y));
    assert forall|r: int, c: int| in9(r) && in9(c) implies #[trigger] y[r][c] == x[r][c] by {
        if b[r][c] is Candidates {
            assert forall|d: int| in9(d) implies #[trigger] y[r][c]->Candidates_0[d] == x[r][c]->Candidates_0[d] by {}
            lemma_mask_ext(y[r][c]->Candidates_0, x[r][c]->Candidates_0);
        }
    }
    lemma_board_ext(y, x);
}

/// The pointing pass on a box only removes candidates.
pub proof fn lemma_pointing_refines(b: Board, n: int, x: Board)
    requires
        pointing_unit(b, n, x),
    ensures
        refines(b, x),
        clears_only(b, x),
{
    assert(clears_only(b, x));
    assert forall|r: int, c: int| in9(r) && in9(c) implies cell_refines(#[trigger] b[r][c], x[r][c]) by {}
}

/// On a settled board, the pointing pass on a box never removes the digit that a
/// solution consistent with the board puts in a cell, and leaves the board settled.
pub proof fn lemma_pointing_sound(b: Board, bx: int, x: Board, s: BasicGrid)
    requires
        in9(bx),
        pointing_unit(b, bx, x),
        is_solution(s),
        consistent(b, s),
        settled(b),
    ensures
        consistent(x, s),
        settled(x),
{
    let e = unit_entries(b, UnitMode::Box, bx);
    let cells = unit_cells(b, UnitMode::Box, bx);
    lemma_candidate_entries(cells, 9);
    lemma_unit_geometry(UnitMode::Box, bx);
    assert forall|r: int, c: int| in9(r) && in9(c) implies allows(#[trigger] x[r][c], s[r][c]) by {
        assert(allows(b[r][c], s[r][c]));
        if b[r][c] is Candidates {
            let d = s[r][c] - 1;
            if pointing_clears(b, bx, r, c, d) {
                let h = box_holders(b, bx, d);
                lemma_holder_positions(e, d, e.len() as int);
                assert(unit_holds(s, UnitMode::Box, bx, d + 1));
                let k = choose|k: int|
                    in9(k) && s[unit_row(UnitMode::Box, bx, k)][unit_col(UnitMode::Box, bx, k)] == d + 1;
                let rk = unit_row(UnitMode::Box, bx, k);
                let ck = unit_col(UnitMode::Box, bx, k);
                assert(allows(b[rk][ck], s[rk][ck]));
                if b[rk][ck] is Value {
                    let h0 = h[0];
                    let t = choose|t: int| 0 <= t < e.len() && e[t].0 == h0 && #[trigger] e[t].1[d];
                    let k0 = e[t].0 as int;
                    assert(cells[k0] == Cell::Candidates(e[t].1));
                    lemma_unit_sees(UnitMode::Box, bx, k0, k);
                    assert(false);
                }
                assert(cells[k] == b[rk][ck]);
                let t = choose|t: int| 0 <= t < e.len() && #[trigger] e[t].0 == k;
                assert(e[t].1[d]);
                assert(h.contains(e[t].0));
                let j = choose|j: int| 0 <= j < h.len() && h[j] == e[t].0;
                assert(sees(r, c, rk, ck));
                assert(false);
            }
        }
    }
    assert forall|r: int, c: int, r2: int, c2: int|
        in9(r) && in9(c) && in9(r2) && in9(c2) && #[trigger] sees(r, c, r2, c2) && x[r][c] is Candidates && x[r2][c2] is Value
            && 1 <= x[r2][c2]->Value_0 <= 9 implies !x[r][c]->Candidates_0[x[r2][c2]->Value_0 - 1] by {
        assert(b[r2][c2] == x[r2][c2]);
        assert(b[r][c] is Candidates);
    }
}

/// Entries with the same positions that agree on the candidate `d` have the same
/// holders of `d`.
proof fn lemma_holders_agree(ex: Seq<(usize, BitMask)>, ey: Seq<(usize, BitMask)>, d: int, n: int)
    requires
        0 <= n <= ex.len(),
        ex.len() == ey.len(),
        forall|t: int| 0 <= t < ex.len() ==> (#[trigger] ex[t]).0 == ey[t].0 && ex[t].1[d] == ey[t].1[d],
    ensures
        holder_positions(ex, d, n) == holder_positions(ey, d, n),
    decreases n,
{
    if n > 0 {
        lemma_holders_agree(ex, ey, d, n - 1);
        assert(ex[n - 1].0 == ey[n - 1].0);
    }
}

/// The pointing pass on a box has a result.
proof fn lemma_pointing_exists(b: Board, bx: int)
    ensures
        pointing_unit(b, bx, pointing_step(b, bx)),
{
    let keep = |r: int, c: int, d: int| !pointing_clears(b, bx, r, c, d);
    lemma_keep_board(b, keep);
    assert(pointing_unit(b, bx, keep_board(b, keep)));
}

/// One pointing step keeps two boards with their candidate cells in the same places that agree on the candidate
/// `d` so.
proof fn lemma_pointing_step_agree(x: Board, y: Board, bx: int, d: int)
    requires
        in9(bx),
        in9(d),
        same_candidate_cells(x, y),
        agree_on_digit(x, y, d),
    ensures
        same_candidate_cells(pointing_step(x, bx), pointing_step(y, bx)),
        agree_on_digit(pointing_step(x, bx), pointing_step(y, bx), d),
{
    lemma_pointing_exists(x, bx);
    lemma_pointing_exists(y, bx);
    lemma_unit_entries_agree(x, y, UnitMode::Box, bx, d);
    let ex = unit_entries(x, UnitMode::Box, bx);
    let ey = unit_entries(y, UnitMode::Box, bx);
    lemma_holders_agree(ex, ey, d, ex.len() as int);
    assert(box_holders(x, bx, d) == box_holders(y, bx, d));
    let nx = pointing_step(x, bx);
    let ny = pointing_step(y, bx);
    assert forall|r: int, c: int| in9(r) && in9(c) implies ((#[trigger] nx[r][c]) is Candidates <==> ny[r][c] is Candidates) by {
        assert(x[r][c] is Candidates <==> y[r][c] is Candidates);
    }
    assert forall|r: int, c: int|
        in9(r) && in9(c) && (#[trigger] nx[r][c]) is Candidates && ny[r][c] is Candidates implies nx[r][c]->Candidates_0[d]
        == ny[r][c]->Candidates_0[d] by {
        assert(x[r][c] is Candidates <==> y[r][c] is Candidates);
        if x[r][c] is Candidates {
            assert(pointing_clears(x, bx, r, c, d) == pointing_clears(y, bx, r, c, d));
        }
    }
}

/// Each candidate digit is handled on its own: two boards with their candidate cells in
/// the same places (whatever their other cells hold), whose candidate sets agree on the digit
/// `d`, still do so, and still agree on `d`, after the pointing passes on the first `n`
/// boxes.
pub proof fn lemma_pointing_digit_independent(a: Board, b: Board, d: int, n: nat)
    requires
        n <= 9,
        in9(d),
        same_candidate_cells(a, b),
        agree_on_digit(a, b, d),
    ensures
        same_candidate_cells(pointing_board(a, n), pointing_board(b, n)),
        agree_on_digit(pointing_board(a, n), pointing_board(b, n), d),
    decreases n,
{
    if n > 0 {
        lemma_pointing_digit_independent(a, b, d, (n - 1) as nat);
        lemma_pointing_step_agree(pointing_board(a, (n - 1) as nat), pointing_board(b, (n - 1) as nat), n - 1, d);
    }
}

/// The holders of `v` among the first `n` entries come in the entries' order, each at
/// most the position of the last of those entries.
proof fn lemma_holder_order(e: Seq<(usize, BitMask)>, v: int, n: int)
    requires
        0 <= n <= e.len(),
        forall|t1: int, t2: int| 0 <= t1 < t2 < e.len() ==> (#[trigger] e[t1]).0 < (#[trigger] e[t2]).0,
    ensures
        forall|j1: int, j2: int|
            0 <= j1 < j2 < holder_positions(e, v, n).len() ==> #[trigger] holder_positions(e, v, n)[j1] < #[trigger] holder_positions(
                e,
                v,
                n,
            )[j2],
        forall|j: int|
            0 <= j < holder_positions(e, v, n).len() ==> n > 0 && #[trigger] holder_positions(e, v, n)[j] <= e[n - 1].0,
    decreases n,
{
    if n > 0 {
        lemma_holder_order(e, v, n - 1);
        let prev = holder_positions(e, v, n - 1);
        let cur = holder_positions(e, v, n);
        if e[n - 1].1[v] {
            assert(cur == prev.push(e[n - 1].0));
            assert forall|j1: int, j2: int| 0 <= j1 < j2 < cur.len() implies #[trigger] cur[j1] < #[trigger] cur[j2] by {
                assert(cur[j1] == prev[j1]);
                if j2 < prev.len() {
                    assert(cur[j2] == prev[j2]);
                } else {
                    assert(prev[j1] <= e[n - 2].0);
                    assert(e[n - 2].0 < e[n - 1].0);
                }
            }
            assert forall|j: int| 0 <= j < cur.len() implies n > 0 && #[trigger] cur[j] <= e[n - 1].0 by {
                if j < prev.len() {
                    assert(cur[j] == prev[j]);
                    assert(prev[j] <= e[n - 2].0);
                    assert(e[n - 2].0 < e[n - 1].0);
                }
            }
        } else {
            assert(cur == prev);
            assert forall|j: int| 0 <= j < cur.len() implies n > 0 && #[trigger] cur[j] <= e[n - 1].0 by {
                assert(prev[j] <= e[n - 2].0);
                assert(e[n - 2].0 < e[n - 1].0);
            }
        }
    }
}

/// The row (for `Row`) or the column (for `Column`) within its box of the `k`-th cell of
/// a box.
pub open spec fn box_line_of(mode: UnitMode, k: int) -> int {
    if mode == UnitMode::Row {
        k / 3
    } else {
        k % 3
    }
}

/// The candidate `v` is held by two different candidate cells of box `bx`.
pub open spec fn box_holds_twice(b: Board, bx: int, v: int) -> bool {
    exists|k1: int, k2: int|
        in9(k1) && in9(k2) && k1 != k2 && (#[trigger] unit_cells(b, UnitMode::Box, bx)[k1]) is Candidates
            && unit_cells(b, UnitMode::Box, bx)[k1]->Candidates_0[v] && (#[trigger] unit_cells(b, UnitMode::Box, bx)[k2]) is Candidates
            && unit_cells(b, UnitMode::Box, bx)[k2]->Candidates_0[v]
}

/// A box whose candidate `v` is held by at most one cell gives no pointing line for it.
proof fn lemma_box_single_no_line(b: Board, bx: int, v: int)
    requires
        in9(bx),
        !box_holds_twice(b, bx, v),
    ensures
        pointing_line(box_holders(b, bx, v)) is None,
{
    let cells = unit_cells(b, UnitMode::Box, bx);
    let e = unit_entries(b, UnitMode::Box, bx);
    lemma_candidate_entries(cells, 9);
    lemma_holder_order(e, v, e.len() as int);
    lemma_holder_positions(e, v, e.len() as int);
    let hp = box_holders(b, bx, v);
    if hp.len() >= 2 {
        let t1 = choose|t: int| 0 <= t < e.len() && e[t].0 == hp[0] && #[trigger] e[t].1[v];
        let t2 = choose|t: int| 0 <= t < e.len() && e[t].0 == hp[1] && #[trigger] e[t].1[v];
        assert(hp[0] < hp[1]);
        let k1 = e[t1].0 as int;
        let k2 = e[t2].0 as int;
        assert(cells[k1] == Cell::Candidates(e[t1].1));
        assert(cells[k2] == Cell::Candidates(e[t2].1));
        assert(box_holds_twice(b, bx, v));
    }
}

/// A box whose candidates `v` lie in two or three cells of one line within it gives that
/// line.
#[verifier::rlimit(40)]
proof fn lemma_box_line(b: Board, bx: int, v: int, mode: UnitMode, l: int)
    requires
        in9(bx),
        mode == UnitMode::Row || mode == UnitMode::Column,
        box_holds_twice(b, bx, v),
        forall|k: int|
            in9(k) && (#[trigger] unit_cells(b, UnitMode::Box, bx)[k]) is Candidates && unit_cells(b, UnitMode::Box, bx)[k]->Candidates_0[v]
                ==> box_line_of(mode, k) == l,
    ensures
        pointing_line(box_holders(b, bx, v)) is Some,
        pointing_line(box_holders(b, bx, v)).unwrap().1 == mode,
        box_line_of(mode, pointing_line(box_holders(b, bx, v)).unwrap().0 as int) == l,
{
    let cells = unit_cells(b, UnitMode::Box, bx);
    let e = unit_entries(b, UnitMode::Box, bx);
    lemma_candidate_entries(cells, 9);
    lemma_holder_order(e, v, e.len() as int);
    lemma_holder_positions(e, v, e.len() as int);
    let hp = box_holders(b, bx, v);
    assert forall|j: int| 0 <= j < hp.len() implies in9(#[trigger] hp[j] as int) && box_line_of(mode, hp[j] as int) == l by {
        let t = choose|t: int| 0 <= t < e.len() && e[t].0 == hp[j] && #[trigger] e[t].1[v];
        assert(cells[e[t].0 as int] == Cell::Candidates(e[t].1));
    }
    let (k1, k2) = choose|k1: int, k2: int|
        in9(k1) && in9(k2) && k1 != k2 && (#[trigger] cells[k1]) is Candidates && cells[k1]->Candidates_0[v] && (
        #[trigger] cells[k2]) is Candidates && cells[k2]->Candidates_0[v];
    let t1 = choose|t: int| 0 <= t < e.len() && (#[trigger] e[t]).0 == k1;
    let t2 = choose|t: int| 0 <= t < e.len() && (#[trigger] e[t]).0 == k2;
    assert(cells[k1] == Cell::Candidates(e[t1].1));
    assert(cells[k2] == Cell::Candidates(e[t2].1));
    assert(hp.contains(e[t1].0) && hp.contains(e[t2].0));
    let j1 = choose|j: int| 0 <= j < hp.len() && hp[j] == e[t1].0;
    let j2 = choose|j: int| 0 <= j < hp.len() && hp[j] == e[t2].0;
    assert(j1 != j2);
    assert(hp.len() >= 2);
    if hp.len() >= 4 {
        assert(hp[0] < hp[1]);
        assert(hp[1] < hp[2]);
        assert(hp[2] < hp[3]);
        assert(in9(hp[0] as int) && in9(hp[3] as int));
        assert(box_line_of(mode, hp[0] as int) == l && box_line_of(mode, hp[3] as int) == l);
        if mode == UnitMode::Column {
            assert(box_line_of(mode, hp[1] as int) == l && box_line_of(mode, hp[2] as int) == l);
        }
        assert(false);
    }
    assert(hp[0] < hp[1]);
    assert(box_line_of(mode, hp[0] as int) == l && box_line_of(mode, hp[1] as int) == l);
    if mode == UnitMode::Row {
        assert forall|j: int| 0 <= j < hp.len() implies #[trigger] hp[j] / 3 == hp[0] / 3 by {
            assert(box_line_of(mode, hp[j] as int) == l);
        }
    } else {
        assert(hp[1] / 3 != hp[0] / 3);
        assert forall|j: int| 0 <= j < hp.len() implies #[trigger] hp[j] % 3 == hp[0] % 3 by {
            assert(box_line_of(mode, hp[j] as int) == l);
        }
    }
}

/// The cell at (`r`, `c`) lies on line `l` of box `bx` (its row `l` for `Row`, its
/// column `l` for `Column`), outside the box.
pub open spec fn outside_on_line(mode: UnitMode, bx: int, l: int, r: int, c: int) -> bool {
    if mode == UnitMode::Row {
        r == (bx / 3) * 3 + l && c / 3 != bx % 3
    } else {
        c == (bx % 3) * 3 + l && r / 3 != bx / 3
    }
}

/// The pointing passes on the first `n` boxes, when box `bx` holds the candidate `v` in
/// two or three cells of its line `l` and every other box holds it in at most one cell:
/// before box `bx` they leave the candidate `v` as it was, and from box `bx` on it is
/// gone from line `l` outside the box.
proof fn lemma_pointing_run(b: Board, bx: int, v: int, mode: UnitMode, l: int, n: nat)
    requires
        n <= 9,
        in9(bx),
        in9(v),
        mode == UnitMode::Row || mode == UnitMode::Column,
        box_holds_twice(b, bx, v),
        forall|k: int|
            in9(k) && (#[trigger] unit_cells(b, UnitMode::Box, bx)[k]) is Candidates && unit_cells(b, UnitMode::Box, bx)[k]->Candidates_0[v]
                ==> box_line_of(mode, k) == l,
        forall|bx2: int| in9(bx2) && bx2 != bx ==> !#[trigger] box_holds_twice(b, bx2, v),
    ensures
        n <= bx ==> same_candidate_cells(b, pointing_board(b, n)) && agree_on_digit(b, pointing_board(b, n), v),
        n > bx ==> forall|r: int, c: int|
            in9(r) && in9(c) && outside_on_line(mode, bx, l, r, c) && (#[trigger] pointing_board(b, n)[r][c]) is Candidates
                ==> !pointing_board(b, n)[r][c]->Candidates_0[v],
    decreases n,
{
    if n > 0 {
        lemma_pointing_run(b, bx, v, mode, l, (n - 1) as nat);
        let m = n - 1;
        let x = pointing_board(b, (n - 1) as nat);
        let y = pointing_board(b, n);
        assert(y == pointing_step(x, m));
        lemma_pointing_exists(x, m);
        if m <= bx {
            lemma_unit_entries_agree(b, x, UnitMode::Box, m, v);
            let eb = unit_entries(b, UnitMode::Box, m);
            let ex = unit_entries(x, UnitMode::Box, m);
            lemma_holders_agree(eb, ex, v, eb.len() as int);
            assert(box_holders(b, m, v) == box_holders(x, m, v));
            if m < bx {
                lemma_box_single_no_line(b, m, v);
                assert forall|r: int, c: int| in9(r) && in9(c) implies ((#[trigger] y[r][c]) is Candidates <==> b[r][c] is Candidates) by {
                    assert(b[r][c] is Candidates <==> x[r][c] is Candidates);
                }
                assert forall|r: int, c: int|
                    in9(r) && in9(c) && (#[trigger] b[r][c]) is Candidates && y[r][c] is Candidates implies b[r][c]->Candidates_0[v]
                    == y[r][c]->Candidates_0[v] by {
                    assert(x[r][c] is Candidates);
                    assert(!pointing_clears(x, m, r, c, v));
                }
            } else {
                lemma_box_line(b, bx, v, mode, l);
                assert forall|r: int, c: int|
                    in9(r) && in9(c) && outside_on_line(mode, bx, l, r, c) && (#[trigger] y[r][c]) is Candidates implies !y[r][c]->Candidates_0[v] by {
                    assert(x[r][c] is Candidates);
                    assert(pointing_clears(x, bx, r, c, v));
                }
            }
        } else {
            assert forall|r: int, c: int|
                in9(r) && in9(c) && outside_on_line(mode, bx, l, r, c) && (#[trigger] y[r][c]) is Candidates implies !y[r][c]->Candidates_0[v] by {
                assert(x[r][c] is Candidates);
            }
        }
    }
}

/// Completeness of the pointing pass over all nine boxes: when the candidate `v` lies
/// in two or three cells of box `bx`, all on one row (or one column) of the box, and no
/// other box holds `v` in more than one cell, the result holds `v` in no candidate cell
/// of that row (or column) outside the box.
pub proof fn lemma_pointing_complete(b: Board, bx: int, v: int, mode: UnitMode, l: int)
    requires
        in9(bx),
        in9(v),
        mode == UnitMode::Row || mode == UnitMode::Column,
        box_holds_twice(b, bx, v),
        forall|k: int|
            in9(k) && (#[trigger] unit_cells(b, UnitMode::Box, bx)[k]) is Candidates && unit_cells(b, UnitMode::Box, bx)[k]->Candidates_0[v]
                ==> box_line_of(mode, k) == l,
        forall|bx2: int| in9(bx2) && bx2 != bx ==> !#[trigger] box_holds_twice(b, bx2, v),
    ensures
        forall|r: int, c: int|
            in9(r) && in9(c) && outside_on_line(mode, bx, l, r, c) && (#[trigger] pointing_board(b, 9)[r][c]) is Candidates
                ==> !pointing_board(b, 9)[r][c]->Candidates_0[v],
{
    lemma_pointing_run(b, bx, v, mode, l, 9);
}

} // verus!
