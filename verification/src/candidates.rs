use vstd::prelude::*;

use crate::helpers::{box_of, in9, lemma_board_ext, lemma_mask_ext, lemma_unit_geometry, same_unit, sees, unit_col, unit_of, unit_position, unit_row, pos_in_unit, UnitMode};
use crate::rules::{allows, cell_refines, cell_without, consistent, is_solution, lemma_mask_without, mask_without, refines, settled};
use crate::types::{BasicGrid, Board, Cell};

verus! {

/// A cell that shares a row, a column or a box with (`r`, `c`) holds the digit `d + 1`.
pub open spec fn seen_value(b: Board, r: int, c: int, d: int) -> bool {
    exists|r2: int, c2: int| in9(r2) && in9(c2) && same_unit(r, c, r2, c2) && #[trigger] b[r2][c2] == Cell::Value((d + 1) as i16)
}

/// Like `seen_value`, counting only the first `p` cells in row-major order.
pub open spec fn seen_before(b: Board, r: int, c: int, d: int, p: int) -> bool {
    exists|r2: int, c2: int|
        in9(r2) && in9(c2) && r2 * 9 + c2 < p && same_unit(r, c, r2, c2) && #[trigger] b[r2][c2] == Cell::Value((d + 1) as i16)
}

/// `new` is `old` after every candidate set lost the digits placed in the cells that
/// share a row, a column or a box with it; every other cell is unchanged.
pub open spec fn elimination(old: Board, new: Board) -> bool {
    forall|r: int, c: int|
        in9(r) && in9(c) ==> if old[r][c] is Candidates {
            (#[trigger] new[r][c]) is Candidates && forall|d: int|
                in9(d) ==> #[trigger] new[r][c]->Candidates_0[d] == (old[r][c]->Candidates_0[d] && !seen_value(old, r, c, d))
        } else {
            new[r][c] == old[r][c]
        }
}

/// The board that elimination makes of `b`.
pub open spec fn eliminated(b: Board) -> Board {
    choose|x: Board| elimination(b, x)
}

/// Elimination has one result, and `eliminated` names it.
pub proof fn lemma_elimination_unique(b: Board, x: Board)
    requires
        elimination(b, x),
    ensures
        eliminated(b) == x,
{
    let y = eliminated(b);
    assert(elimination(b, y));
    assert forall|r: int, c: int| in9(r) && in9(c) implies #[trigger] y[r][c] == x[r][c] by {
        if b[r][c] is Candidates {
            assert forall|d: int| in9(d) implies #[trigger] y[r][c]->Candidates_0[d] == x[r][c]->Candidates_0[d] by {}
            lemma_mask_ext(y[r][c]->Candidates_0, x[r][c]->Candidates_0);
        }
    }
    lemma_board_ext(y, x);
}

/// Like `elimination`, counting only the digits placed in the first `p` cells.
pub open spec fn elimination_upto(old: Board, new: Board, p: int) -> bool {
    forall|r: int, c: int|
        in9(r) && in9(c) ==> if old[r][c] is Candidates {
            (#[trigger] new[r][c]) is Candidates && forall|d: int|
                in9(d) ==> #[trigger] new[r][c]->Candidates_0[d] == (old[r][c]->Candidates_0[d] && !seen_before(old, r, c, d, p))
        } else {
            new[r][c] == old[r][c]
        }
}

/// Elimination cannot fail: a placed number outside 1 to 9 is `i16::MIN` nowhere,
/// and no cell that shares a unit with it holds candidates.
pub open spec fn elimination_safe(b: Board) -> bool {
    forall|r: int, c: int|
        in9(r) && in9(c) && (#[trigger] b[r][c]) is Value ==> b[r][c]->Value_0 != i16::MIN && (1 <= b[r][c]->Value_0 <= 9 || forall|
            r2: int,
            c2: int,
        | in9(r2) && in9(c2) && same_unit(r, c, r2, c2) ==> !(#[trigger] b[r2][c2] is Candidates))
}

/// Removes the candidate `d` from the cell at (`r`, `c`); tells whether it was there.
pub fn clear_cell(board: &mut Board, r: usize, c: usize, d: usize) -> (hit: bool)
    requires
        r < 9,
        c < 9,
        d < 9,
    ensures
        final(board)[r as int][c as int] == cell_without(old(board)[r as int][c as int], d as int),
        forall|r2: int, c2: int| in9(r2) && in9(c2) && !(r2 == r && c2 == c) ==> #[trigger] final(board)[r2][c2] == old(board)[r2][c2],
        hit == (old(board)[r as int][c as int] is Candidates && old(board)[r as int][c as int]->Candidates_0[d as int]),
{
    if let Cell::Candidates(set) = board[r][c] {
        proof {
            lemma_mask_without(set, d as int);
        }
        if set[d] {
            let mut s2 = set;
            s2[d] = false;
            proof {
                lemma_mask_ext(s2, mask_without(set, d as int));
            }
            board[r][c] = Cell::Candidates(s2);
            true
        } else {
            proof {
                lemma_mask_ext(set, mask_without(set, d as int));
            }
            false
        }
    } else {
        false
    }
}

proof fn lemma_cell_without_twice(x: Cell, d: int)
    requires
        in9(d),
    ensures
        cell_without(cell_without(x, d), d) == cell_without(x, d),
{
    if let Cell::Candidates(m) = x {
        lemma_mask_without(m, d);
        lemma_mask_without(mask_without(m, d), d);
        lemma_mask_ext(mask_without(mask_without(m, d), d), mask_without(m, d));
    }
}

/// Removes the candidate `num` from every cell that shares a row, a column or a box
/// with (`row`, `col`); tells whether any cell lost it.
fn clear_around(board: &mut Board, row: usize, col: usize, num: usize) -> (change: bool)
    requires
        row < 9,
        col < 9,
        num < 9,
    ensures
        forall|r: int, c: int|
            in9(r) && in9(c) ==> #[trigger] final(board)[r][c] == if same_unit(row as int, col as int, r, c) {
                cell_without(old(board)[r][c], num as int)
            } else {
                old(board)[r][c]
            },
        change == exists|r: int, c: int|
            in9(r) && in9(c) && same_unit(row as int, col as int, r, c) && (#[trigger] old(board)[r][c]) is Candidates
                && old(board)[r][c]->Candidates_0[num as int],
{
    let mut change = false;
    let mut c0: usize = 0;
    while c0 < 9
        invariant
            c0 <= 9,
            row < 9,
            col < 9,
            num < 9,
            forall|r: int, c: int|
                in9(r) && in9(c) ==> #[trigger] board[r][c] == if r == row && c < c0 {
                    cell_without(old(board)[r][c], num as int)
                } else {
                    old(board)[r][c]
                },
            change == exists|r: int, c: int|
                in9(r) && in9(c) && r == row && c < c0 && (#[trigger] old(board)[r][c]) is Candidates
                    && old(board)[r][c]->Candidates_0[num as int],
        decreases 9 - c0,
    {
        let hit = clear_cell(board, row, c0, num);
        if hit {
            change = true;
        }
        c0 = c0 + 1;
    }
    let ghost b1 = *board;
    let mut r0: usize = 0;
    while r0 < 9
        invariant
            r0 <= 9,
            row < 9,
            col < 9,
            num < 9,
            forall|r: int, c: int|
                in9(r) && in9(c) ==> #[trigger] board[r][c] == if r == row || (c == col && r < r0) {
                    cell_without(old(board)[r][c], num as int)
                } else {
                    old(board)[r][c]
                },
            change == exists|r: int, c: int|
                in9(r) && in9(c) && (r == row || (c == col && r < r0)) && (#[trigger] old(board)[r][c]) is Candidates
                    && old(board)[r][c]->Candidates_0[num as int],
        decreases 9 - r0,
    {
        proof {
            lemma_cell_without_twice(old(board)[r0 as int][col as int], num as int);
            lemma_mask_without_keeps(old(board)[r0 as int][col as int], num as int);
        }
        let hit = clear_cell(board, r0, col, num);
        if hit {
            change = true;
        }
        r0 = r0 + 1;
    }
    let bx = (row / 3) * 3 + col / 3;
    proof {
        lemma_unit_geometry(UnitMode::Box, bx as int);
    }
    let mut k: usize = 0;
    while k < 9
        invariant
            k <= 9,
            row < 9,
            col < 9,
            num < 9,
            bx == box_of(row as int, col as int),
            forall|j: int|
                in9(j) ==> in9(#[trigger] unit_row(UnitMode::Box, bx as int, j)) && in9(unit_col(UnitMode::Box, bx as int, j))
                    && unit_of(UnitMode::Box, unit_row(UnitMode::Box, bx as int, j), unit_col(UnitMode::Box, bx as int, j)) == bx
                    && pos_in_unit(UnitMode::Box, unit_row(UnitMode::Box, bx as int, j), unit_col(UnitMode::Box, bx as int, j)) == j,
            forall|r: int, c: int|
                in9(r) && in9(c) && #[trigger] unit_of(UnitMode::Box, r, c) == bx ==> in9(pos_in_unit(UnitMode::Box, r, c))
                    && unit_row(UnitMode::Box, bx as int, pos_in_unit(UnitMode::Box, r, c)) == r
                    && unit_col(UnitMode::Box, bx as int, pos_in_unit(UnitMode::Box, r, c)) == c,
            forall|r: int, c: int|
                in9(r) && in9(c) ==> #[trigger] board[r][c] == if r == row || c == col || (box_of(r, c) == bx
                    && pos_in_unit(UnitMode::Box, r, c) < k) {
                    cell_without(old(board)[r][c], num as int)
                } else {
                    old(board)[r][c]
                },
            change == exists|r: int, c: int|
                in9(r) && in9(c) && (r == row || c == col || (box_of(r, c) == bx && pos_in_unit(UnitMode::Box, r, c) < k))
                    && (#[trigger] old(board)[r][c]) is Candidates && old(board)[r][c]->Candidates_0[num as int],
        decreases 9 - k,
    {
        let (r, c) = unit_position(UnitMode::Box, bx, k);
        proof {
            lemma_cell_without_twice(old(board)[r as int][c as int], num as int);
            lemma_mask_without_keeps(old(board)[r as int][c as int], num as int);
        }
        let hit = clear_cell(board, r, c, num);
        if hit {
            change = true;
        }
        k = k + 1;
    }
    change
}

/// A cell that lacks the candidate `d` already is unchanged by removing it, and a
/// cell without `d` lacks it.
pub proof fn lemma_mask_without_keeps(x: Cell, d: int)
    requires
        in9(d),
    ensures
        x is Candidates && !x->Candidates_0[d] ==> cell_without(x, d) == x,
        x is Candidates ==> cell_without(x, d) is Candidates && !cell_without(x, d)->Candidates_0[d],
{
    if let Cell::Candidates(m) = x {
        lemma_mask_without(m, d);
        if !m[d] {
            lemma_mask_ext(mask_without(m, d), m);
        }
    }
}

/// Removes from every candidate set the digits placed in the cells that share its row,
/// its column or its box; tells whether any candidate was removed.
pub fn eliminate_candidates(board: &mut Board) -> (change: bool)
    requires
        elimination_safe(*old(board)),
    ensures
        elimination(*old(board), *final(board)),
        change == (*final(board) != *old(board)),
        refines(*old(board), *final(board)),
        settled(*final(board)),
        elimination_safe(*final(board)),
        forall|s: BasicGrid| is_solution(s) && consistent(*old(board), s) ==> consistent(*final(board), s),
{
    let mut change = false;
    let mut row: usize = 0;
    while row < 9
        invariant
            row <= 9,
            elimination_safe(*old(board)),
            elimination_upto(*old(board), *board, row as int * 9),
            change == (*board != *old(board)),
        decreases 9 - row,
    {
        let mut col: usize = 0;
        while col < 9
            invariant
                row < 9,
                col <= 9,
                elimination_safe(*old(board)),
                elimination_upto(*old(board), *board, row as int * 9 + col as int),
                change == (*board != *old(board)),
            decreases 9 - col,
        {
            let ghost before = *board;
            let ghost p = row as int * 9 + col as int;
            if let Cell::Value(value) = board[row][col] {
                assert(old(board)[row as int][col as int] == Cell::Value(value));
                if 1 <= value && value <= 9 {
                    let num: usize = (value - 1) as usize;
                    let hit = clear_around(board, row, col, num);
                    proof {
                        lemma_eliminate_step(*old(board), before, *board, row as int, col as int, num as int);
                    }
                    if hit {
                        change = true;
                    }
                    proof {
                        if hit {
                            let (rw, cw) = choose|r: int, c: int|
                                in9(r) && in9(c) && same_unit(row as int, col as int, r, c) && (#[trigger] before[r][c]) is Candidates
                                    && before[r][c]->Candidates_0[num as int];
                            lemma_mask_without_keeps(before[rw][cw], num as int);
                            assert(old(board)[rw][cw]->Candidates_0[num as int]);
                            assert(!board[rw][cw]->Candidates_0[num as int]);
                            assert(board[rw][cw] != old(board)[rw][cw]);
                        } else {
                            assert forall|r: int, c: int| in9(r) && in9(c) implies #[trigger] board[r][c] == before[r][c] by {
                                lemma_mask_without_keeps(before[r][c], num as int);
                            }
                            lemma_board_ext(*board, before);
                        }
                    }
                } else {
                    proof {
                        lemma_eliminate_skip(*old(board), *board, row as int, col as int);
                    }
                }
            } else {
                proof {
                    lemma_eliminate_skip(*old(board), *board, row as int, col as int);
                }
            }
            col = col + 1;
        }
        row = row + 1;
    }
    proof {
        lemma_elimination_complete(*old(board), *board);
        lemma_elimination_refines(*old(board), *board);
        lemma_elimination_settles(*old(board), *board);
        lemma_elimination_keeps_safe(*old(board), *board);
        assert forall|s: BasicGrid| is_solution(s) && consistent(*old(board), s) implies consistent(*board, s) by {
            lemma_elimination_sound(*old(board), *board, s);
        }
    }
    change
}

/// Passing over a cell that holds no digit from 1 to 9 removes nothing.
proof fn lemma_eliminate_skip(old: Board, cur: Board, row: int, col: int)
    requires
        in9(row),
        in9(col),
        elimination_safe(old),
        elimination_upto(old, cur, row * 9 + col),
        old[row][col] is Value ==> !(1 <= old[row][col]->Value_0 <= 9),
    ensures
        elimination_upto(old, cur, row * 9 + col + 1),
{
    assert forall|r: int, c: int| in9(r) && in9(c) && (#[trigger] old[r][c]) is Candidates implies forall|d: int|
        in9(d) ==> seen_before(old, r, c, d, row * 9 + col + 1) == seen_before(old, r, c, d, row * 9 + col) by {
        assert forall|d: int| in9(d) implies seen_before(old, r, c, d, row * 9 + col + 1) == seen_before(
            old,
            r,
            c,
            d,
            row * 9 + col,
        ) by {
            if seen_before(old, r, c, d, row * 9 + col + 1) {
                let (r2, c2) = choose|r2: int, c2: int|
                    in9(r2) && in9(c2) && r2 * 9 + c2 < row * 9 + col + 1 && same_unit(r, c, r2, c2) && #[trigger] old[r2][c2]
                        == Cell::Value((d + 1) as i16);
                if r2 * 9 + c2 == row * 9 + col {
                    assert(r2 == row && c2 == col);
                    assert(old[row][col] is Value);
                    assert(old[r][c] is Candidates);
                    assert(same_unit(row, col, r, c));
                    assert(false);
                }
            }
        }
    }
    assert(elimination_upto(old, cur, row * 9 + col + 1)) by {
        assert forall|r: int, c: int| in9(r) && in9(c) implies if old[r][c] is Candidates {
            (#[trigger] cur[r][c]) is Candidates && forall|d: int|
                in9(d) ==> #[trigger] cur[r][c]->Candidates_0[d] == (old[r][c]->Candidates_0[d] && !seen_before(
                    old,
                    r,
                    c,
                    d,
                    row * 9 + col + 1,
                ))
        } else {
            cur[r][c] == old[r][c]
        } by {
            if old[r][c] is Candidates {
                assert forall|d: int| in9(d) implies seen_before(old, r, c, d, row * 9 + col + 1) == seen_before(
                    old,
                    r,
                    c,
                    d,
                    row * 9 + col,
                ) by {}
            }
        }
    }
}

/// Clearing the candidate `num` around the digit `num + 1` at (`row`, `col`) extends
/// the elimination by one cell.
proof fn lemma_eliminate_step(old: Board, before: Board, after: Board, row: int, col: int, num: int)
    requires
        in9(row),
        in9(col),
        in9(num),
        old[row][col] == Cell::Value((num + 1) as i16),
        elimination_upto(old, before, row * 9 + col),
        forall|r: int, c: int|
            in9(r) && in9(c) ==> #[trigger] after[r][c] == if same_unit(row, col, r, c) {
                cell_without(before[r][c], num)
            } else {
                before[r][c]
            },
    ensures
        elimination_upto(old, after, row * 9 + col + 1),
{
    let p = row * 9 + col;
    assert forall|r: int, c: int| in9(r) && in9(c) implies if old[r][c] is Candidates {
        (#[trigger] after[r][c]) is Candidates && forall|d: int|
            in9(d) ==> #[trigger] after[r][c]->Candidates_0[d] == (old[r][c]->Candidates_0[d] && !seen_before(old, r, c, d, p + 1))
    } else {
        after[r][c] == old[r][c]
    } by {
        if old[r][c] is Candidates {
            let m = before[r][c]->Candidates_0;
            lemma_mask_without(m, num);
            assert forall|d: int| in9(d) implies #[trigger] after[r][c]->Candidates_0[d] == (old[r][c]->Candidates_0[d]
                && !seen_before(old, r, c, d, p + 1)) by {
                if seen_before(old, r, c, d, p + 1) && !seen_before(old, r, c, d, p) {
                    let (r2, c2) = choose|r2: int, c2: int|
                        in9(r2) && in9(c2) && r2 * 9 + c2 < p + 1 && same_unit(r, c, r2, c2) && #[trigger] old[r2][c2]
                            == Cell::Value((d + 1) as i16);
                    assert(r2 * 9 + c2 == p);
                    assert(r2 == row && c2 == col);
                    assert(d == num);
                }
                if same_unit(row, col, r, c) {
                    assert(seen_before(old, r, c, num, p + 1)) by {
                        assert(old[row][col] == Cell::Value((num + 1) as i16));
                    }
                }
                if !same_unit(row, col, r, c) && seen_before(old, r, c, d, p + 1) {
                    let (r2, c2) = choose|r2: int, c2: int|
                        in9(r2) && in9(c2) && r2 * 9 + c2 < p + 1 && same_unit(r, c, r2, c2) && #[trigger] old[r2][c2]
                            == Cell::Value((d + 1) as i16);
                    if r2 * 9 + c2 == p {
                        assert(r2 == row && c2 == col);
                        assert(false);
                    }
                }
            }
        } else {
            if same_unit(row, col, r, c) {
                assert(before[r][c] == old[r][c]);
            }
        }
    }
}

/// After every cell is passed, the elimination is complete.
proof fn lemma_elimination_complete(old: Board, new: Board)
    requires
        elimination_upto(old, new, 81),
    ensures
        elimination(old, new),
{
    assert forall|r: int, c: int, d: int| in9(r) && in9(c) && in9(d) implies #[trigger] seen_before(old, r, c, d, 81)
        == seen_value(old, r, c, d) by {
        if seen_value(old, r, c, d) {
            let (r2, c2) = choose|r2: int, c2: int|
                in9(r2) && in9(c2) && same_unit(r, c, r2, c2) && #[trigger] old[r2][c2] == Cell::Value((d + 1) as i16);
            assert(r2 * 9 + c2 < 81);
        }
    }
    assert forall|r: int, c: int| in9(r) && in9(c) implies if old[r][c] is Candidates {
        (#[trigger] new[r][c]) is Candidates && forall|d: int|
            in9(d) ==> #[trigger] new[r][c]->Candidates_0[d] == (old[r][c]->Candidates_0[d] && !seen_value(old, r, c, d))
    } else {
        new[r][c] == old[r][c]
    } by {
        if old[r][c] is Candidates {
            assert forall|d: int| in9(d) implies #[trigger] new[r][c]->Candidates_0[d] == (old[r][c]->Candidates_0[d]
                && !seen_value(old, r, c, d)) by {
                assert(seen_before(old, r, c, d, 81) == seen_value(old, r, c, d));
            }
        }
    }
}

/// The placed digits, and which cells hold candidates, are the same on both boards.
pub open spec fn same_values(a: Board, b: Board) -> bool {
    forall|r: int, c: int|
        in9(r) && in9(c) ==> ((#[trigger] a[r][c]) is Candidates <==> b[r][c] is Candidates) && (!(a[r][c] is Candidates)
            ==> a[r][c] == b[r][c])
}

/// Elimination keeps the placed digits and only removes candidates.
pub proof fn lemma_elimination_refines(old: Board, new: Board)
    requires
        elimination(old, new),
    ensures
        refines(old, new),
        same_values(old, new),
{
    assert forall|r: int, c: int| in9(r) && in9(c) implies cell_refines(#[trigger] old[r][c], new[r][c]) by {
        if old[r][c] is Candidates {
            assert(new[r][c] is Candidates);
        }
    }
}

/// Two boards with the same placed digits see the same digits around every cell.
proof fn lemma_same_values_seen(a: Board, b: Board)
    requires
        same_values(a, b),
    ensures
        forall|r: int, c: int, d: int| in9(d) ==> #[trigger] seen_value(a, r, c, d) == seen_value(b, r, c, d),
{
    assert forall|r: int, c: int, d: int| in9(d) implies #[trigger] seen_value(a, r, c, d) == seen_value(b, r, c, d) by {
        if seen_value(a, r, c, d) {
            let (r2, c2) = choose|r2: int, c2: int|
                in9(r2) && in9(c2) && same_unit(r, c, r2, c2) && #[trigger] a[r2][c2] == Cell::Value((d + 1) as i16);
            assert(b[r2][c2] == a[r2][c2]);
        }
        if seen_value(b, r, c, d) {
            let (r2, c2) = choose|r2: int, c2: int|
                in9(r2) && in9(c2) && same_unit(r, c, r2, c2) && #[trigger] b[r2][c2] == Cell::Value((d + 1) as i16);
            assert(a[r2][c2] == b[r2][c2]);
        }
    }
}

/// After elimination no candidate set holds a digit placed in a cell that it sees.
pub proof fn lemma_elimination_settles(old: Board, new: Board)
    requires
        elimination(old, new),
    ensures
        settled(new),
{
    lemma_elimination_refines(old, new);
    assert forall|r: int, c: int, r2: int, c2: int|
        in9(r) && in9(c) && in9(r2) && in9(c2) && #[trigger] sees(r, c, r2, c2) && new[r][c] is Candidates
            && new[r2][c2] is Value && 1 <= new[r2][c2]->Value_0 <= 9 implies !new[r][c]->Candidates_0[new[r2][c2]->Value_0
        - 1] by {
        let v = new[r2][c2]->Value_0;
        let d = v - 1;
        assert(old[r2][c2] == new[r2][c2]);
        assert(old[r2][c2] == Cell::Value((d + 1) as i16));
        assert(seen_value(old, r, c, d));
        assert(old[r][c] is Candidates);
    }
}

/// Elimination keeps a board safe to eliminate on.
pub proof fn lemma_elimination_keeps_safe(old: Board, new: Board)
    requires
        elimination_safe(old),
        elimination(old, new),
    ensures
        elimination_safe(new),
{
    lemma_elimination_refines(old, new);
    assert forall|r: int, c: int| in9(r) && in9(c) && (#[trigger] new[r][c]) is Value implies new[r][c]->Value_0 != i16::MIN
        && (1 <= new[r][c]->Value_0 <= 9 || forall|r2: int, c2: int|
        in9(r2) && in9(c2) && same_unit(r, c, r2, c2) ==> !(#[trigger] new[r2][c2] is Candidates)) by {
        assert(old[r][c] == new[r][c]);
        if !(1 <= new[r][c]->Value_0 <= 9) {
            assert forall|r2: int, c2: int| in9(r2) && in9(c2) && same_unit(r, c, r2, c2) implies !(
            #[trigger] new[r2][c2] is Candidates) by {
                assert(!(old[r2][c2] is Candidates));
            }
        }
    }
}

/// A refinement of a board that is safe to eliminate on is safe too.
pub proof fn lemma_refines_keeps_safe(a: Board, b: Board)
    requires
        elimination_safe(a),
        refines(a, b),
    ensures
        elimination_safe(b),
{
    assert forall|r: int, c: int| in9(r) && in9(c) && (#[trigger] b[r][c]) is Value implies b[r][c]->Value_0 != i16::MIN
        && (1 <= b[r][c]->Value_0 <= 9 || forall|r2: int, c2: int|
        in9(r2) && in9(c2) && same_unit(r, c, r2, c2) ==> !(#[trigger] b[r2][c2] is Candidates)) by {
        assert(cell_refines(a[r][c], b[r][c]));
        if !(1 <= b[r][c]->Value_0 <= 9) {
            assert(a[r][c] == b[r][c]);
            assert forall|r2: int, c2: int| in9(r2) && in9(c2) && same_unit(r, c, r2, c2) implies !(
            #[trigger] b[r2][c2] is Candidates) by {
                assert(cell_refines(a[r2][c2], b[r2][c2]));
                assert(!(a[r2][c2] is Candidates));
            }
        }
    }
}

/// Elimination never removes the digit that a solution consistent with the board
/// puts in a cell.
pub proof fn lemma_elimination_sound(old: Board, new: Board, s: BasicGrid)
    requires
        elimination(old, new),
        is_solution(s),
        consistent(old, s),
    ensures
        consistent(new, s),
{
    assert forall|r: int, c: int| in9(r) && in9(c) implies allows(#[trigger] new[r][c], s[r][c]) by {
        assert(allows(old[r][c], s[r][c]));
        if old[r][c] is Candidates {
            let d = s[r][c] - 1;
            if seen_value(old, r, c, d) {
                let (r2, c2) = choose|r2: int, c2: int|
                    in9(r2) && in9(c2) && same_unit(r, c, r2, c2) && #[trigger] old[r2][c2] == Cell::Value((d + 1) as i16);
                assert(allows(old[r2][c2], s[r2][c2]));
                assert(sees(r, c, r2, c2));
            }
        }
    }
}

/// Eliminating a second time changes nothing.
pub proof fn lemma_elimination_idempotent(b: Board, once: Board, twice: Board)
    requires
        elimination(b, once),
        elimination(once, twice),
    ensures
        twice == once,
{
    lemma_elimination_refines(b, once);
    lemma_same_values_seen(b, once);
    assert forall|r: int, c: int| in9(r) && in9(c) implies #[trigger] twice[r][c] == once[r][c] by {
        if once[r][c] is Candidates {
            assert forall|d: int| in9(d) implies #[trigger] twice[r][c]->Candidates_0[d] == once[r][c]->Candidates_0[d] by {
                assert(seen_value(b, r, c, d) == seen_value(once, r, c, d));
            }
            lemma_mask_ext(twice[r][c]->Candidates_0, once[r][c]->Candidates_0);
        }
    }
    lemma_board_ext(twice, once);
}

} // verus!
