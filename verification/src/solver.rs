use vstd::prelude::*;

use crate::box_line::{eliminate_pointing_sets, pointing_board};
use crate::candidates::{eliminate_candidates, eliminated, elimination, elimination_safe, lemma_elimination_unique, lemma_refines_keeps_safe};
use crate::grid::{cells_to_grid, grid_of, grid_value, lemma_filled_board_is_solution, lemma_grid_of_unique, unit_complete, is_solved_grid, lemma_solved_grid_is_solution, out_of_range, unit_scan_fails, verify, verify_fails};
use crate::helpers::{in9, lemma_board_ext, lemma_mask_ext, unit_col, unit_row, UnitMode};
use crate::pairs::{determine_hidden_doubles, determine_naked_doubles, hidden_doubles_board, naked_doubles_board};
use crate::rules::{
    cell_measure, cell_refines, consistent, is_solution, lemma_clears_only_refines, lemma_clears_only_settled, lemma_refines_strict,
    lemma_refines_trans, refines, settled,
};
use crate::singles::{hidden_singles_board, naked_singles_upto, solve_hidden_singles, solve_naked_singles, solve_singles};
use crate::subsets::{determine_naked_subsets, naked_subsets_board};
use crate::swordfish::{swordfish_elimination, swordfish_spec};
use crate::types::{count_bits, count_pred, lemma_count_congruent, lemma_count_sub, mask_pred, BasicGrid, Board, Cell};

verus! {

/// The sum of the cell measures of the first `n` cells in row-major order.
pub open spec fn measure_upto(b: Board, n: int) -> nat
    decreases n,
{
    if n <= 0 {
        0
    } else {
        measure_upto(b, n - 1) + cell_measure(b[(n - 1) / 9][(n - 1) % 9])
    }
}

/// How much work is left on a board: each candidate cell counts one plus its number of
/// candidates.
pub open spec fn board_measure(b: Board) -> nat {
    measure_upto(b, 81)
}

/// A refined cell has no greater measure, and a smaller one when it changed.
proof fn lemma_cell_measure(o: Cell, n: Cell)
    requires
        cell_refines(o, n),
    ensures
        cell_measure(n) <= cell_measure(o),
        o != n ==> cell_measure(n) < cell_measure(o),
{
    match (o, n) {
        (Cell::Candidates(m), Cell::Candidates(m2)) => {
            lemma_count_sub(mask_pred(m), mask_pred(m2), 9);
            if o != n {
                if forall|d: int| 0 <= d < 9 ==> m[d] == m2[d] {
                    lemma_mask_ext(m, m2);
                }
                let d = choose|d: int| 0 <= d < 9 && m[d] != m2[d];
                assert(mask_pred(m)(d) && !mask_pred(m2)(d));
            }
        },
        _ => {},
    }
}

/// A refined board has no greater measure, and a smaller one when it changed.
pub proof fn lemma_refines_measure(a: Board, b: Board)
    requires
        refines(a, b),
    ensures
        board_measure(b) <= board_measure(a),
        a != b ==> board_measure(b) < board_measure(a),
{
    lemma_measure_upto(a, b, 81);
    if a != b {
        if forall|r: int, c: int| in9(r) && in9(c) ==> #[trigger] a[r][c] == b[r][c] {
            lemma_board_ext(a, b);
        }
        let (r, c) = choose|r: int, c: int| in9(r) && in9(c) && #[trigger] a[r][c] != b[r][c];
        assert((r * 9 + c) / 9 == r && (r * 9 + c) % 9 == c);
    }
}

proof fn lemma_measure_upto(a: Board, b: Board, n: int)
    requires
        refines(a, b),
        0 <= n <= 81,
    ensures
        measure_upto(b, n) <= measure_upto(a, n),
        (exists|r: int, c: int| in9(r) && in9(c) && r * 9 + c < n && #[trigger] a[r][c] != b[r][c]) ==> measure_upto(b, n)
            < measure_upto(a, n),
    decreases n,
{
    if n > 0 {
        lemma_measure_upto(a, b, n - 1);
        let r0 = (n - 1) / 9;
        let c0 = (n - 1) % 9;
        assert(cell_refines(a[r0][c0], b[r0][c0]));
        lemma_cell_measure(a[r0][c0], b[r0][c0]);
        if exists|r: int, c: int| in9(r) && in9(c) && r * 9 + c < n && #[trigger] a[r][c] != b[r][c] {
            let (r, c) = choose|r: int, c: int| in9(r) && in9(c) && r * 9 + c < n && #[trigger] a[r][c] != b[r][c];
            if r * 9 + c == n - 1 {
                assert(r == r0 && c == c0);
            }
        }
    }
}

/// Every placed number of the board is a digit from 1 to 9.
pub open spec fn values_in_range(b: Board) -> bool {
    forall|r: int, c: int| in9(r) && in9(c) && (#[trigger] b[r][c]) is Value ==> 1 <= b[r][c]->Value_0 <= 9
}

/// A board whose placed numbers are digits is safe to eliminate on.
proof fn lemma_in_range_safe(b: Board)
    requires
        values_in_range(b),
    ensures
        elimination_safe(b),
{
}

/// Refinement keeps the placed numbers digits.
proof fn lemma_refines_in_range(a: Board, b: Board)
    requires
        values_in_range(a),
        refines(a, b),
    ensures
        values_in_range(b),
{
    assert forall|r: int, c: int| in9(r) && in9(c) && (#[trigger] b[r][c]) is Value implies 1 <= b[r][c]->Value_0 <= 9 by {
        assert(cell_refines(a[r][c], b[r][c]));
    }
}

/// The grid of a board whose placed numbers are digits can be checked without failing.
proof fn lemma_in_range_grid_checks(b: Board, g: BasicGrid)
    requires
        values_in_range(b),
        forall|r: int, c: int| in9(r) && in9(c) ==> #[trigger] g[r][c] == grid_value(b[r][c]),
    ensures
        !verify_fails(g),
{
    if verify_fails(g) {
        let r = choose|r: int|
            in9(r) && #[trigger] unit_scan_fails(g, UnitMode::Row, r) && forall|r2: int|
                0 <= r2 < r ==> crate::grid::unit_complete(g, UnitMode::Row, r2);
        let k = choose|k: int|
            in9(k) && #[trigger] out_of_range(g, UnitMode::Row, r, k) && forall|j: int|
                0 <= j < k ==> g[unit_row(UnitMode::Row, r, j)][unit_col(UnitMode::Row, r, j)] != 0;
        assert(g[r][k] == grid_value(b[r][k]));
    }
}

/// The number of candidate cells among the first `n` cells in row-major order.
pub open spec fn unsolved_upto(b: Board, n: int) -> nat
    decreases n,
{
    if n <= 0 {
        0
    } else {
        unsolved_upto(b, n - 1) + if b[(n - 1) / 9][(n - 1) % 9] is Candidates {
            1nat
        } else {
            0nat
        }
    }
}

/// The number of candidate cells of the board.
pub open spec fn unsolved_count(b: Board) -> nat {
    unsolved_upto(b, 81)
}

/// The number of cells that still hold candidates.
pub fn count_unsolved_cells(board: &Board) -> (n: usize)
    ensures
        n == unsolved_count(*board),
{
    let mut n: usize = 0;
    let mut p: usize = 0;
    while p < 81
        invariant
            p <= 81,
            n == unsolved_upto(*board, p as int),
            n <= p,
        decreases 81 - p,
    {
        if let Cell::Candidates(_) = board[p / 9][p % 9] {
            n = n + 1;
        }
        p = p + 1;
    }
    n
}

/// The singles pass: the hidden singles, then the naked singles.
pub open spec fn singles_spec(b: Board) -> Board {
    naked_singles_upto(hidden_singles_board(b, 27), 81)
}

/// One round of the solver: singles, naked pairs, hidden pairs, singles, pointing
/// sets, singles, naked subsets, fish, singles.
#[verifier::opaque]
pub open spec fn solve_round(b: Board) -> Board {
    let b1 = singles_spec(b);
    let b2 = naked_doubles_board(b1, 27);
    let b3 = hidden_doubles_board(b2, 27);
    let b4 = singles_spec(b3);
    let b5 = pointing_board(b4, 9);
    let b6 = singles_spec(b5);
    let b7 = naked_subsets_board(b6, 27);
    let b8 = swordfish_spec(b7);
    singles_spec(b8)
}

/// The solver rounds, `k` of them, from `b`.
pub open spec fn solve_rounds(b: Board, k: nat) -> Board
    decreases k,
{
    if k == 0 {
        b
    } else {
        solve_round(solve_rounds(b, (k - 1) as nat))
    }
}

/// Every one of the first `k - 1` rounds from `e` changed the board and left a
/// candidate cell.
pub open spec fn rounds_went_on(e: Board, k: nat) -> bool {
    forall|j: nat|
        0 < j < k ==> #[trigger] solve_rounds(e, j) != solve_rounds(e, (j - 1) as nat) && unsolved_count(solve_rounds(e, j)) > 0
}

/// The solver, started on `e` (after `started` tells whether the first elimination
/// changed the board), stops after exactly `k` rounds: every earlier round changed
/// the board and left a candidate cell, and the `k`-th changed nothing or left none.
pub open spec fn solve_stops(e: Board, started: bool, k: nat) -> bool {
    &&& k == 0 ==> !started
    &&& k > 0 ==> started
    &&& rounds_went_on(e, k)
    &&& k > 0 ==> (solve_rounds(e, k) == solve_rounds(e, (k - 1) as nat) || unsolved_count(solve_rounds(e, k)) == 0)
}

/// Solves by constraint propagation: eliminates, then repeats rounds of singles, naked
/// pairs, hidden pairs, pointing sets, naked subsets and fish for as long as a round
/// changes the board and candidate cells remain; tells whether the board ends solved.
pub fn solve(board: &mut Board) -> (solved: bool)
    requires
        values_in_range(*old(board)),
    ensures
        exists|k: nat|
            #![trigger solve_rounds(eliminated(*old(board)), k)]
            *final(board) == solve_rounds(eliminated(*old(board)), k) && solve_stops(
                eliminated(*old(board)),
                eliminated(*old(board)) != *old(board),
                k,
            ),
        forall|g: BasicGrid| grid_of(*final(board), g) ==> (solved == is_solved_grid(g)),
        forall|g: BasicGrid| solved && grid_of(*final(board), g) ==> is_solution(g),
        forall|g: BasicGrid, s: BasicGrid|
            solved && grid_of(*final(board), g) && is_solution(s) && consistent(*old(board), s) ==> g == s,
        refines(*old(board), *final(board)),
        values_in_range(*final(board)),
        settled(*final(board)),
        forall|s: BasicGrid| is_solution(s) && consistent(*old(board), s) ==> consistent(*final(board), s),
{
    let ghost start = *old(board);
    let mut c = eliminate_candidates(board);
    let ghost e = *board;
    proof {
        lemma_elimination_unique(start, e);
        lemma_refines_in_range(start, e);
    }
    let ghost mut k: nat = 0;
    while c
        invariant_except_break
            k > 0 ==> unsolved_count(*board) > 0,
        invariant
            e == eliminated(start),
            refines(start, e),
            k > 0 ==> e != start,
            c == if k == 0 {
                e != start
            } else {
                solve_rounds(e, k) != solve_rounds(e, (k - 1) as nat)
            },
            *board == solve_rounds(e, k),
            rounds_went_on(e, k),
            refines(start, *board),
            values_in_range(*board),
            settled(*board),
            forall|s: BasicGrid| is_solution(s) && consistent(start, s) ==> consistent(*board, s),
        ensures
            e == eliminated(start),
            k > 0 ==> e != start,
            k == 0 ==> e == start,
            *board == solve_rounds(e, k),
            rounds_went_on(e, k),
            k > 0 ==> (solve_rounds(e, k) == solve_rounds(e, (k - 1) as nat) || unsolved_count(*board) == 0),
            refines(start, *board),
            values_in_range(*board),
            settled(*board),
            forall|s: BasicGrid| is_solution(s) && consistent(start, s) ==> consistent(*board, s),
        decreases board_measure(*board) + if c {
            1nat
        } else {
            0nat
        },
    {
        let ghost before = *board;
        let ghost k0 = k;
        let changed = solve_round_exec(board);
        c = changed;
        proof {
            k = k + 1;
            assert(solve_rounds(e, k) == solve_round(solve_rounds(e, k0)));
            lemma_went_on(e, k0);
            lemma_refines_trans(start, before, *board);
            lemma_refines_in_range(before, *board);
            lemma_refines_measure(before, *board);
        }
        let unsolved = count_unsolved_cells(board);
        if unsolved == 0 {
            break;
        }
    }
    let grid = cells_to_grid(board);
    proof {
        lemma_in_range_grid_checks(*board, grid);
    }
    let solved = verify(&grid);
    proof {
        if solved {
            lemma_solved_grid_is_solution(grid);
            assert forall|r: int, c: int| in9(r) && in9(c) implies !((#[trigger] board[r][c]) is Candidates) by {
                assert(unit_complete(grid, UnitMode::Row, r));
                assert(grid[unit_row(UnitMode::Row, r, c)][unit_col(UnitMode::Row, r, c)] == grid[r][c]);
            }
            assert forall|s: BasicGrid| is_solution(s) && consistent(start, s) implies grid == s by {
                lemma_filled_board_is_solution(*board, s, grid);
            }
        }
        assert forall|g: BasicGrid| grid_of(*board, g) implies g == grid by {
            lemma_grid_of_unique(*board, g, grid);
        }
        assert(solve_stops(e, e != start, k));
    }
    solved
}

/// The rounds went on up to `k + 1` when they went on up to `k` and the `k`-th round
/// changed the board and left a candidate cell.
proof fn lemma_went_on(e: Board, k: nat)
    requires
        rounds_went_on(e, k),
        k > 0 ==> solve_rounds(e, k) != solve_rounds(e, (k - 1) as nat) && unsolved_count(solve_rounds(e, k)) > 0,
    ensures
        rounds_went_on(e, k + 1),
{
    assert forall|j: nat| 0 < j < k + 1 implies #[trigger] solve_rounds(e, j) != solve_rounds(e, (j - 1) as nat) && unsolved_count(
        solve_rounds(e, j),
    ) > 0 by {
        if j == k {
        } else {
            assert(j < k);
        }
    }
}

/// One round of the solver on the board; tells whether it changed the board.
fn solve_round_exec(board: &mut Board) -> (c: bool)
    requires
        values_in_range(*old(board)),
        settled(*old(board)),
    ensures
        *final(board) == solve_round(*old(board)),
        c == (*final(board) != *old(board)),
        refines(*old(board), *final(board)),
        settled(*final(board)),
        forall|s: BasicGrid| is_solution(s) && consistent(*old(board), s) ==> consistent(*final(board), s),
{
    let ghost b0 = *board;
    proof {
        lemma_in_range_safe(*board);
        reveal(solve_round);
    }
    let s1 = solve_singles(board);
    let ghost b1 = *board;
    proof {
        lemma_refines_in_range(b0, b1);
    }
    let s2 = determine_naked_doubles(board);
    let ghost b2 = *board;
    proof {
        lemma_clears_only_settled(b1, b2);
        lemma_refines_trans(b0, b1, b2);
        lemma_refines_in_range(b0, b2);
    }
    let s3 = determine_hidden_doubles(board);
    let ghost b3 = *board;
    proof {
        lemma_clears_only_settled(b2, b3);
        lemma_refines_trans(b0, b2, b3);
        lemma_refines_in_range(b0, b3);
        lemma_in_range_safe(b3);
    }
    let s4 = solve_singles(board);
    let ghost b4 = *board;
    proof {
        lemma_refines_trans(b0, b3, b4);
        lemma_refines_in_range(b0, b4);
    }
    let s5 = eliminate_pointing_sets(board);
    let ghost b5 = *board;
    proof {
        lemma_clears_only_settled(b4, b5);
        lemma_refines_trans(b0, b4, b5);
        lemma_refines_in_range(b0, b5);
        lemma_in_range_safe(b5);
    }
    let s6 = solve_singles(board);
    let ghost b6 = *board;
    proof {
        lemma_refines_trans(b0, b5, b6);
        lemma_refines_in_range(b0, b6);
    }
    let s7 = determine_naked_subsets(board);
    let ghost b7 = *board;
    proof {
        lemma_clears_only_settled(b6, b7);
        lemma_refines_trans(b0, b6, b7);
        lemma_refines_in_range(b0, b7);
    }
    let s8 = swordfish_elimination(board);
    let ghost b8 = *board;
    proof {
        lemma_clears_only_settled(b7, b8);
        lemma_refines_trans(b0, b7, b8);
        lemma_refines_in_range(b0, b8);
        lemma_in_range_safe(b8);
    }
    let s9 = solve_singles(board);
    let ghost b9 = *board;
    proof {
        lemma_refines_trans(b0, b8, b9);
        assert(refines(b1, b9)) by {
            lemma_refines_trans(b1, b2, b3);
            lemma_refines_trans(b1, b3, b4);
            lemma_refines_trans(b1, b4, b5);
            lemma_refines_trans(b1, b5, b6);
            lemma_refines_trans(b1, b6, b7);
            lemma_refines_trans(b1, b7, b8);
            lemma_refines_trans(b1, b8, b9);
        }
        lemma_round_change(b0, b1, b2, b3, b4, b5, b6, b7, b8, b9);
    }
    s1 || s2 || s3 || s4 || s5 || s6 || s7 || s8 || s9
}

/// A round changed the board exactly when one of its passes did.
proof fn lemma_round_change(
    b0: Board,
    b1: Board,
    b2: Board,
    b3: Board,
    b4: Board,
    b5: Board,
    b6: Board,
    b7: Board,
    b8: Board,
    b9: Board,
)
    requires
        refines(b0, b1),
        refines(b1, b2),
        refines(b2, b3),
        refines(b3, b4),
        refines(b4, b5),
        refines(b5, b6),
        refines(b6, b7),
        refines(b7, b8),
        refines(b8, b9),
    ensures
        (b9 != b0) == (b1 != b0 || b2 != b1 || b3 != b2 || b4 != b3 || b5 != b4 || b6 != b5 || b7 != b6 || b8 != b7 || b9 != b8),
{
    lemma_refines_measure(b0, b1);
    lemma_refines_measure(b1, b2);
    lemma_refines_measure(b2, b3);
    lemma_refines_measure(b3, b4);
    lemma_refines_measure(b4, b5);
    lemma_refines_measure(b5, b6);
    lemma_refines_measure(b6, b7);
    lemma_refines_measure(b7, b8);
    lemma_refines_measure(b8, b9);
}

/// A candidate cell's measure is at most ten.
proof fn lemma_cell_measure_bound(cell: Cell)
    ensures
        cell_measure(cell) <= 10,
{
    if let Cell::Candidates(m) = cell {
        crate::types::lemma_count_bound(mask_pred(m), 9);
    }
}

/// The measure of the first `n` cells is at most ten per cell.
proof fn lemma_measure_upto_bound(b: Board, n: int)
    requires
        0 <= n,
    ensures
        measure_upto(b, n) <= 10 * n,
    decreases n,
{
    if n > 0 {
        lemma_measure_upto_bound(b, n - 1);
        lemma_cell_measure_bound(b[(n - 1) / 9][(n - 1) % 9]);
    }
}

/// One round of propagation: eliminate, naked singles, eliminate, hidden singles,
/// eliminate, naked pairs, hidden pairs, pointing sets, naked subsets.
#[verifier::opaque]
pub open spec fn propagate_round(b: Board) -> Board {
    let b1 = eliminated(b);
    let b2 = naked_singles_upto(b1, 81);
    let b3 = eliminated(b2);
    let b4 = hidden_singles_board(b3, 27);
    let b5 = eliminated(b4);
    let b6 = naked_doubles_board(b5, 27);
    let b7 = hidden_doubles_board(b6, 27);
    let b8 = pointing_board(b7, 9);
    naked_subsets_board(b8, 27)
}

/// The propagation rounds, `k` of them, from `b`.
pub open spec fn propagate_rounds(b: Board, k: nat) -> Board
    decreases k,
{
    if k == 0 {
        b
    } else {
        propagate_round(propagate_rounds(b, (k - 1) as nat))
    }
}

/// Propagation, started on `e` (after `started` tells whether the first elimination
/// changed the board), stops after exactly `k` rounds: every earlier round changed the
/// board and the `k`-th did not.
pub open spec fn propagation_stops(e: Board, started: bool, k: nat) -> bool {
    &&& k == 0 ==> !started
    &&& k > 0 ==> started
    &&& forall|j: nat| 0 < j < k ==> #[trigger] propagate_rounds(e, j) != propagate_rounds(e, (j - 1) as nat)
    &&& k > 0 ==> propagate_rounds(e, k) == propagate_rounds(e, (k - 1) as nat)
}

/// Propagates constraints: eliminates, then repeats rounds of eliminations, naked
/// singles, hidden singles, naked pairs, hidden pairs, pointing sets and naked subsets
/// until a round changes nothing; gives the number of rounds that changed the board.
pub fn propagate(board: &mut Board) -> (iterations: u32)
    requires
        elimination_safe(*old(board)),
    ensures
        exists|k: nat|
            #![trigger propagate_rounds(eliminated(*old(board)), k)]
            *final(board) == propagate_rounds(eliminated(*old(board)), k) && propagation_stops(
                eliminated(*old(board)),
                eliminated(*old(board)) != *old(board),
                k,
            ) && iterations == if k == 0 {
                0
            } else {
                k - 1
            },
        refines(*old(board), *final(board)),
        elimination_safe(*final(board)),
        settled(*final(board)),
        forall|s: BasicGrid| is_solution(s) && consistent(*old(board), s) ==> consistent(*final(board), s),
{
    let ghost start = *old(board);
    let mut c = eliminate_candidates(board);
    let ghost e = *board;
    proof {
        lemma_elimination_unique(start, e);
        lemma_measure_upto_bound(e, 81);
    }
    let mut iter: u32 = 0;
    let ghost mut k: nat = 0;
    while c
        invariant
            e == eliminated(start),
            refines(start, e),
            board_measure(e) <= 810,
            k > 0 ==> e != start,
            c == if k == 0 {
                e != start
            } else {
                propagate_rounds(e, k) != propagate_rounds(e, (k - 1) as nat)
            },
            iter == if c || k == 0 {
                k
            } else {
                (k - 1) as nat
            },
            iter + board_measure(*board) <= board_measure(e),
            *board == propagate_rounds(e, k),
            forall|j: nat| 0 < j < k ==> #[trigger] propagate_rounds(e, j) != propagate_rounds(e, (j - 1) as nat),
            refines(start, *board),
            refines(e, *board),
            elimination_safe(*board),
            settled(*board),
            forall|s: BasicGrid| is_solution(s) && consistent(start, s) ==> consistent(*board, s),
        decreases board_measure(*board) + if c {
            1nat
        } else {
            0nat
        },
    {
        let ghost before = *board;
        let ghost k0 = k;
        let changed = propagate_round_exec(board);
        c = changed;
        proof {
            k = k + 1;
            assert(propagate_rounds(e, k) == propagate_round(propagate_rounds(e, k0)));
            assert forall|j: nat| 0 < j < k implies #[trigger] propagate_rounds(e, j) != propagate_rounds(e, (j - 1) as nat) by {
                if j < k0 {
                } else {
                    assert(j == k0);
                }
            }
            lemma_refines_trans(start, before, *board);
            lemma_refines_trans(e, before, *board);
            lemma_refines_measure(before, *board);
        }
        if c {
            iter = iter + 1;
        }
    }
    proof {
        assert(propagation_stops(e, e != start, k));
    }
    iter
}

/// One round of propagation on the board; tells whether it changed the board.
fn propagate_round_exec(board: &mut Board) -> (c: bool)
    requires
        elimination_safe(*old(board)),
    ensures
        *final(board) == propagate_round(*old(board)),
        c == (*final(board) != *old(board)),
        refines(*old(board), *final(board)),
        elimination_safe(*final(board)),
        settled(*final(board)),
        forall|s: BasicGrid| is_solution(s) && consistent(*old(board), s) ==> consistent(*final(board), s),
{
    let ghost b0 = *board;
    proof {
        reveal(propagate_round);
    }
    let s1 = eliminate_candidates(board);
    let ghost b1 = *board;
    proof {
        lemma_elimination_unique(b0, b1);
    }
    let s2 = solve_naked_singles(board);
    let ghost b2 = *board;
    let s3 = eliminate_candidates(board);
    let ghost b3 = *board;
    proof {
        lemma_elimination_unique(b2, b3);
    }
    let s4 = solve_hidden_singles(board);
    let ghost b4 = *board;
    let s5 = eliminate_candidates(board);
    let ghost b5 = *board;
    proof {
        lemma_elimination_unique(b4, b5);
    }
    let s6 = determine_naked_doubles(board);
    let ghost b6 = *board;
    proof {
        lemma_clears_only_settled(b5, b6);
        lemma_refines_keeps_safe(b5, b6);
    }
    let s7 = determine_hidden_doubles(board);
    let ghost b7 = *board;
    proof {
        lemma_clears_only_settled(b6, b7);
        lemma_refines_keeps_safe(b6, b7);
    }
    let s8 = eliminate_pointing_sets(board);
    let ghost b8 = *board;
    proof {
        lemma_clears_only_settled(b7, b8);
        lemma_refines_keeps_safe(b7, b8);
    }
    let s9 = determine_naked_subsets(board);
    let ghost b9 = *board;
    proof {
        lemma_clears_only_settled(b8, b9);
        lemma_refines_keeps_safe(b8, b9);
        lemma_refines_trans(b0, b1, b2);
        lemma_refines_trans(b0, b2, b3);
        lemma_refines_trans(b0, b3, b4);
        lemma_refines_trans(b0, b4, b5);
        lemma_refines_trans(b0, b5, b6);
        lemma_refines_trans(b0, b6, b7);
        lemma_refines_trans(b0, b7, b8);
        lemma_refines_trans(b0, b8, b9);
        lemma_round_change(b0, b1, b2, b3, b4, b5, b6, b7, b8, b9);
    }
    s1 || s2 || s3 || s4 || s5 || s6 || s7 || s8 || s9
}

} // verus!
