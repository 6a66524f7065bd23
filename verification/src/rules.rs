use vstd::prelude::*;

use crate::helpers::{board_from, candidate_entries, in9, lemma_board_from, lemma_unit_geometry, unit_cells, unit_entries, same_unit, sees, unit_col, unit_row, UnitMode};
use crate::types::{count_bits, BasicGrid, BitMask, Board, Cell};

verus! {

/// The cell admits the digit `v`: it holds `v`, or `v` is one of its candidates.
pub open spec fn allows(cell: Cell, v: i16) -> bool {
    match cell {
        Cell::Value(x) => x == v,
        Cell::Candidates(m) => 1 <= v <= 9 && m[v - 1],
        Cell::Empty => false,
    }
}

/// `s` is a solved sudoku: every entry is a digit, two cells that share a row, a
/// column or a box hold different digits, and every unit holds every digit.
pub open spec fn is_solution(s: BasicGrid) -> bool {
    &&& forall|r: int, c: int| in9(r) && in9(c) ==> 1 <= #[trigger] s[r][c] <= 9
    &&& forall|r1: int, c1: int, r2: int, c2: int|
        in9(r1) && in9(c1) && in9(r2) && in9(c2) && #[trigger] sees(r1, c1, r2, c2) ==> s[r1][c1] != s[r2][c2]
    &&& forall|mode: UnitMode, index: int, d: int|
        in9(index) && 1 <= d <= 9 ==> #[trigger] unit_holds(s, mode, index, d)
}

/// Unit `index` of kind `mode` of `s` holds the digit `d`.
pub open spec fn unit_holds(s: BasicGrid, mode: UnitMode, index: int, d: int) -> bool {
    exists|k: int| in9(k) && s[unit_row(mode, index, k)][unit_col(mode, index, k)] == d
}

/// The solution `s` agrees with every placed digit and every candidate set of `b`.
pub open spec fn consistent(b: Board, s: BasicGrid) -> bool {
    forall|r: int, c: int| in9(r) && in9(c) ==> allows(#[trigger] b[r][c], s[r][c])
}

/// No candidate set still holds a digit that is placed in a cell that it sees.
pub open spec fn settled(b: Board) -> bool {
    forall|r: int, c: int, r2: int, c2: int|
        in9(r) && in9(c) && in9(r2) && in9(c2) && #[trigger] sees(r, c, r2, c2) && b[r][c] is Candidates
            && b[r2][c2] is Value && 1 <= b[r2][c2]->Value_0 <= 9 ==> !b[r][c]->Candidates_0[b[r2][c2]->Value_0 - 1]
}

/// The new cell keeps what the old one settled: a placed digit or an empty cell stays,
/// and a candidate set only loses candidates, or becomes one of its digits.
pub open spec fn cell_refines(old: Cell, new: Cell) -> bool {
    match old {
        Cell::Candidates(m) => match new {
            Cell::Candidates(m2) => forall|d: int| 0 <= d < 9 && #[trigger] m2[d] ==> m[d],
            Cell::Value(v) => 1 <= v <= 9 && m[v - 1],
            Cell::Empty => false,
        },
        _ => new == old,
    }
}

/// Every cell of `new` refines the same cell of `old`.
pub open spec fn refines(old: Board, new: Board) -> bool {
    forall|r: int, c: int| in9(r) && in9(c) ==> cell_refines(#[trigger] old[r][c], new[r][c])
}

/// A cell's share of the amount of work left: a candidate set counts one plus its
/// number of candidates.
pub open spec fn cell_measure(cell: Cell) -> nat {
    match cell {
        Cell::Candidates(m) => 1 + count_bits(m),
        _ => 0,
    }
}

/// The mask without the digit `d`.
pub open spec fn mask_without(m: BitMask, d: int) -> BitMask {
    vstd::array::spec_array_update(m, d, false)
}

/// The cell without the candidate `d`; other cells are left as they are.
pub open spec fn cell_without(cell: Cell, d: int) -> Cell {
    match cell {
        Cell::Candidates(m) => Cell::Candidates(mask_without(m, d)),
        _ => cell,
    }
}

pub proof fn lemma_mask_without(m: BitMask, d: int)
    requires
        in9(d),
    ensures
        forall|e: int| in9(e) ==> #[trigger] mask_without(m, d)[e] == (m[e] && e != d),
{
    assert(mask_without(m, d)@ == m@.update(d, false));
}

/// Refinement is transitive.
pub proof fn lemma_refines_trans(a: Board, b: Board, c: Board)
    requires
        refines(a, b),
        refines(b, c),
    ensures
        refines(a, c),
{
    assert forall|r: int, col: int| in9(r) && in9(col) implies cell_refines(#[trigger] a[r][col], c[r][col]) by {
        assert(cell_refines(a[r][col], b[r][col]));
        assert(cell_refines(b[r][col], c[r][col]));
        match (a[r][col], b[r][col], c[r][col]) {
            (Cell::Candidates(m1), Cell::Candidates(m2), Cell::Candidates(m3)) => {
                assert forall|d: int| 0 <= d < 9 && #[trigger] m3[d] implies m1[d] by {
                    assert(m2[d]);
                }
            },
            _ => {},
        }
    }
}

/// Refinement is antisymmetric: boards that refine each other are equal.
pub proof fn lemma_refines_antisym(a: Board, b: Board)
    requires
        refines(a, b),
        refines(b, a),
    ensures
        a == b,
{
    assert forall|r: int, c: int| in9(r) && in9(c) implies #[trigger] a[r][c] == b[r][c] by {
        assert(cell_refines(a[r][c], b[r][c]));
        assert(cell_refines(b[r][c], a[r][c]));
        if let Cell::Candidates(m1) = a[r][c] {
            if let Cell::Candidates(m2) = b[r][c] {
                assert forall|d: int| in9(d) implies #[trigger] m1[d] == m2[d] by {}
                crate::helpers::lemma_mask_ext(m1, m2);
            }
        }
    }
    crate::helpers::lemma_board_ext(a, b);
}

/// A change on the way cannot be undone by a later refinement.
pub proof fn lemma_refines_strict(a: Board, b: Board, c: Board)
    requires
        refines(a, b),
        refines(b, c),
        b != c,
    ensures
        a != c,
{
    if a == c {
        lemma_refines_antisym(b, c);
    }
}

/// `new` is `old` with candidates removed from its candidate cells, and nothing else
/// changed.
pub open spec fn clears_only(old: Board, new: Board) -> bool {
    forall|r: int, c: int|
        in9(r) && in9(c) ==> if old[r][c] is Candidates {
            (#[trigger] new[r][c]) is Candidates && forall|d: int| 0 <= d < 9 && #[trigger] new[r][c]->Candidates_0[d] ==> old[r][c]->Candidates_0[d]
        } else {
            new[r][c] == old[r][c]
        }
}

/// Removing candidates is a refinement.
pub proof fn lemma_clears_only_refines(old: Board, new: Board)
    requires
        clears_only(old, new),
    ensures
        refines(old, new),
{
    assert forall|r: int, c: int| in9(r) && in9(c) implies cell_refines(#[trigger] old[r][c], new[r][c]) by {}
}

/// Removing candidates twice is removing candidates.
pub proof fn lemma_clears_only_trans(a: Board, b: Board, c: Board)
    requires
        clears_only(a, b),
        clears_only(b, c),
    ensures
        clears_only(a, c),
{
    assert forall|r: int, col: int| in9(r) && in9(col) implies if a[r][col] is Candidates {
        (#[trigger] c[r][col]) is Candidates && forall|d: int| 0 <= d < 9 && #[trigger] c[r][col]->Candidates_0[d] ==> a[r][col]->Candidates_0[d]
    } else {
        c[r][col] == a[r][col]
    } by {
        if a[r][col] is Candidates {
            assert(b[r][col] is Candidates);
            assert forall|d: int| 0 <= d < 9 && #[trigger] c[r][col]->Candidates_0[d] implies a[r][col]->Candidates_0[d] by {
                assert(b[r][col]->Candidates_0[d]);
            }
        }
    }
}

/// Removing candidates keeps a settled board settled.
pub proof fn lemma_clears_only_settled(old: Board, new: Board)
    requires
        clears_only(old, new),
        settled(old),
    ensures
        settled(new),
{
    assert forall|r: int, c: int, r2: int, c2: int|
        in9(r) && in9(c) && in9(r2) && in9(c2) && #[trigger] sees(r, c, r2, c2) && new[r][c] is Candidates
            && new[r2][c2] is Value && 1 <= new[r2][c2]->Value_0 <= 9 implies !new[r][c]->Candidates_0[new[r2][c2]->Value_0 - 1] by {
        assert(old[r2][c2] == new[r2][c2]);
        assert(old[r][c] is Candidates);
    }
}

/// Every board refines itself.
pub proof fn lemma_refines_refl(a: Board)
    ensures
        refines(a, a),
{
}

/// A board that is consistent with a solution places no digit twice in a unit and
/// keeps at least one candidate in every candidate cell.
pub proof fn lemma_consistent_board_is_sane(b: Board, s: BasicGrid)
    requires
        is_solution(s),
        consistent(b, s),
    ensures
        forall|r1: int, c1: int, r2: int, c2: int|
            in9(r1) && in9(c1) && in9(r2) && in9(c2) && #[trigger] sees(r1, c1, r2, c2) && b[r1][c1] is Value
                && b[r2][c2] is Value ==> b[r1][c1] != b[r2][c2],
        forall|r: int, c: int|
            in9(r) && in9(c) && (#[trigger] b[r][c]) is Candidates ==> exists|d: int|
                in9(d) && #[trigger] b[r][c]->Candidates_0[d],
        forall|r: int, c: int| in9(r) && in9(c) ==> !((#[trigger] b[r][c]) is Empty),
{
    assert forall|r1: int, c1: int, r2: int, c2: int|
        in9(r1) && in9(c1) && in9(r2) && in9(c2) && #[trigger] sees(r1, c1, r2, c2) && b[r1][c1] is Value
            && b[r2][c2] is Value implies b[r1][c1] != b[r2][c2] by {
        assert(allows(b[r1][c1], s[r1][c1]));
        assert(allows(b[r2][c2], s[r2][c2]));
    }
    assert forall|r: int, c: int| in9(r) && in9(c) && (#[trigger] b[r][c]) is Candidates implies exists|d: int|
        in9(d) && #[trigger] b[r][c]->Candidates_0[d] by {
        assert(allows(b[r][c], s[r][c]));
        assert(1 <= s[r][c] <= 9);
        let d = s[r][c] - 1;
        assert(b[r][c]->Candidates_0[d]);
    }
    assert forall|r: int, c: int| in9(r) && in9(c) implies !((#[trigger] b[r][c]) is Empty) by {
        assert(allows(b[r][c], s[r][c]));
    }
}

/// The two boards have their candidate cells in the same places; their other cells may
/// hold anything.
pub open spec fn same_candidate_cells(a: Board, b: Board) -> bool {
    forall|r: int, c: int| in9(r) && in9(c) ==> ((#[trigger] a[r][c]) is Candidates <==> b[r][c] is Candidates)
}

/// The candidate cells of the two boards agree on the candidate `d`.
pub open spec fn agree_on_digit(a: Board, b: Board, d: int) -> bool {
    forall|r: int, c: int|
        in9(r) && in9(c) && (#[trigger] a[r][c]) is Candidates && b[r][c] is Candidates ==> a[r][c]->Candidates_0[d]
            == b[r][c]->Candidates_0[d]
}

/// The mask `m` with its first `n` digits kept only where `keep` holds.
pub open spec fn mask_keep(m: BitMask, keep: spec_fn(int) -> bool, n: nat) -> BitMask
    decreases n,
{
    if n == 0 {
        m
    } else {
        vstd::array::spec_array_update(mask_keep(m, keep, (n - 1) as nat), n - 1, m[n - 1] && keep(n - 1))
    }
}

proof fn lemma_mask_keep(m: BitMask, keep: spec_fn(int) -> bool, n: nat)
    requires
        n <= 9,
    ensures
        forall|d: int| 0 <= d < n ==> #[trigger] mask_keep(m, keep, n)[d] == (m[d] && keep(d)),
        forall|d: int| n <= d < 9 ==> #[trigger] mask_keep(m, keep, n)[d] == m[d],
    decreases n,
{
    if n > 0 {
        lemma_mask_keep(m, keep, (n - 1) as nat);
        let prev = mask_keep(m, keep, (n - 1) as nat);
        assert(mask_keep(m, keep, n)@ == prev@.update(n - 1, m[n - 1] && keep(n - 1)));
    }
}

/// The board `b` with every candidate `d` of the cell at (`r`, `c`) kept only where
/// `keep(r, c, d)` holds.
pub open spec fn keep_board(b: Board, keep: spec_fn(int, int, int) -> bool) -> Board {
    board_from(
        b,
        |r: int, c: int|
            match b[r][c] {
                Cell::Candidates(m) => Cell::Candidates(mask_keep(m, |d: int| keep(r, c, d), 9)),
                other => other,
            },
        81,
    )
}

/// `keep_board` keeps the candidates that `keep` names and leaves every other cell.
pub proof fn lemma_keep_board(b: Board, keep: spec_fn(int, int, int) -> bool)
    ensures
        forall|r: int, c: int|
            in9(r) && in9(c) ==> if b[r][c] is Candidates {
                (#[trigger] keep_board(b, keep)[r][c]) is Candidates && forall|d: int|
                    in9(d) ==> #[trigger] keep_board(b, keep)[r][c]->Candidates_0[d] == (b[r][c]->Candidates_0[d] && keep(r, c, d))
            } else {
                keep_board(b, keep)[r][c] == b[r][c]
            },
{
    let f = |r: int, c: int|
        match b[r][c] {
            Cell::Candidates(m) => Cell::Candidates(mask_keep(m, |d: int| keep(r, c, d), 9)),
            other => other,
        };
    lemma_board_from(b, f, 81);
    assert forall|r: int, c: int| in9(r) && in9(c) implies if b[r][c] is Candidates {
        (#[trigger] keep_board(b, keep)[r][c]) is Candidates && forall|d: int|
            in9(d) ==> #[trigger] keep_board(b, keep)[r][c]->Candidates_0[d] == (b[r][c]->Candidates_0[d] && keep(r, c, d))
    } else {
        keep_board(b, keep)[r][c] == b[r][c]
    } by {
        assert(r * 9 + c < 81);
        assert(keep_board(b, keep)[r][c] == f(r, c));
        if let Cell::Candidates(m) = b[r][c] {
            lemma_mask_keep(m, |d: int| keep(r, c, d), 9);
        }
    }
}

/// The candidate entries of two unit cell sequences that have their candidate cells in
/// the same places, agreeing on the candidate `d`, have the same positions and agree on
/// `d`.
proof fn lemma_entries_agree(cx: Seq<Cell>, cy: Seq<Cell>, d: int, n: int)
    requires
        0 <= n <= 9,
        cx.len() == 9,
        cy.len() == 9,
        forall|k: int| 0 <= k < 9 ==> ((#[trigger] cx[k]) is Candidates <==> cy[k] is Candidates),
        forall|k: int| 0 <= k < 9 && (#[trigger] cx[k]) is Candidates ==> cx[k]->Candidates_0[d] == cy[k]->Candidates_0[d],
    ensures
        candidate_entries(cx, n).len() == candidate_entries(cy, n).len(),
        forall|t: int|
            0 <= t < candidate_entries(cx, n).len() ==> (#[trigger] candidate_entries(cx, n)[t]).0 == candidate_entries(cy, n)[t].0
                && candidate_entries(cx, n)[t].1[d] == candidate_entries(cy, n)[t].1[d],
    decreases n,
{
    if n > 0 {
        lemma_entries_agree(cx, cy, d, n - 1);
        let px = candidate_entries(cx, n - 1);
        let py = candidate_entries(cy, n - 1);
        assert forall|t: int| 0 <= t < candidate_entries(cx, n).len() implies (#[trigger] candidate_entries(cx, n)[t]).0
            == candidate_entries(cy, n)[t].0 && candidate_entries(cx, n)[t].1[d] == candidate_entries(cy, n)[t].1[d] by {
            if t < px.len() {
                assert(candidate_entries(cx, n)[t] == px[t]);
                assert(candidate_entries(cy, n)[t] == py[t]);
            }
        }
    }
}

/// On two boards with their candidate cells in the same places that agree on the candidate `d`, the candidate
/// entries of a unit have the same positions and agree on `d`.
pub proof fn lemma_unit_entries_agree(x: Board, y: Board, mode: UnitMode, index: int, d: int)
    requires
        in9(index),
        same_candidate_cells(x, y),
        agree_on_digit(x, y, d),
    ensures
        unit_entries(x, mode, index).len() == unit_entries(y, mode, index).len(),
        forall|t: int|
            0 <= t < unit_entries(x, mode, index).len() ==> (#[trigger] unit_entries(x, mode, index)[t]).0 == unit_entries(
                y,
                mode,
                index,
            )[t].0 && unit_entries(x, mode, index)[t].1[d] == unit_entries(y, mode, index)[t].1[d],
{
    lemma_unit_geometry(mode, index);
    let cx = unit_cells(x, mode, index);
    let cy = unit_cells(y, mode, index);
    assert forall|k: int| 0 <= k < 9 implies ((#[trigger] cx[k]) is Candidates <==> cy[k] is Candidates) by {
        assert(in9(unit_row(mode, index, k)));
    }
    assert forall|k: int| 0 <= k < 9 && (#[trigger] cx[k]) is Candidates implies cx[k]->Candidates_0[d] == cy[k]->Candidates_0[d] by {
        assert(in9(unit_row(mode, index, k)));
    }
    lemma_entries_agree(cx, cy, d, 9);
}

} // verus!
