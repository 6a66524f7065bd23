use vstd::prelude::*;

use crate::helpers::{
    lemma_write_masks_distinct, set_unit_candidate_masks, vec_contains, write_masks, masks_change, in9, lemma_board_ext, lemma_candidate_entries, lemma_mask_ext, lemma_unit_geometry, lemma_unit_sees, masks_equal,
    minus_rel, pos_in_unit, remove_from_unit, unit_candidate_masks, unit_cells, unit_col, unit_entries, unit_of, unit_row,
    UnitMode,
};
use crate::rules::{clears_only, allows, cell_refines, consistent, is_solution, lemma_refines_strict, lemma_refines_trans, refines};
use crate::singles::mode_at;
use crate::subsets::{combos, iterate_for_subsets, lemma_combos_picks, picks};
use crate::types::{
    count_bits, count_pred, lemma_count_congruent, lemma_count_pair, mask_pred, BasicGrid, BitMask, BitMaskExt, Board, Cell,
};
use crate::rules::{settled, unit_holds};

verus! {

/// Entries `a` and `b` of a unit are two different cells with the same two candidates.
pub open spec fn pair_matches(entries: Seq<(usize, BitMask)>, a: int, b: int) -> bool {
    &&& 0 <= a < entries.len()
    &&& 0 <= b < entries.len()
    &&& entries[a].0 != entries[b].0
    &&& entries[a].1 == entries[b].1
    &&& count_bits(entries[a].1) == 2
}

/// A naked pair of the unit whose cells are not at position `k` holds the candidate `d`.
pub open spec fn naked_pair_clears(entries: Seq<(usize, BitMask)>, k: int, d: int) -> bool {
    exists|a: int, b: int|
        #[trigger] pair_matches(entries, a, b) && entries[a].0 != k && entries[b].0 != k && entries[a].1[d]
}

/// `new` is `old` after the naked pairs of unit `index` of kind `mode` removed their two
/// digits from every other candidate cell of the unit.
pub open spec fn naked_doubles_unit(old: Board, mode: UnitMode, index: int, new: Board) -> bool {
    forall|r: int, c: int|
        in9(r) && in9(c) ==> if unit_of(mode, r, c) == index && old[r][c] is Candidates {
            (#[trigger] new[r][c]) is Candidates && forall|d: int|
                in9(d) ==> #[trigger] new[r][c]->Candidates_0[d] == (old[r][c]->Candidates_0[d] && !naked_pair_clears(
                    unit_entries(old, mode, index),
                    pos_in_unit(mode, r, c),
                    d,
                ))
        } else {
            new[r][c] == old[r][c]
        }
}

/// The naked-pairs pass on the `n`-th unit.
pub open spec fn naked_doubles_step(b: Board, n: int) -> Board {
    choose|x: Board| #[trigger] naked_doubles_unit(b, mode_at(n), n % 9, x)
}

/// The naked-pairs pass over the first `n` units: the rows, then the columns, then the boxes.
pub open spec fn naked_doubles_board(b: Board, n: nat) -> Board
    decreases n,
{
    if n == 0 {
        b
    } else {
        naked_doubles_step(naked_doubles_board(b, (n - 1) as nat), n - 1)
    }
}

/// `p` names two entries that are a naked pair, by their positions and their mask.
pub open spec fn is_pair_of(entries: Seq<(usize, BitMask)>, p: (usize, usize, BitMask)) -> bool {
    exists|a: int, b: int| #[trigger] pair_matches(entries, a, b) && p == (entries[a].0, entries[b].0, entries[a].1)
}

/// Some pair among the first `t` of `pairs` leaves out position `k` and holds `d`.
pub open spec fn pairs_applied(pairs: Seq<(usize, usize, BitMask)>, t: int, k: int, d: int) -> bool {
    exists|u: int| 0 <= u < t && (#[trigger] pairs[u]).0 != k && pairs[u].1 != k && pairs[u].2[d]
}

/// The naked pairs among the first `p` ordered pairs of entries, taken first entry by
/// first entry and then second entry by second entry, each as its two positions and
/// its mask.
pub open spec fn pair_list(entries: Seq<(usize, BitMask)>, p: int) -> Seq<(usize, usize, BitMask)>
    decreases p,
{
    if p <= 0 || entries.len() == 0 {
        Seq::empty()
    } else {
        let a = (p - 1) / (entries.len() as int);
        let b = (p - 1) % (entries.len() as int);
        pair_list(entries, p - 1) + if pair_matches(entries, a, b) {
            seq![(entries[a].0, entries[b].0, entries[a].1)]
        } else {
            Seq::empty()
        }
    }
}

/// Every ordered pair of entries that are two different cells with the same two
/// candidates, as their two positions and their mask.
fn isolate_naked_doubles_from_masks(candidate_set: &Vec<(usize, BitMask)>) -> (result: Vec<(usize, usize, BitMask)>)
    ensures
        result@ == pair_list(candidate_set@, (candidate_set@.len() * candidate_set@.len()) as int),
        forall|t: int| 0 <= t < result@.len() ==> is_pair_of(candidate_set@, #[trigger] result@[t]),
        forall|a: int, b: int|
            #[trigger] pair_matches(candidate_set@, a, b) ==> exists|t: int|
                0 <= t < result@.len() && result@[t] == (candidate_set@[a].0, candidate_set@[b].0, candidate_set@[a].1),
{
    let mut result: Vec<(usize, usize, BitMask)> = Vec::new();
    let n = candidate_set.len();
    let mut a: usize = 0;
    while a < n
        invariant
            a <= n,
            n == candidate_set@.len(),
            result@ == pair_list(candidate_set@, a * n),
            forall|t: int| 0 <= t < result@.len() ==> is_pair_of(candidate_set@, #[trigger] result@[t]),
            forall|x: int, y: int|
                #[trigger] pair_matches(candidate_set@, x, y) && x < a ==> exists|t: int|
                    0 <= t < result@.len() && result@[t] == (candidate_set@[x].0, candidate_set@[y].0, candidate_set@[x].1),
        decreases n - a,
    {
        let (i, bits_i) = candidate_set[a];
        let mut b: usize = 0;
        while b < n
            invariant
                a < n,
                b <= n,
                n == candidate_set@.len(),
                (i, bits_i) == candidate_set@[a as int],
                result@ == pair_list(candidate_set@, a * n + b),
                forall|t: int| 0 <= t < result@.len() ==> is_pair_of(candidate_set@, #[trigger] result@[t]),
                forall|x: int, y: int|
                    #[trigger] pair_matches(candidate_set@, x, y) && (x < a || (x == a && y < b)) ==> exists|t: int|
                        0 <= t < result@.len() && result@[t] == (candidate_set@[x].0, candidate_set@[y].0, candidate_set@[x].1),
            decreases n - b,
        {
            let (j, bits_j) = candidate_set[b];
            let ghost prev = result@;
            proof {
                assert(a * n + b + 1 <= n * n) by (nonlinear_arith)
                    requires
                        a < n,
                        b < n,
                ;
                vstd::arithmetic::div_mod::lemma_fundamental_div_mod_converse(a * n + b, n as int, a as int, b as int);
            }
            let hit = i != j && masks_equal(&bits_i, &bits_j) && bits_i.bits_set() == 2;
            if hit {
                result.push((i, j, bits_i));
                proof {
                    assert(pair_matches(candidate_set@, a as int, b as int));
                    assert(result@[result@.len() - 1] == (
                        candidate_set@[a as int].0,
                        candidate_set@[b as int].0,
                        candidate_set@[a as int].1,
                    ));
                }
            }
            proof {
                assert(hit == pair_matches(candidate_set@, a as int, b as int));
                assert forall|x: int, y: int|
                    #[trigger] pair_matches(candidate_set@, x, y) && (x < a || (x == a && y < b + 1)) implies exists|t: int|
                        0 <= t < result@.len() && result@[t] == (candidate_set@[x].0, candidate_set@[y].0, candidate_set@[x].1) by {
                    if x == a && y == b {
                        assert(result@[result@.len() - 1] == (candidate_set@[x].0, candidate_set@[y].0, candidate_set@[x].1));
                    } else {
                        let t = choose|t: int|
                            0 <= t < prev.len() && prev[t] == (candidate_set@[x].0, candidate_set@[y].0, candidate_set@[x].1);
                        assert(result@[t] == prev[t]);
                    }
                }
            }
            b = b + 1;
        }
        assert(a * n + n == (a + 1) * n) by (nonlinear_arith);
        a = a + 1;
    }
    result
}

/// Removes the two digits of every naked pair of unit `index` of kind `mode` from the
/// unit's other candidate cells; tells whether any candidate was removed.
fn naked_doubles_in_unit(board: &mut Board, index: usize, mode: UnitMode) -> (change: bool)
    requires
        index < 9,
    ensures
        naked_doubles_unit(*old(board), mode, index as int, *final(board)),
        change == (*final(board) != *old(board)),
{
    let candidate_set = unit_candidate_masks(board, index, mode);
    let pair_mask = isolate_naked_doubles_from_masks(&candidate_set);
    let ghost entries = candidate_set@;
    let mut change = false;
    let mut t: usize = 0;
    while t < pair_mask.len()
        invariant
            t <= pair_mask@.len(),
            index < 9,
            forall|r: int, c: int|
                in9(r) && in9(c) ==> if unit_of(mode, r, c) == index && old(board)[r][c] is Candidates {
                    (#[trigger] board[r][c]) is Candidates && forall|d: int|
                        in9(d) ==> #[trigger] board[r][c]->Candidates_0[d] == (old(board)[r][c]->Candidates_0[d]
                            && !pairs_applied(pair_mask@, t as int, pos_in_unit(mode, r, c), d))
                } else {
                    board[r][c] == old(board)[r][c]
                },
            change == (*board != *old(board)),
        decreases pair_mask@.len() - t,
    {
        let ghost before = *board;
        let (i, j, mask) = pair_mask[t];
        let mut keep: Vec<usize> = Vec::new();
        keep.push(i);
        keep.push(j);
        let removed = remove_from_unit(board, index, mode, &keep, &mask);
        if removed {
            change = true;
        }
        proof {
            assert forall|k: int| in9(k) implies keep@.contains(k as usize) == (k == i || k == j) by {
                if k == i {
                    assert(keep@[0] == i);
                }
                if k == j {
                    assert(keep@[1] == j);
                }
            }
            assert forall|r: int, c: int| in9(r) && in9(c) implies if unit_of(mode, r, c) == index
                && old(board)[r][c] is Candidates {
                (#[trigger] board[r][c]) is Candidates && forall|d: int|
                    in9(d) ==> #[trigger] board[r][c]->Candidates_0[d] == (old(board)[r][c]->Candidates_0[d]
                        && !pairs_applied(pair_mask@, t as int + 1, pos_in_unit(mode, r, c), d))
            } else {
                board[r][c] == old(board)[r][c]
            } by {
                if unit_of(mode, r, c) == index && old(board)[r][c] is Candidates {
                    lemma_unit_geometry(mode, index as int);
                    let k = pos_in_unit(mode, r, c);
                    assert forall|d: int| in9(d) implies #[trigger] board[r][c]->Candidates_0[d] == (
                    old(board)[r][c]->Candidates_0[d] && !pairs_applied(pair_mask@, t as int + 1, k, d)) by {
                        if pairs_applied(pair_mask@, t as int + 1, k, d) && !pairs_applied(pair_mask@, t as int, k, d) {
                            let u = choose|u: int|
                                0 <= u < t + 1 && (#[trigger] pair_mask@[u]).0 != k && pair_mask@[u].1 != k && pair_mask@[u].2[d];
                            assert(u == t);
                        }
                        if pairs_applied(pair_mask@, t as int, k, d) {
                            let u = choose|u: int|
                                0 <= u < t && (#[trigger] pair_mask@[u]).0 != k && pair_mask@[u].1 != k && pair_mask@[u].2[d];
                            assert(pairs_applied(pair_mask@, t as int + 1, k, d));
                        }
                    }
                }
            }
            if removed {
                lemma_bits_cleared_refines(*old(board), before, *board, mode, index as int);
                lemma_refines_strict(*old(board), before, *board);
            }
        }
        t = t + 1;
    }
    proof {
        lemma_candidate_entries(unit_cells(*old(board), mode, index as int), 9);
        lemma_unit_geometry(mode, index as int);
        assert forall|k: int, d: int| in9(k) && in9(d) implies #[trigger] pairs_applied(pair_mask@, pair_mask@.len() as int, k, d)
            == naked_pair_clears(entries, k, d) by {
            if pairs_applied(pair_mask@, pair_mask@.len() as int, k, d) {
                let u = choose|u: int|
                    0 <= u < pair_mask@.len() && (#[trigger] pair_mask@[u]).0 != k && pair_mask@[u].1 != k && pair_mask@[u].2[d];
                assert(is_pair_of(entries, pair_mask@[u]));
                let (a, b) = choose|a: int, b: int|
                    #[trigger] pair_matches(entries, a, b) && pair_mask@[u] == (entries[a].0, entries[b].0, entries[a].1);
                assert(pair_matches(entries, a, b) && entries[a].0 != k && entries[b].0 != k && entries[a].1[d]);
            }
            if naked_pair_clears(entries, k, d) {
                let (a, b) = choose|a: int, b: int|
                    #[trigger] pair_matches(entries, a, b) && entries[a].0 != k && entries[b].0 != k && entries[a].1[d];
                let u = choose|u: int|
                    0 <= u < pair_mask@.len() && pair_mask@[u] == (entries[a].0, entries[b].0, entries[a].1);
                assert(pair_mask@[u].0 != k && pair_mask@[u].1 != k && pair_mask@[u].2[d]);
            }
        }
    }
    change
}

/// A board whose candidate cells of one unit lost candidates, and that is otherwise
/// unchanged, refines the earlier board.
proof fn lemma_bits_cleared_refines(old: Board, before: Board, after: Board, mode: UnitMode, index: int)
    requires
        refines(old, before),
        forall|r: int, c: int|
            in9(r) && in9(c) ==> if unit_of(mode, r, c) == index && old[r][c] is Candidates {
                (#[trigger] after[r][c]) is Candidates && forall|d: int|
                    in9(d) && #[trigger] after[r][c]->Candidates_0[d] ==> before[r][c]->Candidates_0[d]
            } else {
                after[r][c] == before[r][c]
            },
        forall|r: int, c: int| in9(r) && in9(c) && unit_of(mode, r, c) == index && old[r][c] is Candidates ==> (#[trigger] before[r][c]) is Candidates,
    ensures
        refines(before, after),
{
    assert forall|r: int, c: int| in9(r) && in9(c) implies cell_refines(#[trigger] before[r][c], after[r][c]) by {}
}

/// Removes, in every row, then every column, then every box, the two digits of each
/// naked pair from the unit's other candidate cells; tells whether any candidate was
/// removed.
pub fn determine_naked_doubles(board: &mut Board) -> (change: bool)
    ensures
        *final(board) == naked_doubles_board(*old(board), 27),
        change == (*final(board) != *old(board)),
        refines(*old(board), *final(board)),
        clears_only(*old(board), *final(board)),
        forall|s: BasicGrid| is_solution(s) && consistent(*old(board), s) ==> consistent(*final(board), s),
{
    let mut change = false;
    let mut n: usize = 0;
    while n < 27
        invariant
            n <= 27,
            *board == naked_doubles_board(*old(board), n as nat),
            change == (*board != *old(board)),
            refines(*old(board), *board),
            clears_only(*old(board), *board),
            forall|s: BasicGrid| is_solution(s) && consistent(*old(board), s) ==> consistent(*board, s),
        decreases 27 - n,
    {
        let mode = if n < 9 {
            UnitMode::Row
        } else if n < 18 {
            UnitMode::Column
        } else {
            UnitMode::Box
        };
        let index = n % 9;
        let ghost before = *board;
        let step = naked_doubles_in_unit(board, index, mode);
        if step {
            change = true;
        }
        proof {
            assert(mode == mode_at(n as int));
            lemma_naked_doubles_unique(before, n as int, *board);
            lemma_naked_doubles_refines(before, mode, index as int, *board);
            lemma_refines_trans(*old(board), before, *board);
            crate::rules::lemma_clears_only_trans(*old(board), before, *board);
            if step {
                lemma_refines_strict(*old(board), before, *board);
            }
            assert forall|s: BasicGrid| is_solution(s) && consistent(*old(board), s) implies consistent(*board, s) by {
                lemma_naked_doubles_sound(before, mode, index as int, *board, s);
            }
        }
        n = n + 1;
    }
    change
}

proof fn lemma_naked_doubles_unique(b: Board, n: int, x: Board)
    requires
        0 <= n < 27,
        naked_doubles_unit(b, mode_at(n), n % 9, x),
    ensures
        naked_doubles_step(b, n) == x,
{
    let mode = mode_at(n);
    let index = n % 9;
    let y = naked_doubles_step(b, n);
    assert(naked_doubles_unit(b, mode, index, y));
    assert forall|r: int, c: int| in9(r) && in9(c) implies #[trigger] y[r][c] == x[r][c] by {
        if unit_of(mode, r, c) == index && b[r][c] is Candidates {
            assert forall|d: int| in9(d) implies #[trigger] y[r][c]->Candidates_0[d] == x[r][c]->Candidates_0[d] by {}
            lemma_mask_ext(y[r][c]->Candidates_0, x[r][c]->Candidates_0);
        }
    }
    lemma_board_ext(y, x);
}

/// The naked-pairs pass on a unit only removes candidates.
pub proof fn lemma_naked_doubles_refines(b: Board, mode: UnitMode, index: int, x: Board)
    requires
        naked_doubles_unit(b, mode, index, x),
    ensures
        refines(b, x),
        clears_only(b, x),
{
    assert(clears_only(b, x));
    assert forall|r: int, c: int| in9(r) && in9(c) implies cell_refines(#[trigger] b[r][c], x[r][c]) by {}
}

/// The naked-pairs pass on a unit never removes the digit that a solution consistent
/// with the board puts in a cell.
pub proof fn lemma_naked_doubles_sound(b: Board, mode: UnitMode, index: int, x: Board, s: BasicGrid)
    requires
        in9(index),
        naked_doubles_unit(b, mode, index, x),
        is_solution(s),
        consistent(b, s),
    ensures
        consistent(x, s),
{
    let entries = unit_entries(b, mode, index);
    let cells = unit_cells(b, mode, index);
    lemma_candidate_entries(cells, 9);
    lemma_unit_geometry(mode, index);
    assert forall|r: int, c: int| in9(r) && in9(c) implies allows(#[trigger] x[r][c], s[r][c]) by {
        assert(allows(b[r][c], s[r][c]));
        if unit_of(mode, r, c) == index && b[r][c] is Candidates {
            let k = pos_in_unit(mode, r, c);
            let d = s[r][c] - 1;
            if naked_pair_clears(entries, k, d) {
                let (a, bb) = choose|a: int, bb: int|
                    #[trigger] pair_matches(entries, a, bb) && entries[a].0 != k && entries[bb].0 != k && entries[a].1[d];
                let i = entries[a].0 as int;
                let j = entries[bb].0 as int;
                let m = entries[a].1;
                let (ri, ci) = (unit_row(mode, index, i), unit_col(mode, index, i));
                let (rj, cj) = (unit_row(mode, index, j), unit_col(mode, index, j));
                assert(cells[i] == Cell::Candidates(m));
                assert(cells[j] == Cell::Candidates(m));
                assert(allows(b[ri][ci], s[ri][ci]));
                assert(allows(b[rj][cj], s[rj][cj]));
                lemma_unit_sees(mode, index, i, j);
                lemma_unit_sees(mode, index, i, k);
                lemma_unit_sees(mode, index, j, k);
                let di = s[ri][ci] - 1;
                let dj = s[rj][cj] - 1;
                assert(m[di] && m[dj] && di != dj);
                lemma_count_pair(mask_pred(m), di, dj, 9);
                assert(mask_pred(m)(d));
                assert(d == di || d == dj);
                assert(false);
            }
        }
    }
}

/// The cell at position `k` of unit `index` of kind `mode` is a candidate cell with
/// the candidate `v`.
pub open spec fn holds_at(b: Board, mode: UnitMode, index: int, k: int, v: int) -> bool {
    unit_cells(b, mode, index)[k] is Candidates && unit_cells(b, mode, index)[k]->Candidates_0[v]
}

/// The positions of the unit's candidate cells that hold the candidate `v`.
pub open spec fn holders(b: Board, mode: UnitMode, index: int, v: int) -> spec_fn(int) -> bool {
    |k: int| holds_at(b, mode, index, k, v)
}

/// The positions of the unit's candidate cells that hold `v1` or `v2`.
pub open spec fn pair_holders(b: Board, mode: UnitMode, index: int, v1: int, v2: int) -> spec_fn(int) -> bool {
    |k: int| holds_at(b, mode, index, k, v1) || holds_at(b, mode, index, k, v2)
}

/// The digit indices 0 to 8.
pub open spec fn digit_indices() -> Seq<usize> {
    Seq::new(9, |i: int| i as usize)
}

/// The two digit indices of `p` are a hidden pair of the unit: each is held by at
/// least two candidate cells, and together they are held by exactly two.
pub open spec fn hidden_pair(b: Board, mode: UnitMode, index: int, p: Seq<usize>) -> bool {
    &&& count_pred(holders(b, mode, index, p[0] as int), 9) >= 2
    &&& count_pred(holders(b, mode, index, p[1] as int), 9) >= 2
    &&& count_pred(pair_holders(b, mode, index, p[0] as int, p[1] as int), 9) == 2
}

/// A hidden pair of the unit, among the pairs of digit indices in generation order,
/// covers position `k` and leaves out the candidate `d`.
pub open spec fn hidden_pair_clears(b: Board, mode: UnitMode, index: int, k: int, d: int) -> bool {
    exists|p: Seq<usize>|
        #[trigger] combos(digit_indices(), 2, 0, Seq::empty()).contains(p) && hidden_pair(b, mode, index, p) && pair_holders(
            b,
            mode,
            index,
            p[0] as int,
            p[1] as int,
        )(k) && d != p[0] && d != p[1]
}

/// `new` is `old` after the two cells of each hidden pair of unit `index` of kind `mode`
/// kept only the pair's two candidates.
pub open spec fn hidden_doubles_unit(old: Board, mode: UnitMode, index: int, new: Board) -> bool {
    forall|r: int, c: int|
        in9(r) && in9(c) ==> if unit_of(mode, r, c) == index && old[r][c] is Candidates {
            (#[trigger] new[r][c]) is Candidates && forall|d: int|
                in9(d) ==> #[trigger] new[r][c]->Candidates_0[d] == (old[r][c]->Candidates_0[d] && !hidden_pair_clears(
                    old,
                    mode,
                    index,
                    pos_in_unit(mode, r, c),
                    d,
                ))
        } else {
            new[r][c] == old[r][c]
        }
}

/// The hidden-pairs pass on the `n`-th unit.
pub open spec fn hidden_doubles_step(b: Board, n: int) -> Board {
    choose|x: Board| #[trigger] hidden_doubles_unit(b, mode_at(n), n % 9, x)
}

/// The hidden-pairs pass over the first `n` units: the rows, then the columns, then the boxes.
pub open spec fn hidden_doubles_board(b: Board, n: nat) -> Board
    decreases n,
{
    if n == 0 {
        b
    } else {
        hidden_doubles_step(hidden_doubles_board(b, (n - 1) as nat), n - 1)
    }
}

/// Some hidden pair among the first `q` generated pairs covers position `k` and
/// leaves out `d`.
pub open spec fn hidden_applied(b: Board, mode: UnitMode, index: int, perms: Seq<Seq<usize>>, q: int, k: int, d: int) -> bool {
    exists|u: int|
        0 <= u < q && hidden_pair(b, mode, index, #[trigger] perms[u]) && pair_holders(
            b,
            mode,
            index,
            perms[u][0] as int,
            perms[u][1] as int,
        )(k) && d != perms[u][0] && d != perms[u][1]
}

/// The generated pairs of digit indices are two increasing digit indices.
proof fn lemma_digit_pairs(p: Seq<usize>)
    requires
        combos(digit_indices(), 2, 0, Seq::empty()).contains(p),
    ensures
        p.len() == 2,
        p[0] < p[1] < 9,
{
    lemma_combos_picks(digit_indices(), 2, 0, Seq::empty());
    assert(picks(digit_indices(), 2, 0, Seq::empty(), p));
    let idx = choose|idx: Seq<int>|
        #![trigger idx.len()]
        idx.len() == 2 - 0 && (forall|j: int| 0 <= j < idx.len() ==> 0 <= #[trigger] idx[j] < 9)
            && (forall|j1: int, j2: int| 0 <= j1 < j2 < idx.len() ==> #[trigger] idx[j1] < #[trigger] idx[j2])
            && (forall|j: int| 0 <= j < idx.len() ==> p[0 + j] == digit_indices()[#[trigger] idx[j]]);
    assert(p[0] == digit_indices()[idx[0]]);
    assert(p[1] == digit_indices()[idx[1]]);
    assert(idx[0] < idx[1]);
}

/// Keeps, in the two cells of each hidden pair of unit `index` of kind `mode`, only the
/// pair's two candidates; tells whether any candidate was removed.
fn hidden_doubles_in_unit(board: &mut Board, index: usize, mode: UnitMode, indices: &Vec<usize>) -> (change: bool)
    requires
        index < 9,
        indices@ == digit_indices(),
    ensures
        hidden_doubles_unit(*old(board), mode, index as int, *final(board)),
        change == (*final(board) != *old(board)),
{
    let ghost b0 = *board;
    let mut candidate_set = unit_candidate_masks(board, index, mode);
    let ghost entries = candidate_set@;
    proof {
        lemma_candidate_entries(unit_cells(b0, mode, index as int), 9);
        lemma_unit_geometry(mode, index as int);
    }
    let mut positions: [BitMask; 9] = [[false; 9]; 9];
    let mut t: usize = 0;
    while t < candidate_set.len()
        invariant
            t <= candidate_set@.len(),
            candidate_set@ == entries,
            forall|t1: int| 0 <= t1 < entries.len() ==> (#[trigger] entries[t1]).0 < 9,
            forall|v: int, k: int|
                in9(v) && in9(k) ==> #[trigger] positions[v][k] == exists|u: int|
                    0 <= u < t && (#[trigger] entries[u]).0 == k && entries[u].1[v],
        decreases candidate_set@.len() - t,
    {
        let (idx, mask) = candidate_set[t];
        let mut value: usize = 0;
        while value < 9
            invariant
                value <= 9,
                t < entries.len(),
                (idx, mask) == entries[t as int],
                idx < 9,
                forall|v: int, k: int|
                    in9(v) && in9(k) ==> #[trigger] positions[v][k] == ((exists|u: int|
                        0 <= u < t && (#[trigger] entries[u]).0 == k && entries[u].1[v]) || (v < value && k == idx && mask[v])),
            decreases 9 - value,
        {
            if mask[value] {
                positions[value][idx] = true;
            }
            value = value + 1;
        }
        proof {
            assert forall|v: int, k: int| in9(v) && in9(k) implies #[trigger] positions[v][k] == exists|u: int|
                0 <= u < t + 1 && (#[trigger] entries[u]).0 == k && entries[u].1[v] by {
                if k == idx && mask[v] {
                    assert(entries[t as int].0 == k && entries[t as int].1[v]);
                }
                if exists|u: int| 0 <= u < t + 1 && (#[trigger] entries[u]).0 == k && entries[u].1[v] {
                    let u = choose|u: int| 0 <= u < t + 1 && (#[trigger] entries[u]).0 == k && entries[u].1[v];
                    if u < t {
                    } else {
                        assert(u == t);
                    }
                }
            }
        }
        t = t + 1;
    }
    proof {
        assert forall|v: int, k: int| in9(v) && in9(k) implies #[trigger] positions[v][k] == holds_at(b0, mode, index as int, k, v) by {
            if holds_at(b0, mode, index as int, k, v) {
                let u = choose|u: int| 0 <= u < entries.len() && #[trigger] entries[u].0 == k;
                assert(unit_cells(b0, mode, index as int)[k] == Cell::Candidates(entries[u].1));
            }
            if positions[v][k] {
                let u = choose|u: int| 0 <= u < entries.len() && (#[trigger] entries[u]).0 == k && entries[u].1[v];
                assert(unit_cells(b0, mode, index as int)[entries[u].0 as int] == Cell::Candidates(entries[u].1));
            }
        }
    }
    let mut subset: Vec<usize> = Vec::new();
    let mut permutations: Vec<Vec<usize>> = Vec::new();
    iterate_for_subsets(indices, 2, 0, &mut subset, &mut permutations);
    let ghost perms = combos(digit_indices(), 2, 0, Seq::empty());
    assert(subset@ =~= Seq::<usize>::empty());
    let mut q: usize = 0;
    while q < permutations.len()
        invariant
            q <= permutations@.len(),
            permutations@.len() == perms.len(),
            forall|u: int| 0 <= u < perms.len() ==> (#[trigger] permutations@[u])@ == perms[u],
            perms == combos(digit_indices(), 2, 0, Seq::empty()),
            candidate_set@.len() == entries.len(),
            forall|t1: int| 0 <= t1 < entries.len() ==> (#[trigger] entries[t1]).0 < 9,
            forall|v: int, k: int| in9(v) && in9(k) ==> #[trigger] positions[v][k] == holds_at(b0, mode, index as int, k, v),
            forall|u: int|
                0 <= u < entries.len() ==> (#[trigger] candidate_set@[u]).0 == entries[u].0 && forall|d: int|
                    in9(d) ==> #[trigger] candidate_set@[u].1[d] == (entries[u].1[d] && !hidden_applied(
                        b0,
                        mode,
                        index as int,
                        perms,
                        q as int,
                        entries[u].0 as int,
                        d,
                    )),
        decreases permutations@.len() - q,
    {
        let p = &permutations[q];
        proof {
            assert(perms.contains(perms[q as int]));
            lemma_digit_pairs(perms[q as int]);
        }
        let ghost pv = p@;
        let mut union: BitMask = [false; 9];
        let mut candidate = true;
        let mut i: usize = 0;
        while i < p.len()
            invariant
                i <= 2,
                pv.len() == 2,
                p@ == pv,
                pv[0] < pv[1] < 9,
                forall|v: int, k: int| in9(v) && in9(k) ==> #[trigger] positions[v][k] == holds_at(b0, mode, index as int, k, v),
                forall|k: int|
                    in9(k) ==> #[trigger] union[k] == ((i > 0 && holds_at(b0, mode, index as int, k, pv[0] as int)) || (i > 1
                        && holds_at(b0, mode, index as int, k, pv[1] as int))),
                candidate == ((i <= 0 || count_pred(holders(b0, mode, index as int, pv[0] as int), 9) >= 2) && (i <= 1
                    || count_pred(holders(b0, mode, index as int, pv[1] as int), 9) >= 2)),
            decreases 2 - i,
        {
            let idx = p[i];
            let n = positions[idx].bits_set();
            proof {
                lemma_count_congruent(mask_pred(positions[idx as int]), holders(b0, mode, index as int, idx as int), 9);
            }
            if n < 2 {
                candidate = false;
            }
            union.or(&positions[idx]);
            i = i + 1;
        }
        let ub = union.bits_set();
        proof {
            lemma_count_congruent(mask_pred(union), pair_holders(b0, mode, index as int, pv[0] as int, pv[1] as int), 9);
        }
        let ghost before_set = candidate_set@;
        if candidate && ub == 2 {
            let mut t: usize = 0;
            while t < candidate_set.len()
                invariant
                    t <= candidate_set@.len(),
                    candidate_set@.len() == before_set.len(),
                    p@ == pv,
                    pv.len() == 2,
                    forall|u: int|
                        0 <= u < before_set.len() ==> (#[trigger] candidate_set@[u]).0 == before_set[u].0 && forall|d: int|
                            in9(d) ==> #[trigger] candidate_set@[u].1[d] == (before_set[u].1[d] && !(u < t && union[before_set[u].0 as int]
                                && d != pv[0] && d != pv[1])),
                    forall|t1: int| 0 <= t1 < before_set.len() ==> (#[trigger] before_set[t1]).0 < 9,
                decreases candidate_set@.len() - t,
            {
                let (idx, mask) = candidate_set[t];
                if union[idx] {
                    let mut m2 = mask;
                    let mut value: usize = 0;
                    while value < 9
                        invariant
                            value <= 9,
                            p@ == pv,
                            pv.len() == 2,
                            forall|d: int| in9(d) ==> #[trigger] m2[d] == (mask[d] && !(d < value && d != pv[0] && d != pv[1])),
                        decreases 9 - value,
                    {
                        if !vec_contains(p, value) {
                            m2[value] = false;
                        }
                        proof {
                            assert(pv.contains(value) == (value == pv[0] || value == pv[1])) by {
                                if pv.contains(value) {
                                    let j = choose|j: int| 0 <= j < pv.len() && pv[j] == value;
                                    assert(j == 0 || j == 1);
                                }
                                if value == pv[0] {
                                    assert(pv[0] == value);
                                }
                                if value == pv[1] {
                                    assert(pv[1] == value);
                                }
                            }
                        }
                        value = value + 1;
                    }
                    candidate_set.set(t, (idx, m2));
                }
                t = t + 1;
            }
        }
        proof {
            assert forall|u: int| 0 <= u < entries.len() implies (#[trigger] candidate_set@[u]).0 == entries[u].0 && forall|
                d: int,
            | in9(d) ==> #[trigger] candidate_set@[u].1[d] == (entries[u].1[d] && !hidden_applied(
                b0,
                mode,
                index as int,
                perms,
                q as int + 1,
                entries[u].0 as int,
                d,
            )) by {
                let k = entries[u].0 as int;
                assert forall|d: int| in9(d) implies #[trigger] candidate_set@[u].1[d] == (entries[u].1[d] && !hidden_applied(
                    b0,
                    mode,
                    index as int,
                    perms,
                    q as int + 1,
                    k,
                    d,
                )) by {
                    let here = hidden_pair(b0, mode, index as int, perms[q as int]) && pair_holders(
                        b0,
                        mode,
                        index as int,
                        perms[q as int][0] as int,
                        perms[q as int][1] as int,
                    )(k) && d != perms[q as int][0] && d != perms[q as int][1];
                    assert(hidden_applied(b0, mode, index as int, perms, q as int + 1, k, d) == (hidden_applied(
                        b0,
                        mode,
                        index as int,
                        perms,
                        q as int,
                        k,
                        d,
                    ) || here)) by {
                        if hidden_applied(b0, mode, index as int, perms, q as int + 1, k, d) && !here {
                            let w = choose|w: int|
                                0 <= w < q + 1 && hidden_pair(b0, mode, index as int, #[trigger] perms[w]) && pair_holders(
                                    b0,
                                    mode,
                                    index as int,
                                    perms[w][0] as int,
                                    perms[w][1] as int,
                                )(k) && d != perms[w][0] && d != perms[w][1];
                            assert(w != q);
                        }
                        if hidden_applied(b0, mode, index as int, perms, q as int, k, d) {
                            let w = choose|w: int|
                                0 <= w < q && hidden_pair(b0, mode, index as int, #[trigger] perms[w]) && pair_holders(
                                    b0,
                                    mode,
                                    index as int,
                                    perms[w][0] as int,
                                    perms[w][1] as int,
                                )(k) && d != perms[w][0] && d != perms[w][1];
                            assert(hidden_applied(b0, mode, index as int, perms, q as int + 1, k, d));
                        }
                    }
                    if candidate && ub == 2 {
                        assert(union[k] == pair_holders(b0, mode, index as int, pv[0] as int, pv[1] as int)(k));
                    }
                }
            }
        }
        q = q + 1;
    }
    proof {
        assert forall|t1: int, t2: int| 0 <= t1 < t2 < candidate_set@.len() implies (#[trigger] candidate_set@[t1]).0
            < (#[trigger] candidate_set@[t2]).0 by {
            assert(entries[t1].0 < entries[t2].0);
        }
        assert forall|u: int| 0 <= u < candidate_set@.len() implies (#[trigger] candidate_set@[u]).0 < 9
            && b0[unit_row(mode, index as int, candidate_set@[u].0 as int)][unit_col(mode, index as int, candidate_set@[u].0 as int)] is Candidates by {
            assert(unit_cells(b0, mode, index as int)[entries[u].0 as int] == Cell::Candidates(entries[u].1));
        }
        lemma_write_masks_distinct(b0, mode, index as int, candidate_set@);
    }
    let changed = set_unit_candidate_masks(board, index, &candidate_set, mode);
    proof {
        let w = *board;
        let cs = candidate_set@;
        assert forall|k: int, d: int| in9(k) && in9(d) implies #[trigger] hidden_applied(b0, mode, index as int, perms, perms.len() as int, k, d)
            == hidden_pair_clears(b0, mode, index as int, k, d) by {
            if hidden_applied(b0, mode, index as int, perms, perms.len() as int, k, d) {
                let w = choose|w: int|
                    0 <= w < perms.len() && hidden_pair(b0, mode, index as int, #[trigger] perms[w]) && pair_holders(
                        b0,
                        mode,
                        index as int,
                        perms[w][0] as int,
                        perms[w][1] as int,
                    )(k) && d != perms[w][0] && d != perms[w][1];
                assert(perms.contains(perms[w]));
            }
            if hidden_pair_clears(b0, mode, index as int, k, d) {
                let p = choose|p: Seq<usize>|
                    #[trigger] combos(digit_indices(), 2, 0, Seq::empty()).contains(p) && hidden_pair(b0, mode, index as int, p)
                        && pair_holders(b0, mode, index as int, p[0] as int, p[1] as int)(k) && d != p[0] && d != p[1];
                let w = choose|w: int| 0 <= w < perms.len() && perms[w] == p;
                assert(hidden_pair(b0, mode, index as int, perms[w]));
            }
        }
        assert forall|r: int, c: int| in9(r) && in9(c) implies if unit_of(mode, r, c) == index && b0[r][c] is Candidates {
            (#[trigger] w[r][c]) is Candidates && forall|d: int|
                in9(d) ==> #[trigger] w[r][c]->Candidates_0[d] == (b0[r][c]->Candidates_0[d] && !hidden_pair_clears(
                    b0,
                    mode,
                    index as int,
                    pos_in_unit(mode, r, c),
                    d,
                ))
        } else {
            w[r][c] == b0[r][c]
        } by {
            if unit_of(mode, r, c) == index && b0[r][c] is Candidates {
                let k = pos_in_unit(mode, r, c);
                assert(unit_cells(b0, mode, index as int)[k] == b0[r][c]);
                let u = choose|u: int| 0 <= u < entries.len() && #[trigger] entries[u].0 == k;
                assert(cs[u].0 == k);
                assert(w[unit_row(mode, index as int, cs[u].0 as int)][unit_col(mode, index as int, cs[u].0 as int)]
                    == Cell::Candidates(cs[u].1));
                assert(unit_cells(b0, mode, index as int)[entries[u].0 as int] == Cell::Candidates(entries[u].1));
            } else if unit_of(mode, r, c) == index {
                assert forall|u: int| 0 <= u < cs.len() implies (#[trigger] cs[u]).0 != pos_in_unit(mode, r, c) by {
                    assert(unit_cells(b0, mode, index as int)[entries[u].0 as int] == Cell::Candidates(entries[u].1));
                }
            }
        }
    }
    changed
}

/// Keeps, in the two cells of each hidden pair of every row, then every column, then
/// every box, only the pair's two candidates; tells whether any candidate was removed.
pub fn determine_hidden_doubles(board: &mut Board) -> (change: bool)
    ensures
        *final(board) == hidden_doubles_board(*old(board), 27),
        change == (*final(board) != *old(board)),
        refines(*old(board), *final(board)),
        clears_only(*old(board), *final(board)),
        forall|s: BasicGrid|
            is_solution(s) && consistent(*old(board), s) && settled(*old(board)) ==> consistent(*final(board), s),
{
    let mut change = false;
    let mut indices: Vec<usize> = Vec::new();
    let mut v: usize = 0;
    while v < 9
        invariant
            v <= 9,
            indices@ == digit_indices().subrange(0, v as int),
        decreases 9 - v,
    {
        indices.push(v);
        v = v + 1;
    }
    assert(indices@ =~= digit_indices());
    let mut n: usize = 0;
    while n < 27
        invariant
            n <= 27,
            indices@ == digit_indices(),
            *board == hidden_doubles_board(*old(board), n as nat),
            change == (*board != *old(board)),
            refines(*old(board), *board),
            clears_only(*old(board), *board),
            forall|s: BasicGrid|
                is_solution(s) && consistent(*old(board), s) && settled(*old(board)) ==> consistent(*board, s) && settled(*board),
        decreases 27 - n,
    {
        let mode = if n < 9 {
            UnitMode::Row
        } else if n < 18 {
            UnitMode::Column
        } else {
            UnitMode::Box
        };
        let index = n % 9;
        let ghost before = *board;
        let step = hidden_doubles_in_unit(board, index, mode, &indices);
        if step {
            change = true;
        }
        proof {
            assert(mode == mode_at(n as int));
            lemma_hidden_doubles_unique(before, n as int, *board);
            lemma_hidden_doubles_refines(before, mode, index as int, *board);
            lemma_refines_trans(*old(board), before, *board);
            crate::rules::lemma_clears_only_trans(*old(board), before, *board);
            if step {
                lemma_refines_strict(*old(board), before, *board);
            }
            assert forall|s: BasicGrid| is_solution(s) && consistent(*old(board), s) && settled(*old(board)) implies consistent(
                *board,
                s,
            ) && settled(*board) by {
                lemma_hidden_doubles_sound(before, mode, index as int, *board, s);
            }
        }
        n = n + 1;
    }
    change
}

proof fn lemma_hidden_doubles_unique(b: Board, n: int, x: Board)
    requires
        0 <= n < 27,
        hidden_doubles_unit(b, mode_at(n), n % 9, x),
    ensures
        hidden_doubles_step(b, n) == x,
{
    let mode = mode_at(n);
    let index = n % 9;
    let y = hidden_doubles_step(b, n);
    assert(hidden_doubles_unit(b, mode, index, y));
    assert forall|r: int, c: int| in9(r) && in9(c) implies #[trigger] y[r][c] == x[r][c] by {
        if unit_of(mode, r, c) == index && b[r][c] is Candidates {
            assert forall|d: int| in9(d) implies #[trigger] y[r][c]->Candidates_0[d] == x[r][c]->Candidates_0[d] by {}
            lemma_mask_ext(y[r][c]->Candidates_0, x[r][c]->Candidates_0);
        }
    }
    lemma_board_ext(y, x);
}

/// The hidden-pairs pass on a unit only removes candidates.
pub proof fn lemma_hidden_doubles_refines(b: Board, mode: UnitMode, index: int, x: Board)
    requires
        hidden_doubles_unit(b, mode, index, x),
    ensures
        refines(b, x),
        clears_only(b, x),
{
    assert(clears_only(b, x));
    assert forall|r: int, c: int| in9(r) && in9(c) implies cell_refines(#[trigger] b[r][c], x[r][c]) by {}
}

/// On a settled board, the hidden-pairs pass on a unit never removes the digit that a
/// solution consistent with the board puts in a cell, and leaves the board settled.
pub proof fn lemma_hidden_doubles_sound(b: Board, mode: UnitMode, index: int, x: Board, s: BasicGrid)
    requires
        in9(index),
        hidden_doubles_unit(b, mode, index, x),
        is_solution(s),
        consistent(b, s),
        settled(b),
    ensures
        consistent(x, s),
        settled(x),
{
    let cells = unit_cells(b, mode, index);
    lemma_unit_geometry(mode, index);
    assert forall|r: int, c: int| in9(r) && in9(c) implies allows(#[trigger] x[r][c], s[r][c]) by {
        assert(allows(b[r][c], s[r][c]));
        if unit_of(mode, r, c) == index && b[r][c] is Candidates {
            let k = pos_in_unit(mode, r, c);
            let d = s[r][c] - 1;
            if hidden_pair_clears(b, mode, index, k, d) {
                let p = choose|p: Seq<usize>|
                    #[trigger] combos(digit_indices(), 2, 0, Seq::empty()).contains(p) && hidden_pair(b, mode, index, p)
                        && pair_holders(b, mode, index, p[0] as int, p[1] as int)(k) && d != p[0] && d != p[1];
                lemma_digit_pairs(p);
                let a = p[0] as int;
                let bb = p[1] as int;
                let ka = lemma_digit_held(b, mode, index, s, a);
                let kb = lemma_digit_held(b, mode, index, s, bb);
                assert(ka != kb);
                lemma_count_pair(pair_holders(b, mode, index, a, bb), ka, kb, 9);
                assert(pair_holders(b, mode, index, a, bb)(k));
                assert(k == ka || k == kb);
                assert(false);
            }
        }
    }
    assert forall|r: int, c: int, r2: int, c2: int|
        in9(r) && in9(c) && in9(r2) && in9(c2) && #[trigger] crate::helpers::sees(r, c, r2, c2) && x[r][c] is Candidates
            && x[r2][c2] is Value && 1 <= x[r2][c2]->Value_0 <= 9 implies !x[r][c]->Candidates_0[x[r2][c2]->Value_0 - 1] by {
        assert(b[r2][c2] == x[r2][c2]);
        assert(b[r][c] is Candidates);
    }
}

/// On a settled board consistent with a solution, a digit held by two candidate cells
/// of a unit sits, in the solution, in a candidate cell of the unit that holds it.
proof fn lemma_digit_held(b: Board, mode: UnitMode, index: int, s: BasicGrid, v: int) -> (k: int)
    requires
        in9(index),
        in9(v),
        is_solution(s),
        consistent(b, s),
        settled(b),
        count_pred(holders(b, mode, index, v), 9) >= 2,
    ensures
        in9(k),
        holds_at(b, mode, index, k, v),
        s[unit_row(mode, index, k)][unit_col(mode, index, k)] == v + 1,
{
    lemma_unit_geometry(mode, index);
    assert(unit_holds(s, mode, index, v + 1));
    let k = choose|k: int| in9(k) && s[unit_row(mode, index, k)][unit_col(mode, index, k)] == v + 1;
    let r = unit_row(mode, index, k);
    let c = unit_col(mode, index, k);
    assert(allows(b[r][c], s[r][c]));
    if b[r][c] is Value {
        crate::types::lemma_count_zero(holders(b, mode, index, v), 9);
        let j = choose|j: int| 0 <= j < 9 && #[trigger] holders(b, mode, index, v)(j);
        let rj = unit_row(mode, index, j);
        let cj = unit_col(mode, index, j);
        assert(holds_at(b, mode, index, j, v));
        assert(j != k);
        lemma_unit_sees(mode, index, j, k);
        assert(b[rj][cj] is Candidates);
        assert(false);
    }
    k
}

} // verus!
