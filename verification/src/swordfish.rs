use vstd::prelude::*;

use crate::candidates::{clear_cell, lemma_mask_without_keeps};
use crate::helpers::{
    in9, lemma_board_ext, lemma_candidate_entries, lemma_mask_ext, lemma_unit_geometry, masks_equal, pos_in_unit, sees,
    unit_candidate_masks, unit_cells, unit_col, unit_entries, unit_of, unit_position, unit_row, vec_contains, UnitMode,
};
use crate::pairs::{digit_indices, holds_at};
use crate::rules::{agree_on_digit, keep_board, lemma_keep_board, same_candidate_cells, clears_only, 
    allows, cell_refines, cell_without, consistent, is_solution, lemma_mask_without, lemma_refines_strict, lemma_refines_trans,
    refines, settled, unit_holds,
};
use crate::subsets::{combos, combos_from, iterate_for_subsets, lemma_combos_picks, picks};
use crate::types::{count_pred, lemma_count_congruent, lemma_count_sub, lemma_count_distinct, mask_pred, BasicGrid, BitMask, BitMaskExt, Board, Cell};

verus! {

/// Some line of `p` (rows or columns, by `mode`) has a candidate cell at position `k`
/// that holds the candidate `v`.
pub open spec fn fish_union(b: Board, mode: UnitMode, p: Seq<usize>, v: int, k: int) -> bool {
    exists|i: int| 0 <= i < p.len() && #[trigger] holds_at(b, mode, p[i] as int, k, v)
}

/// Every line of `p` has a candidate cell at position `k` that holds the candidate `v`.
pub open spec fn fish_intersect(b: Board, mode: UnitMode, p: Seq<usize>, v: int, k: int) -> bool {
    forall|i: int| 0 <= i < p.len() ==> #[trigger] holds_at(b, mode, p[i] as int, k, v)
}

/// The positions of `fish_union`.
pub open spec fn fish_union_pred(b: Board, mode: UnitMode, p: Seq<usize>, v: int) -> spec_fn(int) -> bool {
    |k: int| fish_union(b, mode, p, v, k)
}

/// In each of the lines of `p`, the candidate `v` is held at the same positions, and
/// there are as many of those positions as lines.
pub open spec fn is_fish(b: Board, mode: UnitMode, p: Seq<usize>, v: int) -> bool {
    &&& forall|k: int| in9(k) ==> #[trigger] fish_union(b, mode, p, v, k) == fish_intersect(b, mode, p, v, k)
    &&& count_pred(fish_union_pred(b, mode, p, v), 9) == p.len()
}

/// The fish of the lines `p` for the candidate `v` clears it from the cell at (`r`,
/// `c`): a cell of another line at one of the fish's positions.
pub open spec fn fish_clears(b: Board, mode: UnitMode, p: Seq<usize>, r: int, c: int, v: int) -> bool {
    is_fish(b, mode, p, v) && !p.contains(unit_of(mode, r, c) as usize) && fish_union(b, mode, p, v, pos_in_unit(mode, r, c))
}

/// `new` is `old` after every fish of the lines `p` removed its candidate from the other
/// lines' cells at the fish's positions.
pub open spec fn fish_rel(old: Board, mode: UnitMode, p: Seq<usize>, new: Board) -> bool {
    forall|r: int, c: int|
        in9(r) && in9(c) ==> if old[r][c] is Candidates {
            (#[trigger] new[r][c]) is Candidates && forall|d: int|
                in9(d) ==> #[trigger] new[r][c]->Candidates_0[d] == (old[r][c]->Candidates_0[d] && !fish_clears(old, mode, p, r, c, d))
        } else {
            new[r][c] == old[r][c]
        }
}

/// The fish pass on the lines `p`.
pub open spec fn fish_step(b: Board, mode: UnitMode, p: Seq<usize>) -> Board {
    choose|x: Board| #[trigger] fish_rel(b, mode, p, x)
}

/// The line sets of `size` lines, in generation order.
pub open spec fn fish_lines(size: nat) -> Seq<Seq<usize>> {
    combos(digit_indices(), size, 0, Seq::empty())
}

/// The fish passes on the first `q` line sets of `size` lines of kind `mode`.
pub open spec fn fish_run(b: Board, mode: UnitMode, size: nat, q: nat) -> Board
    decreases q,
{
    if q == 0 {
        b
    } else {
        fish_step(fish_run(b, mode, size, (q - 1) as nat), mode, fish_lines(size)[q - 1])
    }
}

/// The fish passes on all sets of `size` rows, then on all sets of `size` columns.
pub open spec fn fish_round(b: Board, size: nat) -> Board {
    fish_run(fish_run(b, UnitMode::Row, size, fish_lines(size).len()), UnitMode::Column, size, fish_lines(size).len())
}

/// The fish rounds for two lines up to `size - 1` lines, in that order.
pub open spec fn fish_rounds(b: Board, size: nat) -> Board
    decreases size,
{
    if size <= 2 {
        b
    } else {
        fish_round(fish_rounds(b, (size - 1) as nat), (size - 1) as nat)
    }
}

/// The fish rounds for two, then three, then four lines.
pub open spec fn swordfish_spec(b: Board) -> Board {
    fish_rounds(b, 5)
}

/// The generated line sets are `size` increasing line indices.
proof fn lemma_fish_lines(p: Seq<usize>, size: nat)
    requires
        fish_lines(size).contains(p),
    ensures
        p.len() == size,
        forall|i: int| 0 <= i < p.len() ==> #[trigger] p[i] < 9,
        forall|i: int, j: int| 0 <= i < j < p.len() ==> #[trigger] p[i] < #[trigger] p[j],
{
    lemma_combos_picks(digit_indices(), size, 0, Seq::empty());
    assert(picks(digit_indices(), size, 0, Seq::empty(), p));
    let idx = choose|idx: Seq<int>|
        #![trigger idx.len()]
        idx.len() == size - 0 && (forall|j: int| 0 <= j < idx.len() ==> 0 <= #[trigger] idx[j] < 9)
            && (forall|j1: int, j2: int| 0 <= j1 < j2 < idx.len() ==> #[trigger] idx[j1] < #[trigger] idx[j2])
            && (forall|j: int| 0 <= j < idx.len() ==> p[0 + j] == digit_indices()[#[trigger] idx[j]]);
    assert forall|i: int| 0 <= i < p.len() implies #[trigger] p[i] < 9 by {
        assert(p[0 + i] == digit_indices()[idx[i]]);
    }
    assert forall|i: int, j: int| 0 <= i < j < p.len() implies #[trigger] p[i] < #[trigger] p[j] by {
        assert(p[0 + i] == digit_indices()[idx[i]]);
        assert(p[0 + j] == digit_indices()[idx[j]]);
        assert(idx[i] < idx[j]);
    }
}

/// Some entry of `entries` is at position `k` and holds the candidate `v`.
pub open spec fn line_has(entries: Seq<(usize, BitMask)>, k: int, v: int) -> bool {
    exists|t: int| 0 <= t < entries.len() && #[trigger] entries[t].0 == k && entries[t].1[v]
}

/// The positions of the entries of every line in `masks` that hold the candidate
/// `value`: those that some line has, and those that every line has.
fn generate_union_intersect(masks: &Vec<Vec<(usize, [bool; 9])>>, value: usize) -> (ui: (BitMask, BitMask))
    requires
        value < 9,
        forall|i: int, t: int| 0 <= i < masks@.len() && 0 <= t < masks@[i]@.len() ==> (#[trigger] masks@[i]@[t]).0 < 9,
    ensures
        forall|k: int|
            in9(k) ==> #[trigger] ui.0[k] == exists|i: int| 0 <= i < masks@.len() && #[trigger] line_has(masks@[i]@, k, value as int),
        forall|k: int|
            in9(k) ==> #[trigger] ui.1[k] == forall|i: int| 0 <= i < masks@.len() ==> #[trigger] line_has(masks@[i]@, k, value as int),
{
    let mut union: BitMask = [false; 9];
    let mut intersect: BitMask = [true; 9];
    let mut i: usize = 0;
    while i < masks.len()
        invariant
            i <= masks@.len(),
            value < 9,
            forall|i2: int, t: int| 0 <= i2 < masks@.len() && 0 <= t < masks@[i2]@.len() ==> (#[trigger] masks@[i2]@[t]).0 < 9,
            forall|k: int|
                in9(k) ==> #[trigger] union[k] == exists|i2: int| 0 <= i2 < i && #[trigger] line_has(masks@[i2]@, k, value as int),
            forall|k: int|
                in9(k) ==> #[trigger] intersect[k] == forall|i2: int| 0 <= i2 < i ==> #[trigger] line_has(masks@[i2]@, k, value as int),
        decreases masks@.len() - i,
    {
        let mask_set = &masks[i];
        let mut seen: BitMask = [false; 9];
        let mut t: usize = 0;
        while t < mask_set.len()
            invariant
                t <= mask_set@.len(),
                i < masks@.len(),
                mask_set@ == masks@[i as int]@,
                value < 9,
                forall|t2: int| 0 <= t2 < mask_set@.len() ==> (#[trigger] mask_set@[t2]).0 < 9,
                forall|k: int|
                    in9(k) ==> #[trigger] seen[k] == line_has(mask_set@.subrange(0, t as int), k, value as int),
            decreases mask_set@.len() - t,
        {
            let (index, mask) = mask_set[t];
            if mask[value] {
                seen[index] = true;
            }
            proof {
                let pre = mask_set@.subrange(0, t as int);
                let nxt = mask_set@.subrange(0, t as int + 1);
                assert forall|k: int| in9(k) implies #[trigger] seen[k] == line_has(nxt, k, value as int) by {
                    if line_has(nxt, k, value as int) {
                        let t2 = choose|t2: int| 0 <= t2 < nxt.len() && #[trigger] nxt[t2].0 == k && nxt[t2].1[value as int];
                        if t2 < t {
                            assert(pre[t2] == nxt[t2]);
                        }
                    }
                    if line_has(pre, k, value as int) {
                        let t2 = choose|t2: int| 0 <= t2 < pre.len() && #[trigger] pre[t2].0 == k && pre[t2].1[value as int];
                        assert(nxt[t2] == pre[t2]);
                    }
                    if k == index && mask[value as int] {
                        assert(nxt[t as int].0 == k);
                    }
                }
            }
            t = t + 1;
        }
        assert(mask_set@.subrange(0, mask_set@.len() as int) =~= mask_set@);
        union.or(&seen);
        intersect.and(&seen);
        proof {
            assert forall|k: int| in9(k) implies #[trigger] union[k] == exists|i2: int|
                0 <= i2 < i + 1 && #[trigger] line_has(masks@[i2]@, k, value as int) by {
                if exists|i2: int| 0 <= i2 < i + 1 && #[trigger] line_has(masks@[i2]@, k, value as int) {
                    let i2 = choose|i2: int| 0 <= i2 < i + 1 && #[trigger] line_has(masks@[i2]@, k, value as int);
                    if i2 == i {
                    }
                }
                if seen[k] {
                    assert(line_has(masks@[i as int]@, k, value as int));
                }
            }
            assert forall|k: int| in9(k) implies #[trigger] intersect[k] == forall|i2: int|
                0 <= i2 < i + 1 ==> #[trigger] line_has(masks@[i2]@, k, value as int) by {
                if forall|i2: int| 0 <= i2 < i + 1 ==> #[trigger] line_has(masks@[i2]@, k, value as int) {
                    assert(line_has(masks@[i as int]@, k, value as int));
                }
            }
        }
        i = i + 1;
    }
    (union, intersect)
}

/// Removes, for every candidate whose positions are the same in each of the lines `p`
/// and as many as the lines, that candidate from the other lines' cells at those
/// positions; tells whether any candidate was removed.
fn fish_in_lines(board: &mut Board, mode: UnitMode, p: &Vec<usize>, k: usize) -> (change: bool)
    requires
        mode != UnitMode::Box,
        p@.len() == k,
        forall|i: int| 0 <= i < p@.len() ==> #[trigger] p@[i] < 9,
    ensures
        fish_rel(*old(board), mode, p@, *final(board)),
        change == (*final(board) != *old(board)),
{
    let ghost b0 = *board;
    let mut masks: Vec<Vec<(usize, BitMask)>> = Vec::new();
    let mut i: usize = 0;
    while i < p.len()
        invariant
            i <= p@.len(),
            *board == b0,
            forall|i2: int| 0 <= i2 < p@.len() ==> #[trigger] p@[i2] < 9,
            masks@.len() == i,
            forall|i2: int| 0 <= i2 < i ==> (#[trigger] masks@[i2])@ == unit_entries(b0, mode, p@[i2] as int),
        decreases p@.len() - i,
    {
        masks.push(unit_candidate_masks(board, p[i], mode));
        i = i + 1;
    }
    proof {
        assert forall|i2: int, t: int| 0 <= i2 < masks@.len() && 0 <= t < masks@[i2]@.len() implies (#[trigger] masks@[i2]@[t]).0 < 9 by {
            lemma_candidate_entries(unit_cells(b0, mode, p@[i2] as int), 9);
        }
    }
    let mut change = false;
    let mut value: usize = 0;
    while value < 9
        invariant
            value <= 9,
            mode != UnitMode::Box,
            p@.len() == k,
            forall|i2: int| 0 <= i2 < p@.len() ==> #[trigger] p@[i2] < 9,
            masks@.len() == p@.len(),
            forall|i2: int| 0 <= i2 < p@.len() ==> (#[trigger] masks@[i2])@ == unit_entries(b0, mode, p@[i2] as int),
            forall|i2: int, t: int| 0 <= i2 < masks@.len() && 0 <= t < masks@[i2]@.len() ==> (#[trigger] masks@[i2]@[t]).0 < 9,
            b0 == *old(board),
            forall|r: int, c: int|
                in9(r) && in9(c) ==> if b0[r][c] is Candidates {
                    (#[trigger] board[r][c]) is Candidates && forall|d: int|
                        in9(d) ==> #[trigger] board[r][c]->Candidates_0[d] == (b0[r][c]->Candidates_0[d] && !(d < value
                            && fish_clears(b0, mode, p@, r, c, d)))
                } else {
                    board[r][c] == b0[r][c]
                },
            change == (*board != b0),
        decreases 9 - value,
    {
        let (union, intersect) = generate_union_intersect(&masks, value);
        proof {
            lemma_union_intersect(b0, mode, p@, masks@, value as int, union, intersect);
        }
        let ub = union.bits_set();
        proof {
            lemma_count_congruent(mask_pred(union), fish_union_pred(b0, mode, p@, value as int), 9);
        }
        let fish = masks_equal(&union, &intersect) && ub == k;
        proof {
            assert(fish == is_fish(b0, mode, p@, value as int)) by {
                if fish {
                    assert forall|q: int| in9(q) implies #[trigger] fish_union(b0, mode, p@, value as int, q) == fish_intersect(
                        b0,
                        mode,
                        p@,
                        value as int,
                        q,
                    ) by {
                        assert(union[q] == intersect[q]);
                    }
                }
                if is_fish(b0, mode, p@, value as int) {
                    assert forall|q: int| in9(q) implies #[trigger] union[q] == intersect[q] by {
                        assert(fish_union(b0, mode, p@, value as int, q) == fish_intersect(b0, mode, p@, value as int, q));
                    }
                    lemma_mask_ext(union, intersect);
                }
            }
        }
        let ghost before = *board;
        if fish {
            let mut pos: usize = 0;
            while pos < 9
                invariant
                    pos <= 9,
                    value < 9,
                    mode != UnitMode::Box,
                    forall|q: int| in9(q) ==> #[trigger] union[q] == fish_union(b0, mode, p@, value as int, q),
                    forall|r: int, c: int|
                        in9(r) && in9(c) ==> #[trigger] board[r][c] == if union[pos_in_unit(mode, r, c)] && pos_in_unit(mode, r, c) < pos
                            && !p@.contains(unit_of(mode, r, c) as usize) {
                            cell_without(before[r][c], value as int)
                        } else {
                            before[r][c]
                        },
                    change == (*board != b0),
                    refines(b0, before),
                decreases 9 - pos,
            {
                if union[pos] {
                    let mut line: usize = 0;
                    while line < 9
                        invariant
                            line <= 9,
                            pos < 9,
                            value < 9,
                            mode != UnitMode::Box,
                            union[pos as int],
                            forall|r: int, c: int|
                                in9(r) && in9(c) ==> #[trigger] board[r][c] == if union[pos_in_unit(mode, r, c)] && (pos_in_unit(
                                    mode,
                                    r,
                                    c,
                                ) < pos || (pos_in_unit(mode, r, c) == pos && unit_of(mode, r, c) < line)) && !p@.contains(
                                    unit_of(mode, r, c) as usize,
                                ) {
                                    cell_without(before[r][c], value as int)
                                } else {
                                    before[r][c]
                                },
                            change == (*board != b0),
                            refines(b0, before),
                        decreases 9 - line,
                    {
                        if !vec_contains(p, line) {
                            let (r, c) = unit_position(mode, line, pos);
                            let ghost prev = *board;
                            proof {
                                lemma_unit_geometry(mode, line as int);
                                lemma_mask_without_keeps(before[r as int][c as int], value as int);
                            }
                            let hit = clear_cell(board, r, c, value);
                            if hit {
                                change = true;
                                proof {
                                    assert(refines(before, *board)) by {
                                        assert forall|r2: int, c2: int| in9(r2) && in9(c2) implies cell_refines(
                                            #[trigger] before[r2][c2],
                                            board[r2][c2],
                                        ) by {
                                            if before[r2][c2] is Candidates {
                                                lemma_mask_without(before[r2][c2]->Candidates_0, value as int);
                                            }
                                        }
                                    }
                                    assert(board[r as int][c as int] != before[r as int][c as int]);
                                    lemma_refines_strict(b0, before, *board);
                                }
                            } else {
                                proof {
                                    lemma_board_ext(*board, prev);
                                }
                            }
                        }
                        line = line + 1;
                    }
                }
                pos = pos + 1;
            }
        }
        proof {
            assert forall|r: int, c: int| in9(r) && in9(c) implies if b0[r][c] is Candidates {
                (#[trigger] board[r][c]) is Candidates && forall|d: int|
                    in9(d) ==> #[trigger] board[r][c]->Candidates_0[d] == (b0[r][c]->Candidates_0[d] && !(d < value + 1
                        && fish_clears(b0, mode, p@, r, c, d)))
            } else {
                board[r][c] == b0[r][c]
            } by {
                if b0[r][c] is Candidates {
                    lemma_mask_without(before[r][c]->Candidates_0, value as int);
                }
            }
        }
        value = value + 1;
    }
    change
}

/// The union and intersection computed from the lines' entries are `fish_union` and
/// `fish_intersect`.
proof fn lemma_union_intersect(
    b0: Board,
    mode: UnitMode,
    p: Seq<usize>,
    masks: Seq<Vec<(usize, BitMask)>>,
    value: int,
    union: BitMask,
    intersect: BitMask,
)
    requires
        in9(value),
        masks.len() == p.len(),
        forall|i2: int| 0 <= i2 < p.len() ==> #[trigger] p[i2] < 9,
        forall|i2: int| 0 <= i2 < p.len() ==> (#[trigger] masks[i2])@ == unit_entries(b0, mode, p[i2] as int),
        forall|k: int| in9(k) ==> #[trigger] union[k] == exists|i: int| 0 <= i < masks.len() && #[trigger] line_has(masks[i]@, k, value),
        forall|k: int| in9(k) ==> #[trigger] intersect[k] == forall|i: int| 0 <= i < masks.len() ==> #[trigger] line_has(masks[i]@, k, value),
    ensures
        forall|k: int| in9(k) ==> #[trigger] union[k] == fish_union(b0, mode, p, value, k),
        forall|k: int| in9(k) ==> #[trigger] intersect[k] == fish_intersect(b0, mode, p, value, k),
{
    assert forall|i: int, k: int| 0 <= i < p.len() && in9(k) implies #[trigger] line_has(masks[i]@, k, value) == holds_at(
        b0,
        mode,
        p[i] as int,
        k,
        value,
    ) by {
        let cells = unit_cells(b0, mode, p[i] as int);
        lemma_candidate_entries(cells, 9);
        let e = masks[i]@;
        if holds_at(b0, mode, p[i] as int, k, value) {
            let t = choose|t: int| 0 <= t < e.len() && #[trigger] e[t].0 == k;
            assert(cells[e[t].0 as int] == Cell::Candidates(e[t].1));
        }
        if line_has(e, k, value) {
            let t = choose|t: int| 0 <= t < e.len() && #[trigger] e[t].0 == k && e[t].1[value];
            assert(cells[e[t].0 as int] == Cell::Candidates(e[t].1));
        }
    }
    assert forall|k: int| in9(k) implies #[trigger] union[k] == fish_union(b0, mode, p, value, k) by {
        if union[k] {
            let i = choose|i: int| 0 <= i < masks.len() && #[trigger] line_has(masks[i]@, k, value);
            assert(holds_at(b0, mode, p[i] as int, k, value));
        }
        if fish_union(b0, mode, p, value, k) {
            let i = choose|i: int| 0 <= i < p.len() && #[trigger] holds_at(b0, mode, p[i] as int, k, value);
            assert(line_has(masks[i]@, k, value));
        }
    }
    assert forall|k: int| in9(k) implies #[trigger] intersect[k] == fish_intersect(b0, mode, p, value, k) by {
        if intersect[k] {
            assert forall|i: int| 0 <= i < p.len() implies #[trigger] holds_at(b0, mode, p[i] as int, k, value) by {
                assert(line_has(masks[i]@, k, value));
            }
        }
        if fish_intersect(b0, mode, p, value, k) {
            assert forall|i: int| 0 <= i < masks.len() implies #[trigger] line_has(masks[i]@, k, value) by {
                assert(holds_at(b0, mode, p[i] as int, k, value));
            }
        }
    }
}

/// Finds, for two, three and four lines, every set of rows and then every set of
/// columns in which a candidate is held at the same positions in each line, as many
/// as there are lines, and removes that candidate from the other lines' cells at those
/// positions; tells whether any candidate was removed.
pub fn swordfish_elimination(board: &mut Board) -> (change: bool)
    ensures
        *final(board) == swordfish_spec(*old(board)),
        change == (*final(board) != *old(board)),
        refines(*old(board), *final(board)),
        clears_only(*old(board), *final(board)),
        forall|s: BasicGrid|
            is_solution(s) && consistent(*old(board), s) && settled(*old(board)) ==> consistent(*final(board), s),
{
    let mut change = false;
    let mut indices: Vec<usize> = Vec::new();
    let mut v: usize = 0;
    while v < 9
        invariant
            v <= 9,
            indices@ == digit_indices().subrange(0, v as int),
        decreases 9 - v,
    {
        indices.push(v);
        v = v + 1;
    }
    assert(indices@ =~= digit_indices());
    let mut k: usize = 2;
    while k <= 4
        invariant
            2 <= k <= 5,
            indices@ == digit_indices(),
            *board == fish_rounds(*old(board), k as nat),
            change == (*board != *old(board)),
            refines(*old(board), *board),
            clears_only(*old(board), *board),
            forall|s: BasicGrid|
                is_solution(s) && consistent(*old(board), s) && settled(*old(board)) ==> consistent(*board, s) && settled(*board),
        decreases 5 - k,
    {
        let mut subset: Vec<usize> = Vec::new();
        let mut permutations: Vec<Vec<usize>> = Vec::new();
        iterate_for_subsets(&indices, k, 0, &mut subset, &mut permutations);
        let ghost perms = fish_lines(k as nat);
        assert(subset@ =~= Seq::<usize>::empty());
        let ghost start = *board;
        let mut phase: usize = 0;
        while phase < 2
            invariant
                phase <= 2,
                2 <= k <= 4,
                permutations@.len() == perms.len(),
                perms == fish_lines(k as nat),
                forall|u: int| 0 <= u < perms.len() ==> (#[trigger] permutations@[u])@ == perms[u],
                start == fish_rounds(*old(board), k as nat),
                phase == 0 ==> *board == start,
                phase == 1 ==> *board == fish_run(start, UnitMode::Row, k as nat, perms.len()),
                phase == 2 ==> *board == fish_round(start, k as nat),
                change == (*board != *old(board)),
                refines(*old(board), *board),
                clears_only(*old(board), *board),
            clears_only(*old(board), *board),
                forall|s: BasicGrid|
                    is_solution(s) && consistent(*old(board), s) && settled(*old(board)) ==> consistent(*board, s) && settled(
                        *board,
                    ),
            decreases 2 - phase,
        {
            let mode = if phase == 0 {
                UnitMode::Row
            } else {
                UnitMode::Column
            };
            let ghost base = *board;
            let mut q: usize = 0;
            while q < permutations.len()
                invariant
                    q <= permutations@.len(),
                    2 <= k <= 4,
                    mode != UnitMode::Box,
                    permutations@.len() == perms.len(),
                    perms == fish_lines(k as nat),
                    forall|u: int| 0 <= u < perms.len() ==> (#[trigger] permutations@[u])@ == perms[u],
                    *board == fish_run(base, mode, k as nat, q as nat),
                    change == (*board != *old(board)),
                    refines(*old(board), *board),
                    clears_only(*old(board), *board),
                clears_only(*old(board), *board),
            clears_only(*old(board), *board),
                    forall|s: BasicGrid|
                        is_solution(s) && consistent(*old(board), s) && settled(*old(board)) ==> consistent(*board, s)
                            && settled(*board),
                decreases permutations@.len() - q,
            {
                let ghost before = *board;
                let ghost pq = perms[q as int];
                proof {
                    assert(perms.contains(pq));
                    lemma_fish_lines(pq, k as nat);
                }
                let step = fish_in_lines(board, mode, &permutations[q], k);
                if step {
                    change = true;
                }
                proof {
                    lemma_fish_unique(before, mode, pq, *board);
                    lemma_fish_refines(before, mode, pq, *board);
                    lemma_refines_trans(*old(board), before, *board);
            crate::rules::lemma_clears_only_trans(*old(board), before, *board);
                    if step {
                        lemma_refines_strict(*old(board), before, *board);
                    }
                    assert forall|s: BasicGrid| is_solution(s) && consistent(*old(board), s) && settled(*old(board)) implies consistent(
                        *board,
                        s,
                    ) && settled(*board) by {
                        lemma_fish_sound(before, mode, pq, k as nat, *board, s);
                    }
                }
                q = q + 1;
            }
            phase = phase + 1;
        }
        k = k + 1;
    }
    change
}

proof fn lemma_fish_unique(b: Board, mode: UnitMode, p: Seq<usize>, x: Board)
    requires
        fish_rel(b, mode, p, x),
    ensures
        fish_step(b, mode, p) == x,
{
    let y = fish_step(b, mode, p);
    assert(fish_rel(b, mode, p, y));
    assert forall|r: int, c: int| in9(r) && in9(c) implies #[trigger] y[r][c] == x[r][c] by {
        if b[r][c] is Candidates {
            assert forall|d: int| in9(d) implies #[trigger] y[r][c]->Candidates_0[d] == x[r][c]->Candidates_0[d] by {}
            lemma_mask_ext(y[r][c]->Candidates_0, x[r][c]->Candidates_0);
        }
    }
    lemma_board_ext(y, x);
}

/// A fish pass only removes candidates.
pub proof fn lemma_fish_refines(b: Board, mode: UnitMode, p: Seq<usize>, x: Board)
    requires
        fish_rel(b, mode, p, x),
    ensures
        refines(b, x),
        clears_only(b, x),
{
    assert(clears_only(b, x));
    assert forall|r: int, c: int| in9(r) && in9(c) implies cell_refines(#[trigger] b[r][c], x[r][c]) by {}
}

/// On a settled board, a fish pass on two or more different rows or columns never
/// removes the digit that a solution consistent with the board puts in a cell, and
/// leaves the board settled.
pub proof fn lemma_fish_sound(b: Board, mode: UnitMode, p: Seq<usize>, size: nat, x: Board, s: BasicGrid)
    requires
        mode != UnitMode::Box,
        size >= 2,
        p.len() == size,
        forall|i: int| 0 <= i < p.len() ==> #[trigger] p[i] < 9,
        forall|i: int, j: int| 0 <= i < j < p.len() ==> #[trigger] p[i] < #[trigger] p[j],
        fish_rel(b, mode, p, x),
        is_solution(s),
        consistent(b, s),
        settled(b),
    ensures
        consistent(x, s),
        settled(x),
{
    assert forall|r: int, c: int| in9(r) && in9(c) implies allows(#[trigger] x[r][c], s[r][c]) by {
        assert(allows(b[r][c], s[r][c]));
        if b[r][c] is Candidates {
            let d = s[r][c] - 1;
            if fish_clears(b, mode, p, r, c, d) {
                let line = unit_of(mode, r, c);
                let kk = pos_in_unit(mode, r, c);
                lemma_unit_geometry(mode, line);
                let ks = Seq::new(size, |i: int| fish_position(b, mode, p, d, s, i));
                assert forall|i: int| 0 <= i < size implies {
                    &&& in9(#[trigger] ks[i])
                    &&& holds_at(b, mode, p[i] as int, ks[i], d)
                    &&& s[unit_row(mode, p[i] as int, ks[i])][unit_col(mode, p[i] as int, ks[i])] == d + 1
                } by {
                    lemma_fish_position_ok(b, mode, p, d, s, i);
                }
                if !ks.contains(kk) {
                    let xs = ks.push(kk);
                    assert(xs.no_duplicates()) by {
                        assert forall|i1: int, i2: int| 0 <= i1 < xs.len() && 0 <= i2 < xs.len() && i1 != i2 implies xs[i1] != xs[i2] by {
                            if i1 < size && i2 < size {
                                let l1 = p[i1] as int;
                                let l2 = p[i2] as int;
                                assert(l1 != l2) by {
                                    if i1 < i2 {
                                        assert(p[i1] < p[i2]);
                                    } else {
                                        assert(p[i2] < p[i1]);
                                    }
                                }
                                if ks[i1] == ks[i2] {
                                    assert(sees(
                                        unit_row(mode, l1, ks[i1]),
                                        unit_col(mode, l1, ks[i1]),
                                        unit_row(mode, l2, ks[i2]),
                                        unit_col(mode, l2, ks[i2]),
                                    ));
                                }
                            } else if i1 < size {
                                assert(xs[i2] == kk);
                                assert(ks[i1] != kk);
                            } else {
                                assert(xs[i1] == kk);
                                assert(ks[i2] != kk);
                            }
                        }
                    }
                    assert forall|i: int| 0 <= i < xs.len() implies 0 <= #[trigger] xs[i] < 9 && fish_union_pred(b, mode, p, d)(xs[i]) by {
                        if i < size {
                            assert(holds_at(b, mode, p[i] as int, ks[i], d));
                        }
                    }
                    lemma_count_distinct(fish_union_pred(b, mode, p, d), xs, 9);
                    assert(false);
                } else {
                    let i = choose|i: int| 0 <= i < ks.len() && ks[i] == kk;
                    let l = p[i] as int;
                    assert(l != line) by {
                        if l == line {
                            assert(p.contains(line as usize));
                        }
                    }
                    assert(sees(r, c, unit_row(mode, l, kk), unit_col(mode, l, kk)));
                    assert(false);
                }
            }
        }
    }
    assert forall|r: int, c: int, r2: int, c2: int|
        in9(r) && in9(c) && in9(r2) && in9(c2) && #[trigger] sees(r, c, r2, c2) && x[r][c] is Candidates && x[r2][c2] is Value
            && 1 <= x[r2][c2]->Value_0 <= 9 implies !x[r][c]->Candidates_0[x[r2][c2]->Value_0 - 1] by {
        assert(b[r2][c2] == x[r2][c2]);
        assert(b[r][c] is Candidates);
    }
}

/// Where the solution puts the digit `d + 1` in the `i`-th line of `p`.
pub open spec fn fish_position(b: Board, mode: UnitMode, p: Seq<usize>, d: int, s: BasicGrid, i: int) -> int {
    choose|k: int| in9(k) && s[unit_row(mode, p[i] as int, k)][unit_col(mode, p[i] as int, k)] == d + 1
}

/// On a settled board with a fish for the candidate `d`, each fish line holds the
/// digit `d + 1` of a consistent solution in a candidate cell that holds `d`.
proof fn lemma_fish_position_ok(b: Board, mode: UnitMode, p: Seq<usize>, d: int, s: BasicGrid, i: int)
    requires
        mode != UnitMode::Box,
        p.len() >= 2,
        0 <= i < p.len(),
        forall|j: int| 0 <= j < p.len() ==> #[trigger] p[j] < 9,
        in9(d),
        is_fish(b, mode, p, d),
        is_solution(s),
        consistent(b, s),
        settled(b),
    ensures
        in9(fish_position(b, mode, p, d, s, i)),
        holds_at(b, mode, p[i] as int, fish_position(b, mode, p, d, s, i), d),
        s[unit_row(mode, p[i] as int, fish_position(b, mode, p, d, s, i))][unit_col(
            mode,
            p[i] as int,
            fish_position(b, mode, p, d, s, i),
        )] == d + 1,
{
    let l = p[i] as int;
    lemma_unit_geometry(mode, l);
    assert(unit_holds(s, mode, l, d + 1));
    let k = fish_position(b, mode, p, d, s, i);
    let r = unit_row(mode, l, k);
    let c = unit_col(mode, l, k);
    assert(allows(b[r][c], s[r][c]));
    if b[r][c] is Value {
        crate::types::lemma_count_zero(fish_union_pred(b, mode, p, d), 9);
        let k2 = choose|k2: int| 0 <= k2 < 9 && #[trigger] fish_union_pred(b, mode, p, d)(k2);
        assert(fish_union(b, mode, p, d, k2));
        assert(fish_intersect(b, mode, p, d, k2));
        assert(holds_at(b, mode, l, k2, d));
        assert(k2 != k);
        crate::helpers::lemma_unit_sees(mode, l, k2, k);
        assert(unit_cells(b, mode, l)[k2] is Candidates);
        assert(false);
    }
    assert(unit_cells(b, mode, l)[k] == b[r][c]);
}

/// The fish pass on a set of lines has a result.
proof fn lemma_fish_exists(b: Board, mode: UnitMode, p: Seq<usize>)
    ensures
        fish_rel(b, mode, p, fish_step(b, mode, p)),
{
    let keep = |r: int, c: int, d: int| !fish_clears(b, mode, p, r, c, d);
    lemma_keep_board(b, keep);
    assert(fish_rel(b, mode, p, keep_board(b, keep)));
}

/// On two boards with their candidate cells in the same places that agree on the
/// candidate `d`, the lines `p` hold `d` at the same positions, and form a fish for it
/// on both or on neither.
proof fn lemma_fish_agree(x: Board, y: Board, mode: UnitMode, p: Seq<usize>, d: int)
    requires
        in9(d),
        forall|i: int| 0 <= i < p.len() ==> #[trigger] p[i] < 9,
        same_candidate_cells(x, y),
        agree_on_digit(x, y, d),
    ensures
        forall|k: int| in9(k) ==> #[trigger] fish_union(x, mode, p, d, k) == fish_union(y, mode, p, d, k),
        is_fish(x, mode, p, d) == is_fish(y, mode, p, d),
{
    assert forall|index: int, k: int| in9(index) && in9(k) implies #[trigger] holds_at(x, mode, index, k, d) == holds_at(
        y,
        mode,
        index,
        k,
        d,
    ) by {
        lemma_unit_geometry(mode, index);
        assert(in9(unit_row(mode, index, k)));
    }
    assert forall|k: int| in9(k) implies #[trigger] fish_union(x, mode, p, d, k) == fish_union(y, mode, p, d, k) && fish_intersect(
        x,
        mode,
        p,
        d,
        k,
    ) == fish_intersect(y, mode, p, d, k) by {
        assert forall|i: int| 0 <= i < p.len() implies #[trigger] holds_at(x, mode, p[i] as int, k, d) == holds_at(
            y,
            mode,
            p[i] as int,
            k,
            d,
        ) by {
            assert(in9(p[i] as int));
        }
        if fish_union(x, mode, p, d, k) {
            let i = choose|i: int| 0 <= i < p.len() && #[trigger] holds_at(x, mode, p[i] as int, k, d);
            assert(holds_at(y, mode, p[i] as int, k, d));
        }
        if fish_union(y, mode, p, d, k) {
            let i = choose|i: int| 0 <= i < p.len() && #[trigger] holds_at(y, mode, p[i] as int, k, d);
            assert(holds_at(x, mode, p[i] as int, k, d));
        }
        if fish_intersect(x, mode, p, d, k) {
            assert forall|i: int| 0 <= i < p.len() implies #[trigger] holds_at(y, mode, p[i] as int, k, d) by {
                assert(holds_at(x, mode, p[i] as int, k, d));
            }
        }
        if fish_intersect(y, mode, p, d, k) {
            assert forall|i: int| 0 <= i < p.len() implies #[trigger] holds_at(x, mode, p[i] as int, k, d) by {
                assert(holds_at(y, mode, p[i] as int, k, d));
            }
        }
    }
    assert forall|k: int| 0 <= k < 9 implies #[trigger] fish_union_pred(x, mode, p, d)(k) == fish_union_pred(y, mode, p, d)(k) by {
        assert(fish_union(x, mode, p, d, k) == fish_union(y, mode, p, d, k));
    }
    lemma_count_congruent(fish_union_pred(x, mode, p, d), fish_union_pred(y, mode, p, d), 9);
    if is_fish(x, mode, p, d) {
        assert forall|k: int| in9(k) implies #[trigger] fish_union(y, mode, p, d, k) == fish_intersect(y, mode, p, d, k) by {
            assert(fish_union(x, mode, p, d, k) == fish_intersect(x, mode, p, d, k));
        }
    }
    if is_fish(y, mode, p, d) {
        assert forall|k: int| in9(k) implies #[trigger] fish_union(x, mode, p, d, k) == fish_intersect(x, mode, p, d, k) by {
            assert(fish_union(y, mode, p, d, k) == fish_intersect(y, mode, p, d, k));
        }
    }
    assert(is_fish(x, mode, p, d) == is_fish(y, mode, p, d));
}

/// One fish step on lines of the board keeps two boards with their candidate cells in the same places that agree
/// on the candidate `d` so.
proof fn lemma_fish_step_agree(x: Board, y: Board, mode: UnitMode, p: Seq<usize>, d: int)
    requires
        in9(d),
        forall|i: int| 0 <= i < p.len() ==> #[trigger] p[i] < 9,
        same_candidate_cells(x, y),
        agree_on_digit(x, y, d),
    ensures
        same_candidate_cells(fish_step(x, mode, p), fish_step(y, mode, p)),
        agree_on_digit(fish_step(x, mode, p), fish_step(y, mode, p), d),
{
    lemma_fish_exists(x, mode, p);
    lemma_fish_exists(y, mode, p);
    lemma_fish_agree(x, y, mode, p, d);
    let nx = fish_step(x, mode, p);
    let ny = fish_step(y, mode, p);
    assert forall|r: int, c: int| in9(r) && in9(c) implies ((#[trigger] nx[r][c]) is Candidates <==> ny[r][c] is Candidates) by {
        assert(x[r][c] is Candidates <==> y[r][c] is Candidates);
    }
    assert forall|r: int, c: int|
        in9(r) && in9(c) && (#[trigger] nx[r][c]) is Candidates && ny[r][c] is Candidates implies nx[r][c]->Candidates_0[d]
        == ny[r][c]->Candidates_0[d] by {
        assert(x[r][c] is Candidates <==> y[r][c] is Candidates);
        if x[r][c] is Candidates {
            crate::helpers::lemma_cell_unit(mode, r, c);
            assert(in9(pos_in_unit(mode, r, c)));
            assert(fish_clears(x, mode, p, r, c, d) == fish_clears(y, mode, p, r, c, d));
        }
    }
}

/// The fish passes on the first `q` line sets keep two boards with their candidate cells in the same places that
/// agree on the candidate `d` so.
proof fn lemma_fish_run_agree(x: Board, y: Board, mode: UnitMode, size: nat, q: nat, d: int)
    requires
        q <= fish_lines(size).len(),
        in9(d),
        same_candidate_cells(x, y),
        agree_on_digit(x, y, d),
    ensures
        same_candidate_cells(fish_run(x, mode, size, q), fish_run(y, mode, size, q)),
        agree_on_digit(fish_run(x, mode, size, q), fish_run(y, mode, size, q), d),
    decreases q,
{
    if q > 0 {
        lemma_fish_run_agree(x, y, mode, size, (q - 1) as nat, d);
        let p = fish_lines(size)[q - 1];
        assert(fish_lines(size).contains(p));
        lemma_fish_lines(p, size);
        lemma_fish_step_agree(fish_run(x, mode, size, (q - 1) as nat), fish_run(y, mode, size, (q - 1) as nat), mode, p, d);
    }
}

/// The fish rounds up to `size - 1` lines keep two boards with their candidate cells in the same places that agree
/// on the candidate `d` so.
proof fn lemma_fish_rounds_agree(x: Board, y: Board, size: nat, d: int)
    requires
        in9(d),
        same_candidate_cells(x, y),
        agree_on_digit(x, y, d),
    ensures
        same_candidate_cells(fish_rounds(x, size), fish_rounds(y, size)),
        agree_on_digit(fish_rounds(x, size), fish_rounds(y, size), d),
    decreases size,
{
    if size > 2 {
        let k = (size - 1) as nat;
        lemma_fish_rounds_agree(x, y, k, d);
        let x1 = fish_rounds(x, k);
        let y1 = fish_rounds(y, k);
        let len = fish_lines(k).len();
        lemma_fish_run_agree(x1, y1, UnitMode::Row, k, len, d);
        lemma_fish_run_agree(fish_run(x1, UnitMode::Row, k, len), fish_run(y1, UnitMode::Row, k, len), UnitMode::Column, k, len, d);
    }
}

/// Each candidate digit is handled on its own: two boards with their candidate cells in
/// the same places (whatever their other cells hold), whose candidate sets agree on the digit
/// `d`, still do so, and still agree on `d`, after the fish passes.
pub proof fn lemma_fish_digit_independent(a: Board, b: Board, d: int)
    requires
        in9(d),
        same_candidate_cells(a, b),
        agree_on_digit(a, b, d),
    ensures
        same_candidate_cells(swordfish_spec(a), swordfish_spec(b)),
        agree_on_digit(swordfish_spec(a), swordfish_spec(b), d),
{
    lemma_fish_rounds_agree(a, b, 5, d);
}

/// The positions at which line `index` of kind `mode` has a candidate cell holding `v`.
pub open spec fn line_holders(b: Board, mode: UnitMode, index: int, v: int) -> spec_fn(int) -> bool {
    |k: int| holds_at(b, mode, index, k, v)
}

/// The cell at (`r`, `c`) is one that the fish of the lines `p` for `v` in `b` should
/// clear: it is on another line, at one of the fish's positions.
pub open spec fn fish_target(b: Board, mode: UnitMode, p: Seq<usize>, v: int, r: int, c: int) -> bool {
    !p.contains(unit_of(mode, r, c) as usize) && fish_union(b, mode, p, v, pos_in_unit(mode, r, c))
}

/// No candidate cell of `x` that the fish should clear holds `v`.
pub open spec fn fish_done(b: Board, x: Board, mode: UnitMode, p: Seq<usize>, v: int) -> bool {
    forall|r: int, c: int|
        in9(r) && in9(c) && fish_target(b, mode, p, v, r, c) && (#[trigger] x[r][c]) is Candidates ==> !x[r][c]->Candidates_0[v]
}

/// The fish of `p` for `v` is the only one the board can have: every line of either kind,
/// other than the lines of `p`, holds `v` in at least five candidate cells.
pub open spec fn lone_fish(b: Board, mode: UnitMode, p: Seq<usize>, v: int) -> bool {
    forall|m: UnitMode, index: int|
        (m == UnitMode::Row || m == UnitMode::Column) && in9(index) && (m != mode || !p.contains(index as usize)) ==> count_pred(
            #[trigger] line_holders(b, m, index, v),
            9,
        ) >= 5
}

/// An increasing sequence rises by at least one at every step.
proof fn lemma_increasing_gap(p: Seq<usize>, i: int, j: int)
    requires
        forall|i1: int, i2: int| 0 <= i1 < i2 < p.len() ==> #[trigger] p[i1] < #[trigger] p[i2],
        0 <= i <= j < p.len(),
    ensures
        p[j] >= p[i] + (j - i),
    decreases j - i,
{
    if j > i {
        lemma_increasing_gap(p, i, j - 1);
    }
}

/// Every increasing sequence of line indices is among the generated line sets that
/// extend its first `j` elements from `start` on.
proof fn lemma_lines_in(p: Seq<usize>, j: int, start: int)
    requires
        forall|i1: int, i2: int| 0 <= i1 < i2 < p.len() ==> #[trigger] p[i1] < #[trigger] p[i2],
        forall|i: int| 0 <= i < p.len() ==> #[trigger] p[i] < 9,
        0 <= j <= p.len(),
        0 <= start,
        j < p.len() ==> start <= p[j],
    ensures
        combos(digit_indices(), p.len() as nat, start, p.take(j)).contains(p),
    decreases p.len() - j, 20int,
{
    if j == p.len() {
        assert(p.take(j) =~= p);
        assert(combos(digit_indices(), p.len() as nat, start, p.take(j))[0] == p);
    } else {
        lemma_lines_from_in(p, j, start);
    }
}

proof fn lemma_lines_from_in(p: Seq<usize>, j: int, i: int)
    requires
        forall|i1: int, i2: int| 0 <= i1 < i2 < p.len() ==> #[trigger] p[i1] < #[trigger] p[i2],
        forall|i: int| 0 <= i < p.len() ==> #[trigger] p[i] < 9,
        0 <= j < p.len(),
        0 <= i <= p[j],
    ensures
        combos_from(digit_indices(), p.len() as nat, p.take(j), i).contains(p),
    decreases p.len() - j, p[j] - i + 1,
{
    let set = digit_indices();
    let size = p.len() as nat;
    lemma_increasing_gap(p, j, p.len() - 1);
    assert(p[p.len() - 1] < 9);
    assert(p.take(j).len() == j);
    let left = combos(set, size, i + 1, p.take(j).push(set[i]));
    let right = combos_from(set, size, p.take(j), i + 1);
    assert(combos_from(set, size, p.take(j), i) == left + right);
    if i == p[j] {
        assert(p.take(j).push(set[i]) =~= p.take(j + 1));
        lemma_lines_in(p, j + 1, i + 1);
        let t = choose|t: int| 0 <= t < left.len() && left[t] == p;
        assert((left + right)[t] == p);
    } else {
        lemma_lines_from_in(p, j, i + 1);
        let t = choose|t: int| 0 <= t < right.len() && right[t] == p;
        assert((left + right)[left.len() + t] == p);
    }
}

/// Every increasing sequence of `size` line indices is a generated line set.
proof fn lemma_fish_lines_complete(p: Seq<usize>)
    requires
        forall|i1: int, i2: int| 0 <= i1 < i2 < p.len() ==> #[trigger] p[i1] < #[trigger] p[i2],
        forall|i: int| 0 <= i < p.len() ==> #[trigger] p[i] < 9,
    ensures
        fish_lines(p.len() as nat).contains(p),
{
    lemma_lines_in(p, 0, 0);
    assert(p.take(0) =~= Seq::<usize>::empty());
}

/// One fish step, on any lines of either kind, keeps a board that still agrees with `b`
/// on `v` so or has the targets of the fish of `p` cleared, and clears them when it is
/// the step on `p` itself.
proof fn lemma_fish_step_toward(b: Board, x: Board, mode: UnitMode, p: Seq<usize>, v: int, m: UnitMode, q: Seq<usize>)
    requires
        in9(v),
        mode == UnitMode::Row || mode == UnitMode::Column,
        m == UnitMode::Row || m == UnitMode::Column,
        is_fish(b, mode, p, v),
        lone_fish(b, mode, p, v),
        forall|i: int| 0 <= i < p.len() ==> #[trigger] p[i] < 9,
        1 <= q.len() <= 4,
        forall|i: int| 0 <= i < q.len() ==> #[trigger] q[i] < 9,
        (same_candidate_cells(b, x) && agree_on_digit(b, x, v)) || fish_done(b, x, mode, p, v),
    ensures
        (same_candidate_cells(b, fish_step(x, m, q)) && agree_on_digit(b, fish_step(x, m, q), v)) || fish_done(
            b,
            fish_step(x, m, q),
            mode,
            p,
            v,
        ),
        (m == mode && q == p) ==> fish_done(b, fish_step(x, m, q), mode, p, v),
        fish_done(b, x, mode, p, v) ==> fish_done(b, fish_step(x, m, q), mode, p, v),
{
    lemma_fish_exists(x, m, q);
    let y = fish_step(x, m, q);
    if fish_done(b, x, mode, p, v) {
        assert forall|r: int, c: int|
            in9(r) && in9(c) && fish_target(b, mode, p, v, r, c) && (#[trigger] y[r][c]) is Candidates implies !y[r][c]->Candidates_0[v] by {
            assert(x[r][c] is Candidates);
        }
    } else {
        lemma_fish_agree(b, x, m, q, v);
        if !is_fish(b, m, q, v) {
            assert forall|r: int, c: int| in9(r) && in9(c) implies ((#[trigger] y[r][c]) is Candidates <==> b[r][c] is Candidates) by {
                assert(b[r][c] is Candidates <==> x[r][c] is Candidates);
            }
            assert forall|r: int, c: int|
                in9(r) && in9(c) && (#[trigger] b[r][c]) is Candidates && y[r][c] is Candidates implies b[r][c]->Candidates_0[v]
                == y[r][c]->Candidates_0[v] by {
                assert(x[r][c] is Candidates);
                assert(!fish_clears(x, m, q, r, c, v));
            }
            if m == mode && q == p {
                assert(false);
            }
        } else {
            assert forall|i: int| 0 <= i < q.len() implies m == mode && p.contains(#[trigger] q[i]) by {
                if !(m == mode && p.contains(q[i])) {
                    let index = q[i] as int;
                    assert(index as usize == q[i]);
                    assert(count_pred(line_holders(b, m, index, v), 9) >= 5);
                    assert forall|k: int| 0 <= k < 9 && #[trigger] line_holders(b, m, index, v)(k) implies fish_union_pred(b, m, q, v)(
                        k,
                    ) by {
                        assert(holds_at(b, m, q[i] as int, k, v));
                    }
                    lemma_count_sub(fish_union_pred(b, m, q, v), line_holders(b, m, index, v), 9);
                    assert(false);
                }
            }
            assert(m == mode);
            assert forall|k: int| in9(k) implies #[trigger] fish_union(b, mode, q, v, k) == fish_union(b, mode, p, v, k) by {
                if fish_union(b, mode, q, v, k) {
                    let i = choose|i: int| 0 <= i < q.len() && #[trigger] holds_at(b, mode, q[i] as int, k, v);
                    assert(p.contains(q[i]));
                    let j = choose|j: int| 0 <= j < p.len() && p[j] == q[i];
                    assert(holds_at(b, mode, p[j] as int, k, v));
                }
                if fish_union(b, mode, p, v, k) {
                    assert(fish_intersect(b, mode, p, v, k));
                    assert(p.contains(q[0]));
                    let j = choose|j: int| 0 <= j < p.len() && p[j] == q[0];
                    assert(holds_at(b, mode, p[j] as int, k, v));
                    assert(holds_at(b, mode, q[0] as int, k, v));
                }
            }
            assert forall|r: int, c: int|
                in9(r) && in9(c) && fish_target(b, mode, p, v, r, c) && (#[trigger] y[r][c]) is Candidates implies !y[r][c]->Candidates_0[v] by {
                assert(x[r][c] is Candidates);
                crate::helpers::lemma_cell_unit(mode, r, c);
                assert(in9(pos_in_unit(mode, r, c)));
                let pos = pos_in_unit(mode, r, c);
                if q.contains(unit_of(mode, r, c) as usize) {
                    let i = choose|i: int| 0 <= i < q.len() && q[i] == unit_of(mode, r, c) as usize;
                    assert(p.contains(q[i]));
                }
                assert(!q.contains(unit_of(mode, r, c) as usize));
                assert(fish_union(b, mode, p, v, pos));
                assert(fish_union(b, mode, q, v, pos));
                assert(fish_union(x, mode, q, v, pos));
                assert(is_fish(x, mode, q, v));
                assert(fish_clears(x, mode, q, r, c, v));
            }
        }
    }
}

/// The fish passes on the first `n` line sets of `size` lines of kind `m` keep the
/// board agreeing with `b` on `v` or with the targets cleared, and clear them once the
/// set `p` has been passed.
proof fn lemma_fish_run_toward(b: Board, x: Board, mode: UnitMode, p: Seq<usize>, v: int, m: UnitMode, size: nat, n: nat)
    requires
        in9(v),
        mode == UnitMode::Row || mode == UnitMode::Column,
        m == UnitMode::Row || m == UnitMode::Column,
        2 <= size <= 4,
        n <= fish_lines(size).len(),
        is_fish(b, mode, p, v),
        lone_fish(b, mode, p, v),
        forall|i: int| 0 <= i < p.len() ==> #[trigger] p[i] < 9,
        (same_candidate_cells(b, x) && agree_on_digit(b, x, v)) || fish_done(b, x, mode, p, v),
    ensures
        (same_candidate_cells(b, fish_run(x, m, size, n)) && agree_on_digit(b, fish_run(x, m, size, n), v)) || fish_done(
            b,
            fish_run(x, m, size, n),
            mode,
            p,
            v,
        ),
        (m == mode && exists|i: int| 0 <= i < n && fish_lines(size)[i] == p) ==> fish_done(b, fish_run(x, m, size, n), mode, p, v),
        fish_done(b, x, mode, p, v) ==> fish_done(b, fish_run(x, m, size, n), mode, p, v),
    decreases n,
{
    if n > 0 {
        lemma_fish_run_toward(b, x, mode, p, v, m, size, (n - 1) as nat);
        let q = fish_lines(size)[n - 1];
        assert(fish_lines(size).contains(q));
        lemma_fish_lines(q, size);
        let prev = fish_run(x, m, size, (n - 1) as nat);
        lemma_fish_step_toward(b, prev, mode, p, v, m, q);
        let next = fish_run(x, m, size, n);
        if m == mode && exists|i: int| 0 <= i < n && fish_lines(size)[i] == p {
            let i = choose|i: int| 0 <= i < n && fish_lines(size)[i] == p;
            if i < n - 1 {
                assert(fish_done(b, prev, mode, p, v));
            } else {
                assert(q == p);
            }
        }
    }
}

/// The fish rounds up to `size - 1` lines keep the board agreeing with `b` on `v` or
/// with the targets cleared, and clear them once the round for the size of `p` is done.
proof fn lemma_fish_rounds_toward(b: Board, mode: UnitMode, p: Seq<usize>, v: int, size: nat)
    requires
        in9(v),
        mode == UnitMode::Row || mode == UnitMode::Column,
        size <= 5,
        2 <= p.len() <= 4,
        forall|i1: int, i2: int| 0 <= i1 < i2 < p.len() ==> #[trigger] p[i1] < #[trigger] p[i2],
        forall|i: int| 0 <= i < p.len() ==> #[trigger] p[i] < 9,
        is_fish(b, mode, p, v),
        lone_fish(b, mode, p, v),
    ensures
        (same_candidate_cells(b, fish_rounds(b, size)) && agree_on_digit(b, fish_rounds(b, size), v)) || fish_done(
            b,
            fish_rounds(b, size),
            mode,
            p,
            v,
        ),
        size > p.len() ==> fish_done(b, fish_rounds(b, size), mode, p, v),
    decreases size,
{
    if size <= 2 {
    } else {
        let k = (size - 1) as nat;
        lemma_fish_rounds_toward(b, mode, p, v, k);
        let x = fish_rounds(b, k);
        let len = fish_lines(k).len();
        lemma_fish_lines_complete(p);
        let i = choose|i: int| 0 <= i < fish_lines(p.len() as nat).len() && fish_lines(p.len() as nat)[i] == p;
        lemma_fish_run_toward(b, x, mode, p, v, UnitMode::Row, k, len);
        let x1 = fish_run(x, UnitMode::Row, k, len);
        lemma_fish_run_toward(b, x1, mode, p, v, UnitMode::Column, k, len);
        let x2 = fish_run(x1, UnitMode::Column, k, len);
        assert(fish_rounds(b, size) == x2);
        if k > p.len() {
            assert(fish_done(b, x, mode, p, v));
            assert(fish_done(b, x1, mode, p, v));
            assert(fish_done(b, x2, mode, p, v));
        } else if k == p.len() {
            assert(fish_lines(k)[i] == p);
            if mode == UnitMode::Row {
                assert(fish_done(b, x1, mode, p, v));
            } else {
                assert(fish_done(b, x2, mode, p, v));
            }
        }
    }
}

/// Completeness of the fish pass: when the lines `p` (two, three or four rows, or as
/// many columns, in increasing order) hold the candidate `v` at the same positions, as
/// many as lines, and every other line of either kind holds `v` in at least five
/// candidate cells, the result holds `v` in no candidate cell of another line at one of
/// those positions.
pub proof fn lemma_fish_complete(b: Board, mode: UnitMode, p: Seq<usize>, v: int)
    requires
        in9(v),
        mode == UnitMode::Row || mode == UnitMode::Column,
        2 <= p.len() <= 4,
        forall|i1: int, i2: int| 0 <= i1 < i2 < p.len() ==> #[trigger] p[i1] < #[trigger] p[i2],
        forall|i: int| 0 <= i < p.len() ==> #[trigger] p[i] < 9,
        is_fish(b, mode, p, v),
        lone_fish(b, mode, p, v),
    ensures
        forall|r: int, c: int|
            in9(r) && in9(c) && !p.contains(unit_of(mode, r, c) as usize) && fish_union(b, mode, p, v, pos_in_unit(mode, r, c))
                && (#[trigger] swordfish_spec(b)[r][c]) is Candidates ==> !swordfish_spec(b)[r][c]->Candidates_0[v],
{
    lemma_fish_rounds_toward(b, mode, p, v, 5);
    assert forall|r: int, c: int|
        in9(r) && in9(c) && !p.contains(unit_of(mode, r, c) as usize) && fish_union(b, mode, p, v, pos_in_unit(mode, r, c))
            && (#[trigger] swordfish_spec(b)[r][c]) is Candidates implies !swordfish_spec(b)[r][c]->Candidates_0[v] by {
        assert(fish_target(b, mode, p, v, r, c));
    }
}

} // verus!
