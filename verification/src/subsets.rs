use vstd::prelude::*;

use crate::helpers::{
    in9, lemma_board_ext, lemma_candidate_entries, lemma_mask_ext, lemma_unit_geometry, lemma_unit_sees, pos_in_unit,
    remove_from_unit, unit_candidate_masks, unit_cells, unit_col, unit_entries, unit_of, unit_row, UnitMode,
};
use crate::rules::{clears_only, allows, cell_refines, consistent, is_solution, lemma_refines_strict, lemma_refines_trans, refines};
use crate::singles::mode_at;
use crate::types::{count_pred, lemma_count_congruent, lemma_count_distinct, mask_pred, BasicGrid, BitMask, BitMaskExt, Board, Cell};

verus! {

/// How many positions from `i` on are left in a sequence of length `len`.
pub open spec fn rest(len: int, i: int) -> nat {
    if i < len {
        (len - i) as nat
    } else {
        0
    }
}

/// The combinations that extend `prefix` to `size` elements with elements of `set`
/// taken at increasing positions from `start` on, in lexicographic order of positions.
pub open spec fn combos<T>(set: Seq<T>, size: nat, start: int, prefix: Seq<T>) -> Seq<Seq<T>>
    decreases 2 * rest(set.len() as int, start) + 1, 0int,
{
    if prefix.len() == size {
        seq![prefix]
    } else {
        combos_from(set, size, prefix, start)
    }
}

/// The combinations that extend `prefix` with a next element taken at position `i`
/// or later, in order.
pub open spec fn combos_from<T>(set: Seq<T>, size: nat, prefix: Seq<T>, i: int) -> Seq<Seq<T>>
    decreases 2 * rest(set.len() as int, i), 0int,
{
    if i < 0 || i >= set.len() || set.len() - i < size - prefix.len() {
        Seq::empty()
    } else {
        combos(set, size, i + 1, prefix.push(set[i])) + combos_from(set, size, prefix, i + 1)
    }
}

/// `c` is `prefix` followed by elements of `set` taken at strictly increasing
/// positions from `start` on, `size` elements in all.
pub open spec fn picks<T>(set: Seq<T>, size: nat, start: int, prefix: Seq<T>, c: Seq<T>) -> bool {
    &&& c.len() == size
    &&& c.subrange(0, prefix.len() as int) == prefix
    &&& exists|idx: Seq<int>|
        #![trigger idx.len()]
        idx.len() == size - prefix.len() && (forall|j: int| 0 <= j < idx.len() ==> start <= #[trigger] idx[j] < set.len())
            && (forall|j1: int, j2: int| 0 <= j1 < j2 < idx.len() ==> #[trigger] idx[j1] < #[trigger] idx[j2])
            && (forall|j: int| 0 <= j < idx.len() ==> c[prefix.len() + j] == set[#[trigger] idx[j]])
}

/// Every combination is the prefix followed by elements of `set` at strictly
/// increasing positions.
pub proof fn lemma_combos_picks<T>(set: Seq<T>, size: nat, start: int, prefix: Seq<T>)
    requires
        prefix.len() <= size,
        0 <= start,
    ensures
        forall|c: Seq<T>| #[trigger] combos(set, size, start, prefix).contains(c) ==> picks(set, size, start, prefix, c),
    decreases 2 * rest(set.len() as int, start) + 1, 0int,
{
    if prefix.len() == size {
        assert forall|c: Seq<T>| #[trigger] combos(set, size, start, prefix).contains(c) implies picks(
            set,
            size,
            start,
            prefix,
            c,
        ) by {
            assert(combos(set, size, start, prefix)[0] == prefix);
            assert(c == prefix);
            let idx = Seq::<int>::empty();
            assert(idx.len() == size - prefix.len());
            assert(c.subrange(0, prefix.len() as int) =~= prefix);
        }
    } else {
        assert(combos(set, size, start, prefix) == combos_from(set, size, prefix, start));
        lemma_combos_from_picks(set, size, prefix, start, start);
    }
}

proof fn lemma_combos_from_picks<T>(set: Seq<T>, size: nat, prefix: Seq<T>, start: int, i: int)
    requires
        prefix.len() < size,
        0 <= start <= i,
    ensures
        forall|c: Seq<T>| #[trigger] combos_from(set, size, prefix, i).contains(c) ==> picks(set, size, start, prefix, c),
    decreases 2 * rest(set.len() as int, i), 0int,
{
    if i < 0 || i >= set.len() || set.len() - i < size - prefix.len() {
    } else {
        let next = prefix.push(set[i]);
        lemma_combos_picks(set, size, i + 1, next);
        lemma_combos_from_picks(set, size, prefix, start, i + 1);
        let left = combos(set, size, i + 1, next);
        let right = combos_from(set, size, prefix, i + 1);
        assert forall|c: Seq<T>| #[trigger] combos_from(set, size, prefix, i).contains(c) implies picks(
            set,
            size,
            start,
            prefix,
            c,
        ) by {
            assert(combos_from(set, size, prefix, i) == left + right);
            let k = choose|k: int| 0 <= k < (left + right).len() && (left + right)[k] == c;
            if k < left.len() {
                assert(left.contains(c));
                assert(picks(set, size, i + 1, next, c));
                let idx = choose|idx: Seq<int>|
                    #![trigger idx.len()]
                    idx.len() == size - next.len() && (forall|j: int| 0 <= j < idx.len() ==> i + 1 <= #[trigger] idx[j] < set.len())
                        && (forall|j1: int, j2: int| 0 <= j1 < j2 < idx.len() ==> #[trigger] idx[j1] < #[trigger] idx[j2])
                        && (forall|j: int| 0 <= j < idx.len() ==> c[next.len() + j] == set[#[trigger] idx[j]]);
                let idx2 = seq![i].add(idx);
                assert(idx2.len() == size - prefix.len());
                assert(c.subrange(0, next.len() as int) == next);
                assert(c.subrange(0, prefix.len() as int) =~= prefix) by {
                    assert forall|j: int| 0 <= j < prefix.len() implies c.subrange(0, prefix.len() as int)[j] == prefix[j] by {
                        assert(c.subrange(0, next.len() as int)[j] == next[j]);
                    }
                }
                assert forall|j: int| 0 <= j < idx2.len() implies c[prefix.len() + j] == set[#[trigger] idx2[j]] by {
                    if j == 0 {
                        assert(c.subrange(0, next.len() as int)[prefix.len() as int] == next[prefix.len() as int]);
                    } else {
                        assert(idx2[j] == idx[j - 1]);
                        assert(c[next.len() + (j - 1)] == set[idx[j - 1]]);
                        assert(next.len() + (j - 1) == prefix.len() + j);
                    }
                }
                assert forall|j: int| 0 <= j < idx2.len() implies start <= #[trigger] idx2[j] < set.len() by {
                    if j > 0 {
                        assert(idx2[j] == idx[j - 1]);
                    }
                }
                assert forall|j1: int, j2: int| 0 <= j1 < j2 < idx2.len() implies #[trigger] idx2[j1] < #[trigger] idx2[j2] by {
                    assert(idx2[j2] == idx[j2 - 1]);
                    if j1 > 0 {
                        assert(idx2[j1] == idx[j1 - 1]);
                    }
                }
            } else {
                assert(right[k - left.len()] == c);
                assert(right.contains(c));
            }
        }
    }
}

/// A copy of `v`.
pub fn copy_vec<T: Copy>(v: &Vec<T>) -> (copy: Vec<T>)
    ensures
        copy@ == v@,
{
    let mut copy: Vec<T> = Vec::new();
    let mut j: usize = 0;
    while j < v.len()
        invariant
            j <= v@.len(),
            copy@ == v@.subrange(0, j as int),
        decreases v@.len() - j,
    {
        copy.push(v[j]);
        j = j + 1;
    }
    assert(copy@ =~= v@);
    copy
}

/// Appends to `result`, in lexicographic order of positions, every way to extend
/// `subset` to `size` elements with elements of `set` at increasing positions from
/// `start` on.
pub fn iterate_for_subsets<T: Copy>(
    set: &Vec<T>,
    size: usize,
    start: usize,
    subset: &mut Vec<T>,
    result: &mut Vec<Vec<T>>,
)
    requires
        old(subset)@.len() <= size,
    ensures
        final(subset)@ == old(subset)@,
        final(result)@.len() == old(result)@.len() + combos(set@, size as nat, start as int, old(subset)@).len(),
        forall|i: int| 0 <= i < old(result)@.len() ==> #[trigger] final(result)@[i] == old(result)@[i],
        forall|i: int|
            0 <= i < combos(set@, size as nat, start as int, old(subset)@).len() ==> final(result)@[old(result)@.len()
                + i]@ == #[trigger] combos(set@, size as nat, start as int, old(subset)@)[i],
    decreases set@.len() - start,
{
    let len = set.len();
    let sublen = subset.len();
    if sublen == size {
        result.push(copy_vec(subset));
        return ;
    }
    let ghost prefix = subset@;
    let ghost base = result@;
    let mut i: usize = start;
    while i < len
        invariant
            start <= i,
            len == set@.len(),
            sublen == subset@.len(),
            subset@ == prefix,
            sublen < size,
            prefix.len() < size,
            base.len() + combos_from(set@, size as nat, prefix, start as int).len() == result@.len() + combos_from(
                set@,
                size as nat,
                prefix,
                i as int,
            ).len(),
            forall|k: int| 0 <= k < base.len() ==> #[trigger] result@[k] == base[k],
            forall|k: int|
                0 <= k < result@.len() - base.len() ==> #[trigger] result@[base.len() + k]@ == combos_from(
                    set@,
                    size as nat,
                    prefix,
                    start as int,
                )[k],
            combos_from(set@, size as nat, prefix, start as int) =~= combos_from(set@, size as nat, prefix, start as int).subrange(
                0,
                result@.len() - base.len(),
            ) + combos_from(set@, size as nat, prefix, i as int),
        ensures
            i >= len || len - i < size - sublen,
            start <= i,
            sublen == subset@.len(),
            subset@ == prefix,
            base.len() + combos_from(set@, size as nat, prefix, start as int).len() == result@.len() + combos_from(
                set@,
                size as nat,
                prefix,
                i as int,
            ).len(),
            forall|k: int| 0 <= k < base.len() ==> #[trigger] result@[k] == base[k],
            forall|k: int|
                0 <= k < result@.len() - base.len() ==> #[trigger] result@[base.len() + k]@ == combos_from(
                    set@,
                    size as nat,
                    prefix,
                    start as int,
                )[k],
        decreases len - i,
    {
        if (len - i) < (size - sublen) {
            break;
        }
        let ghost before = result@;
        let ghost tail = combos_from(set@, size as nat, prefix, i as int);
        let ghost here = combos(set@, size as nat, i as int + 1, prefix.push(set@[i as int]));
        assert(tail == here + combos_from(set@, size as nat, prefix, i as int + 1));
        subset.push(set[i]);
        iterate_for_subsets(set, size, i + 1, subset, result);
        subset.pop();
        proof {
            let all = combos_from(set@, size as nat, prefix, start as int);
            let done = (before.len() - base.len()) as int;
            assert forall|k: int| 0 <= k < result@.len() - base.len() implies #[trigger] result@[base.len() + k]@ == all[k] by {
                if k < done {
                    assert(result@[base.len() + k] == before[base.len() + k]);
                } else {
                    assert(result@[before.len() + (k - done)]@ == here[k - done]);
                    assert(all[k] == (all.subrange(0, done) + tail)[k]);
                }
            }
            assert(all =~= all.subrange(0, result@.len() - base.len()) + combos_from(
                set@,
                size as nat,
                prefix,
                i as int + 1,
            )) by {
                assert(all =~= all.subrange(0, done) + (here + combos_from(set@, size as nat, prefix, i as int + 1)));
                assert forall|k: int| 0 <= k < here.len() implies #[trigger] all[done + k] == here[k] by {
                    assert(all[done + k] == (all.subrange(0, done) + tail)[done + k]);
                }
            }
        }
        i = i + 1;
    }
    proof {
        let all = combos_from(set@, size as nat, prefix, start as int);
        assert(combos_from(set@, size as nat, prefix, i as int).len() == 0);
        assert(combos(set@, size as nat, start as int, prefix) == all);
    }
}

/// The combinations of `size` entries that the naked-subset search looks at: none when
/// there are fewer entries, all of them when there are exactly `size`, and the
/// generated combinations otherwise.
pub open spec fn generated(entries: Seq<(usize, BitMask)>, size: nat) -> Seq<Seq<(usize, BitMask)>> {
    if entries.len() < size {
        Seq::empty()
    } else if entries.len() == size {
        seq![entries]
    } else {
        combos(entries, size, 0, Seq::empty())
    }
}

/// Some entry of `c` holds the candidate `d`.
pub open spec fn combo_union(c: Seq<(usize, BitMask)>, d: int) -> bool {
    exists|j: int| 0 <= j < c.len() && (#[trigger] c[j]).1[d]
}

/// The candidates held by some entry of `c`.
pub open spec fn union_pred(c: Seq<(usize, BitMask)>) -> spec_fn(int) -> bool {
    |d: int| combo_union(c, d)
}

/// Some entry of `c` is at position `q`.
pub open spec fn combo_has(c: Seq<(usize, BitMask)>, q: int) -> bool {
    exists|j: int| 0 <= j < c.len() && (#[trigger] c[j]).0 == q
}

/// The `size` cells of `c` together hold exactly `size` candidates, so they clear
/// those candidates from position `q` when it is not one of them.
pub open spec fn subset_clears_with(c: Seq<(usize, BitMask)>, size: int, q: int, d: int) -> bool {
    count_pred(union_pred(c), 9) == size && !combo_has(c, q) && combo_union(c, d)
}

/// A naked subset of two, three or four cells of the unit, not at position `q`,
/// holds the candidate `d`.
pub open spec fn subset_clears(entries: Seq<(usize, BitMask)>, q: int, d: int) -> bool {
    exists|size: int, c: Seq<(usize, BitMask)>|
        2 <= size <= 4 && #[trigger] generated(entries, size as nat).contains(c) && subset_clears_with(c, size, q, d)
}

/// Like `subset_clears`, counting only the subsets of fewer than `size` cells and the
/// first `t` of `size` cells.
pub open spec fn subset_applied(entries: Seq<(usize, BitMask)>, size: int, t: int, q: int, d: int) -> bool {
    exists|sz: int, u: int|
        2 <= sz <= 4 && (sz < size || (sz == size && u < t)) && 0 <= u < generated(entries, sz as nat).len()
            && subset_clears_with(#[trigger] generated(entries, sz as nat)[u], sz, q, d)
}

/// `new` is `old` after every naked subset of two, three or four cells of unit `index`
/// of kind `mode` removed its candidates from the unit's other candidate cells.
pub open spec fn naked_subsets_unit(old: Board, mode: UnitMode, index: int, new: Board) -> bool {
    forall|r: int, c: int|
        in9(r) && in9(c) ==> if unit_of(mode, r, c) == index && old[r][c] is Candidates {
            (#[trigger] new[r][c]) is Candidates && forall|d: int|
                in9(d) ==> #[trigger] new[r][c]->Candidates_0[d] == (old[r][c]->Candidates_0[d] && !subset_clears(
                    unit_entries(old, mode, index),
                    pos_in_unit(mode, r, c),
                    d,
                ))
        } else {
            new[r][c] == old[r][c]
        }
}

/// The naked-subsets pass on the `n`-th unit.
pub open spec fn naked_subsets_step(b: Board, n: int) -> Board {
    choose|x: Board| #[trigger] naked_subsets_unit(b, mode_at(n), n % 9, x)
}

/// The naked-subsets pass over the first `n` units: the rows, then the columns, then
/// the boxes.
pub open spec fn naked_subsets_board(b: Board, n: nat) -> Board
    decreases n,
{
    if n == 0 {
        b
    } else {
        naked_subsets_step(naked_subsets_board(b, (n - 1) as nat), n - 1)
    }
}

/// The combinations of `size` of the unit's candidate cells to look at: none when there
/// are fewer, all of them when there are exactly `size`, and otherwise every choice in
/// lexicographic order.
fn generate_naked_subsets(candidate_set: &Vec<(usize, BitMask)>, size: usize) -> (result: Vec<Vec<(usize, BitMask)>>)
    ensures
        result@.len() == generated(candidate_set@, size as nat).len(),
        forall|i: int| 0 <= i < result@.len() ==> (#[trigger] result@[i])@ == generated(candidate_set@, size as nat)[i],
{
    let mut result: Vec<Vec<(usize, BitMask)>> = Vec::new();
    let len = candidate_set.len();
    if len < size {
        return result;
    }
    if len == size {
        result.push(copy_vec(candidate_set));
        return result;
    }
    let mut sub_result: Vec<(usize, BitMask)> = Vec::new();
    iterate_for_subsets(candidate_set, size, 0, &mut sub_result, &mut result);
    assert forall|i: int| 0 <= i < result@.len() implies (#[trigger] result@[i])@ == generated(candidate_set@, size as nat)[i] by {
        assert(sub_result@ =~= Seq::<(usize, BitMask)>::empty());
        assert(result@[0 + i]@ == combos(candidate_set@, size as nat, 0, Seq::empty())[i]);
    }
    result
}

/// The looked-at combinations are `size` entries at strictly increasing positions.
proof fn lemma_generated_members(entries: Seq<(usize, BitMask)>, size: nat, c: Seq<(usize, BitMask)>)
    requires
        generated(entries, size).contains(c),
        forall|t1: int, t2: int| 0 <= t1 < t2 < entries.len() ==> (#[trigger] entries[t1]).0 < (#[trigger] entries[t2]).0,
    ensures
        c.len() == size,
        forall|j: int| 0 <= j < c.len() ==> entries.contains(#[trigger] c[j]),
        forall|j1: int, j2: int| 0 <= j1 < j2 < c.len() ==> (#[trigger] c[j1]).0 < (#[trigger] c[j2]).0,
{
    if entries.len() == size {
        assert(c == entries);
        assert forall|j: int| 0 <= j < c.len() implies entries.contains(#[trigger] c[j]) by {}
    } else {
        lemma_combos_picks(entries, size, 0, Seq::empty());
        assert(picks(entries, size, 0, Seq::empty(), c));
        let idx = choose|idx: Seq<int>|
            #![trigger idx.len()]
            idx.len() == size - 0 && (forall|j: int| 0 <= j < idx.len() ==> 0 <= #[trigger] idx[j] < entries.len())
                && (forall|j1: int, j2: int| 0 <= j1 < j2 < idx.len() ==> #[trigger] idx[j1] < #[trigger] idx[j2])
                && (forall|j: int| 0 <= j < idx.len() ==> c[0 + j] == entries[#[trigger] idx[j]]);
        assert forall|j: int| 0 <= j < c.len() implies entries.contains(#[trigger] c[j]) by {
            assert(c[0 + j] == entries[idx[j]]);
        }
        assert forall|j1: int, j2: int| 0 <= j1 < j2 < c.len() implies (#[trigger] c[j1]).0 < (#[trigger] c[j2]).0 by {
            assert(c[0 + j1] == entries[idx[j1]]);
            assert(c[0 + j2] == entries[idx[j2]]);
            assert(idx[j1] < idx[j2]);
        }
    }
}

/// Removes the candidates of every naked subset of two, three or four cells of unit
/// `index` of kind `mode` from the unit's other candidate cells; tells whether any
/// candidate was removed.
fn naked_subsets_in_unit(board: &mut Board, index: usize, mode: UnitMode) -> (change: bool)
    requires
        index < 9,
    ensures
        naked_subsets_unit(*old(board), mode, index as int, *final(board)),
        change == (*final(board) != *old(board)),
{
    let candidate_set = unit_candidate_masks(board, index, mode);
    let ghost entries = candidate_set@;
    let mut change = false;
    let mut k: usize = 2;
    while k <= 4
        invariant
            2 <= k <= 5,
            index < 9,
            candidate_set@ == entries,
            forall|r: int, c: int|
                in9(r) && in9(c) ==> if unit_of(mode, r, c) == index && old(board)[r][c] is Candidates {
                    (#[trigger] board[r][c]) is Candidates && forall|d: int|
                        in9(d) ==> #[trigger] board[r][c]->Candidates_0[d] == (old(board)[r][c]->Candidates_0[d]
                            && !subset_applied(entries, k as int, 0, pos_in_unit(mode, r, c), d))
                } else {
                    board[r][c] == old(board)[r][c]
                },
            change == (*board != *old(board)),
        decreases 5 - k,
    {
        let combinations = generate_naked_subsets(&candidate_set, k);
        let mut t: usize = 0;
        while t < combinations.len()
            invariant
                2 <= k <= 4,
                index < 9,
                t <= combinations@.len(),
                candidate_set@ == entries,
                combinations@.len() == generated(entries, k as nat).len(),
                forall|i: int| 0 <= i < combinations@.len() ==> (#[trigger] combinations@[i])@ == generated(entries, k as nat)[i],
                forall|r: int, c: int|
                    in9(r) && in9(c) ==> if unit_of(mode, r, c) == index && old(board)[r][c] is Candidates {
                        (#[trigger] board[r][c]) is Candidates && forall|d: int|
                            in9(d) ==> #[trigger] board[r][c]->Candidates_0[d] == (old(board)[r][c]->Candidates_0[d]
                                && !subset_applied(entries, k as int, t as int, pos_in_unit(mode, r, c), d))
                    } else {
                        board[r][c] == old(board)[r][c]
                    },
                change == (*board != *old(board)),
            decreases combinations@.len() - t,
        {
            let combo = &combinations[t];
            let ghost cv = combo@;
            let mut indices: Vec<usize> = Vec::new();
            let mut result: BitMask = [false; 9];
            let mut j: usize = 0;
            while j < combo.len()
                invariant
                    j <= cv.len(),
                    combo@ == cv,
                    indices@ == cv.subrange(0, j as int).map_values(|e: (usize, BitMask)| e.0),
                    forall|d: int| in9(d) ==> #[trigger] result[d] == exists|j2: int| 0 <= j2 < j && (#[trigger] cv[j2]).1[d],
                decreases cv.len() - j,
            {
                let (index_j, mask_j) = combo[j];
                indices.push(index_j);
                result.or(&mask_j);
                proof {
                    assert(indices@ =~= cv.subrange(0, j as int + 1).map_values(|e: (usize, BitMask)| e.0));
                    assert forall|d: int| in9(d) implies #[trigger] result[d] == exists|j2: int|
                        0 <= j2 < j + 1 && (#[trigger] cv[j2]).1[d] by {
                        if result[d] && !mask_j[d] {
                            let j2 = choose|j2: int| 0 <= j2 < j && (#[trigger] cv[j2]).1[d];
                        }
                        if exists|j2: int| 0 <= j2 < j + 1 && (#[trigger] cv[j2]).1[d] {
                            let j2 = choose|j2: int| 0 <= j2 < j + 1 && (#[trigger] cv[j2]).1[d];
                            if j2 < j {
                            } else {
                                assert(cv[j2] == (index_j, mask_j));
                            }
                        }
                    }
                }
                j = j + 1;
            }
            let ub = result.bits_set();
            proof {
                assert(cv.subrange(0, cv.len() as int) =~= cv);
                lemma_count_congruent(mask_pred(result), union_pred(cv), 9);
                assert forall|q: int| in9(q) implies indices@.contains(q as usize) == combo_has(cv, q) by {
                    if combo_has(cv, q) {
                        let j2 = choose|j2: int| 0 <= j2 < cv.len() && (#[trigger] cv[j2]).0 == q;
                        assert(indices@[j2] == q as usize);
                    }
                    if indices@.contains(q as usize) {
                        let j2 = choose|j2: int| 0 <= j2 < indices@.len() && indices@[j2] == q as usize;
                        assert(cv[j2].0 == q);
                    }
                }
            }
            let ghost before = *board;
            if ub == k {
                let removed = remove_from_unit(board, index, mode, &indices, &result);
                if removed {
                    change = true;
                    proof {
                        assert(refines(before, *board)) by {
                            assert forall|r: int, c: int| in9(r) && in9(c) implies cell_refines(#[trigger] before[r][c], board[r][c]) by {}
                        }
                        assert(refines(*old(board), before)) by {
                            assert forall|r: int, c: int| in9(r) && in9(c) implies cell_refines(#[trigger] old(board)[r][c], before[r][c]) by {}
                        }
                        lemma_refines_strict(*old(board), before, *board);
                    }
                }
            }
            proof {
                assert forall|r: int, c: int| in9(r) && in9(c) implies if unit_of(mode, r, c) == index
                    && old(board)[r][c] is Candidates {
                    (#[trigger] board[r][c]) is Candidates && forall|d: int|
                        in9(d) ==> #[trigger] board[r][c]->Candidates_0[d] == (old(board)[r][c]->Candidates_0[d]
                            && !subset_applied(entries, k as int, t as int + 1, pos_in_unit(mode, r, c), d))
                } else {
                    board[r][c] == old(board)[r][c]
                } by {
                    if unit_of(mode, r, c) == index && old(board)[r][c] is Candidates {
                        lemma_unit_geometry(mode, index as int);
                        let q = pos_in_unit(mode, r, c);
                        assert forall|d: int| in9(d) implies #[trigger] board[r][c]->Candidates_0[d] == (
                        old(board)[r][c]->Candidates_0[d] && !subset_applied(entries, k as int, t as int + 1, q, d)) by {
                            let here = subset_clears_with(generated(entries, k as nat)[t as int], k as int, q, d);
                            assert(here == (ub == k && !indices@.contains(q as usize) && result[d]));
                            if subset_applied(entries, k as int, t as int + 1, q, d) && !here {
                                let (sz, u) = choose|sz: int, u: int|
                                    2 <= sz <= 4 && (sz < k || (sz == k && u < t + 1)) && 0 <= u < generated(entries, sz as nat).len()
                                        && subset_clears_with(#[trigger] generated(entries, sz as nat)[u], sz, q, d);
                                assert(subset_applied(entries, k as int, t as int, q, d));
                            }
                            if subset_applied(entries, k as int, t as int, q, d) {
                                let (sz, u) = choose|sz: int, u: int|
                                    2 <= sz <= 4 && (sz < k || (sz == k && u < t)) && 0 <= u < generated(entries, sz as nat).len()
                                        && subset_clears_with(#[trigger] generated(entries, sz as nat)[u], sz, q, d);
                                assert(subset_applied(entries, k as int, t as int + 1, q, d));
                            }
                            if here {
                                assert(subset_applied(entries, k as int, t as int + 1, q, d));
                            }
                        }
                    }
                }
            }
            t = t + 1;
        }
        proof {
            assert forall|q: int, d: int| #[trigger] subset_applied(entries, k as int, combinations@.len() as int, q, d)
                == subset_applied(entries, k as int + 1, 0, q, d) by {
                if subset_applied(entries, k as int + 1, 0, q, d) {
                    let (sz, u) = choose|sz: int, u: int|
                        2 <= sz <= 4 && (sz < k + 1 || (sz == k + 1 && u < 0)) && 0 <= u < generated(entries, sz as nat).len()
                            && subset_clears_with(#[trigger] generated(entries, sz as nat)[u], sz, q, d);
                    assert(subset_applied(entries, k as int, combinations@.len() as int, q, d));
                }
                if subset_applied(entries, k as int, combinations@.len() as int, q, d) {
                    let (sz, u) = choose|sz: int, u: int|
                        2 <= sz <= 4 && (sz < k || (sz == k && u < combinations@.len())) && 0 <= u < generated(entries, sz as nat).len()
                            && subset_clears_with(#[trigger] generated(entries, sz as nat)[u], sz, q, d);
                    assert(subset_applied(entries, k as int + 1, 0, q, d));
                }
            }
        }
        k = k + 1;
    }
    proof {
        assert forall|q: int, d: int| #[trigger] subset_applied(entries, 5, 0, q, d) == subset_clears(entries, q, d) by {
            if subset_applied(entries, 5, 0, q, d) {
                let (sz, u) = choose|sz: int, u: int|
                    2 <= sz <= 4 && (sz < 5 || (sz == 5 && u < 0)) && 0 <= u < generated(entries, sz as nat).len()
                        && subset_clears_with(#[trigger] generated(entries, sz as nat)[u], sz, q, d);
                assert(generated(entries, sz as nat).contains(generated(entries, sz as nat)[u]));
            }
            if subset_clears(entries, q, d) {
                let (sz, c) = choose|sz: int, c: Seq<(usize, BitMask)>|
                    2 <= sz <= 4 && #[trigger] generated(entries, sz as nat).contains(c) && subset_clears_with(c, sz, q, d);
                let u = choose|u: int| 0 <= u < generated(entries, sz as nat).len() && #[trigger] generated(entries, sz as nat)[u] == c;
                assert(subset_applied(entries, 5, 0, q, d));
            }
        }
    }
    change
}

/// Removes, in every row, then every column, then every box, the candidates of each
/// naked subset of two, three or four cells from the unit's other candidate cells;
/// tells whether any candidate was removed.
pub fn determine_naked_subsets(board: &mut Board) -> (change: bool)
    ensures
        *final(board) == naked_subsets_board(*old(board), 27),
        change == (*final(board) != *old(board)),
        refines(*old(board), *final(board)),
        clears_only(*old(board), *final(board)),
        forall|s: BasicGrid| is_solution(s) && consistent(*old(board), s) ==> consistent(*final(board), s),
{
    let mut change = false;
    let mut n: usize = 0;
    while n < 27
        invariant
            n <= 27,
            *board == naked_subsets_board(*old(board), n as nat),
            change == (*board != *old(board)),
            refines(*old(board), *board),
            clears_only(*old(board), *board),
            forall|s: BasicGrid| is_solution(s) && consistent(*old(board), s) ==> consistent(*board, s),
        decreases 27 - n,
    {
        let mode = if n < 9 {
            UnitMode::Row
        } else if n < 18 {
            UnitMode::Column
        } else {
            UnitMode::Box
        };
        let index = n % 9;
        let ghost before = *board;
        let step = naked_subsets_in_unit(board, index, mode);
        if step {
            change = true;
        }
        proof {
            assert(mode == mode_at(n as int));
            lemma_naked_subsets_unique(before, n as int, *board);
            lemma_naked_subsets_refines(before, mode, index as int, *board);
            lemma_refines_trans(*old(board), before, *board);
            crate::rules::lemma_clears_only_trans(*old(board), before, *board);
            if step {
                lemma_refines_strict(*old(board), before, *board);
            }
            assert forall|s: BasicGrid| is_solution(s) && consistent(*old(board), s) implies consistent(*board, s) by {
                lemma_naked_subsets_sound(before, mode, index as int, *board, s);
            }
        }
        n = n + 1;
    }
    change
}

proof fn lemma_naked_subsets_unique(b: Board, n: int, x: Board)
    requires
        0 <= n < 27,
        naked_subsets_unit(b, mode_at(n), n % 9, x),
    ensures
        naked_subsets_step(b, n) == x,
{
    let mode = mode_at(n);
    let index = n % 9;
    let y = naked_subsets_step(b, n);
    assert(naked_subsets_unit(b, mode, index, y));
    assert forall|r: int, c: int| in9(r) && in9(c) implies #[trigger] y[r][c] == x[r][c] by {
        if unit_of(mode, r, c) == index && b[r][c] is Candidates {
            assert forall|d: int| in9(d) implies #[trigger] y[r][c]->Candidates_0[d] == x[r][c]->Candidates_0[d] by {}
            lemma_mask_ext(y[r][c]->Candidates_0, x[r][c]->Candidates_0);
        }
    }
    lemma_board_ext(y, x);
}

/// The naked-subsets pass on a unit only removes candidates.
pub proof fn lemma_naked_subsets_refines(b: Board, mode: UnitMode, index: int, x: Board)
    requires
        naked_subsets_unit(b, mode, index, x),
    ensures
        refines(b, x),
        clears_only(b, x),
{
    assert(clears_only(b, x));
    assert forall|r: int, c: int| in9(r) && in9(c) implies cell_refines(#[trigger] b[r][c], x[r][c]) by {}
}

/// The naked-subsets pass on a unit never removes the digit that a solution consistent
/// with the board puts in a cell.
pub proof fn lemma_naked_subsets_sound(b: Board, mode: UnitMode, index: int, x: Board, s: BasicGrid)
    requires
        in9(index),
        naked_subsets_unit(b, mode, index, x),
        is_solution(s),
        consistent(b, s),
    ensures
        consistent(x, s),
{
    let entries = unit_entries(b, mode, index);
    let cells = unit_cells(b, mode, index);
    lemma_candidate_entries(cells, 9);
    lemma_unit_geometry(mode, index);
    assert forall|r: int, c: int| in9(r) && in9(c) implies allows(#[trigger] x[r][c], s[r][c]) by {
        assert(allows(b[r][c], s[r][c]));
        if unit_of(mode, r, c) == index && b[r][c] is Candidates {
            let q = pos_in_unit(mode, r, c);
            let d = s[r][c] - 1;
            if subset_clears(entries, q, d) {
                let (sz, cmb) = choose|sz: int, cmb: Seq<(usize, BitMask)>|
                    2 <= sz <= 4 && #[trigger] generated(entries, sz as nat).contains(cmb) && subset_clears_with(cmb, sz, q, d);
                lemma_generated_members(entries, sz as nat, cmb);
                let digit_of = |j: int| s[unit_row(mode, index, cmb[j].0 as int)][unit_col(mode, index, cmb[j].0 as int)] - 1;
                let xs = Seq::new(sz as nat, digit_of).push(d);
                assert forall|j: int| 0 <= j < cmb.len() implies {
                    &&& in9(cmb[j].0 as int)
                    &&& cells[cmb[j].0 as int] == Cell::Candidates(cmb[j].1)
                } by {
                    assert(entries.contains(cmb[j]));
                    let t = choose|t: int| 0 <= t < entries.len() && entries[t] == cmb[j];
                }
                assert forall|i: int| 0 <= i < xs.len() implies 0 <= #[trigger] xs[i] < 9 && union_pred(cmb)(xs[i]) by {
                    if i < sz {
                        let k = cmb[i].0 as int;
                        let (rk, ck) = (unit_row(mode, index, k), unit_col(mode, index, k));
                        assert(allows(b[rk][ck], s[rk][ck]));
                        assert(cmb[i].1[xs[i]]);
                    }
                }
                assert(xs.no_duplicates()) by {
                    assert forall|i1: int, i2: int| 0 <= i1 < xs.len() && 0 <= i2 < xs.len() && i1 != i2 implies xs[i1] != xs[i2] by {
                        if i1 < sz && i2 < sz {
                            let k1 = cmb[i1].0 as int;
                            let k2 = cmb[i2].0 as int;
                            assert(k1 != k2) by {
                                if i1 < i2 {
                                    assert(cmb[i1].0 < cmb[i2].0);
                                } else {
                                    assert(cmb[i2].0 < cmb[i1].0);
                                }
                            }
                            lemma_unit_sees(mode, index, k1, k2);
                        } else if i1 < sz || i2 < sz {
                            let i0 = if i1 < sz {
                                i1
                            } else {
                                i2
                            };
                            let k0 = cmb[i0].0 as int;
                            assert(k0 != q);
                            lemma_unit_sees(mode, index, k0, q);
                        }
                    }
                }
                lemma_count_distinct(union_pred(cmb), xs, 9);
                assert(false);
            }
        }
    }
}

} // verus!
