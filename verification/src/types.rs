use vstd::prelude::*;

verus! {

/// The candidate digits of a cell: entry `d` stands for the digit `d + 1`.
pub type BitMask = [bool; 9];

/// A cell of the board being solved.
#[derive(PartialEq, Debug, Clone, Copy)]
pub enum Cell {
    Empty,
    Candidates(BitMask),
    Value(i16),
}

/// A nine by nine board of cells, indexed by row and then by column.
pub type Board = [[Cell; 9]; 9];

/// A nine by nine grid of digits, where 0 marks an empty cell.
pub type BasicGrid = [[i16; 9]; 9];

/// A grid of digits that can be rendered as text.
pub struct Grid(pub BasicGrid);

/// The number of positions `i` in `0..n` for which `f(i)` holds.
pub open spec fn count_pred(f: spec_fn(int) -> bool, n: int) -> nat
    decreases n,
{
    if n <= 0 {
        0
    } else {
        count_pred(f, n - 1) + if f(n - 1) {
            1nat
        } else {
            0nat
        }
    }
}

/// The predicate "digit index `d` is a candidate of `m`".
pub open spec fn mask_pred(m: BitMask) -> spec_fn(int) -> bool {
    |d: int| m[d]
}

/// The number of candidate digits in `m`.
pub open spec fn count_bits(m: BitMask) -> nat {
    count_pred(mask_pred(m), 9)
}

/// Predicates that agree on `0..n` count the same.
pub proof fn lemma_count_congruent(f: spec_fn(int) -> bool, g: spec_fn(int) -> bool, n: int)
    requires
        forall|i: int| 0 <= i < n ==> #[trigger] f(i) == g(i),
    ensures
        count_pred(f, n) == count_pred(g, n),
    decreases n,
{
    if n > 0 {
        lemma_count_congruent(f, g, n - 1);
    }
}

/// A predicate holds nowhere exactly when its count is zero.
pub proof fn lemma_count_zero(f: spec_fn(int) -> bool, n: int)
    requires
        0 <= n,
    ensures
        (count_pred(f, n) == 0) == (forall|d: int| 0 <= d < n ==> !#[trigger] f(d)),
    decreases n,
{
    if n > 0 {
        lemma_count_zero(f, n - 1);
    }
}

/// A count is at most the number of positions counted.
pub proof fn lemma_count_bound(f: spec_fn(int) -> bool, n: int)
    requires
        0 <= n,
    ensures
        count_pred(f, n) <= n,
    decreases n,
{
    if n > 0 {
        lemma_count_bound(f, n - 1);
    }
}

/// A predicate that holds somewhere counts at least one.
pub proof fn lemma_count_one(f: spec_fn(int) -> bool, a: int, n: int)
    requires
        0 <= a < n,
        f(a),
    ensures
        count_pred(f, n) >= 1,
    decreases n,
{
    if a < n - 1 {
        lemma_count_one(f, a, n - 1);
    }
}

/// A predicate that holds at two positions counts at least two.
pub proof fn lemma_count_two(f: spec_fn(int) -> bool, a: int, b: int, n: int)
    requires
        0 <= a < b < n,
        f(a),
        f(b),
    ensures
        count_pred(f, n) >= 2,
    decreases n,
{
    if b < n - 1 {
        lemma_count_two(f, a, b, n - 1);
    } else {
        lemma_count_one(f, a, n - 1);
    }
}

/// A predicate that holds at three positions counts at least three.
pub proof fn lemma_count_three(f: spec_fn(int) -> bool, a: int, b: int, c: int, n: int)
    requires
        0 <= a < b < c < n,
        f(a),
        f(b),
        f(c),
    ensures
        count_pred(f, n) >= 3,
    decreases n,
{
    if c < n - 1 {
        lemma_count_three(f, a, b, c, n - 1);
    } else {
        lemma_count_two(f, a, b, n - 1);
    }
}

/// The positions in `0..n` where `f` holds.
pub open spec fn pred_set(f: spec_fn(int) -> bool, n: int) -> Set<int> {
    Set::new(|i: int| 0 <= i < n && f(i))
}

/// A predicate counts as many positions as the set of positions where it holds.
pub proof fn lemma_count_is_len(f: spec_fn(int) -> bool, n: int)
    requires
        0 <= n,
    ensures
        pred_set(f, n).finite(),
        count_pred(f, n) == pred_set(f, n).len(),
    decreases n,
{
    if n == 0 {
        assert(pred_set(f, n) =~= Set::empty());
    } else {
        lemma_count_is_len(f, n - 1);
        if f(n - 1) {
            assert(pred_set(f, n) =~= pred_set(f, n - 1).insert(n - 1));
        } else {
            assert(pred_set(f, n) =~= pred_set(f, n - 1));
        }
    }
}

/// A predicate that holds at the different positions `xs` of `0..n` counts at least
/// as many.
pub proof fn lemma_count_distinct(f: spec_fn(int) -> bool, xs: Seq<int>, n: int)
    requires
        0 <= n,
        xs.no_duplicates(),
        forall|i: int| 0 <= i < xs.len() ==> 0 <= #[trigger] xs[i] < n && f(xs[i]),
    ensures
        count_pred(f, n) >= xs.len(),
{
    lemma_count_is_len(f, n);
    xs.unique_seq_to_set();
    assert(xs.to_set().subset_of(pred_set(f, n))) by {
        assert forall|x: int| xs.to_set().contains(x) implies pred_set(f, n).contains(x) by {
            let i = choose|i: int| 0 <= i < xs.len() && xs[i] == x;
        }
    }
    vstd::set_lib::lemma_len_subset(xs.to_set(), pred_set(f, n));
}

/// A predicate that counts exactly as many positions as the different positions `xs`
/// where it holds, holds nowhere else.
pub proof fn lemma_count_exact(f: spec_fn(int) -> bool, xs: Seq<int>, n: int)
    requires
        0 <= n,
        xs.no_duplicates(),
        forall|i: int| 0 <= i < xs.len() ==> 0 <= #[trigger] xs[i] < n && f(xs[i]),
        count_pred(f, n) == xs.len(),
    ensures
        forall|y: int| 0 <= y < n && #[trigger] f(y) ==> xs.contains(y),
{
    assert forall|y: int| 0 <= y < n && #[trigger] f(y) implies xs.contains(y) by {
        if !xs.contains(y) {
            let ys = xs.push(y);
            assert(ys.no_duplicates()) by {
                assert forall|i: int, j: int| 0 <= i < ys.len() && 0 <= j < ys.len() && i != j implies ys[i] != ys[j] by {
                    if i < xs.len() && j < xs.len() {
                    } else if i < xs.len() {
                        assert(ys[j] == y);
                        assert(xs[i] != y);
                    } else {
                        assert(ys[i] == y);
                        assert(xs[j] != y);
                    }
                }
            }
            lemma_count_distinct(f, ys, n);
        }
    }
}

/// The predicate "digit index `d` is a candidate of both masks".
pub open spec fn both(m1: BitMask, m2: BitMask) -> spec_fn(int) -> bool {
    |d: int| m1[d] && m2[d]
}

/// The number of digits that both masks hold.
pub open spec fn and_count(m1: BitMask, m2: BitMask) -> nat {
    count_pred(both(m1, m2), 9)
}

/// A predicate that implies another counts at most as much, and strictly less when the
/// other holds somewhere it does not.
pub proof fn lemma_count_sub(f: spec_fn(int) -> bool, g: spec_fn(int) -> bool, n: int)
    requires
        0 <= n,
        forall|d: int| 0 <= d < n && #[trigger] g(d) ==> f(d),
    ensures
        count_pred(g, n) <= count_pred(f, n),
        (exists|d: int| 0 <= d < n && #[trigger] f(d) && !g(d)) ==> count_pred(g, n) < count_pred(f, n),
    decreases n,
{
    if n > 0 {
        lemma_count_sub(f, g, n - 1);
    }
}

/// A mask that counts one holds exactly one digit.
pub proof fn lemma_count_single(m: BitMask)
    requires
        count_bits(m) == 1,
    ensures
        exists|d: int| 0 <= d < 9 && m[d],
        forall|a: int, b: int| 0 <= a < 9 && 0 <= b < 9 && m[a] && m[b] ==> a == b,
{
    lemma_count_zero(mask_pred(m), 9);
    assert forall|a: int, b: int| 0 <= a < 9 && 0 <= b < 9 && m[a] && m[b] implies a == b by {
        if a < b {
            lemma_count_two(mask_pred(m), a, b, 9);
        } else if b < a {
            lemma_count_two(mask_pred(m), b, a, 9);
        }
    }
}

/// A predicate that counts two on `0..n` and holds at two different positions holds
/// nowhere else there.
pub proof fn lemma_count_pair(f: spec_fn(int) -> bool, a: int, b: int, n: int)
    requires
        count_pred(f, n) == 2,
        0 <= a < n,
        0 <= b < n,
        a != b,
        f(a),
        f(b),
    ensures
        forall|c: int| 0 <= c < n && #[trigger] f(c) ==> c == a || c == b,
{
    assert forall|c: int| 0 <= c < n && #[trigger] f(c) implies c == a || c == b by {
        if c != a && c != b {
            let (x, y, z) = if a < b && b < c {
                (a, b, c)
            } else if a < c && c < b {
                (a, c, b)
            } else if b < a && a < c {
                (b, a, c)
            } else if b < c && c < a {
                (b, c, a)
            } else if c < a && a < b {
                (c, a, b)
            } else {
                (c, b, a)
            };
            lemma_count_three(f, x, y, z, n);
        }
    }
}

/// Operations on candidate masks.
pub trait BitMaskExt {
    fn bits_set(&self) -> usize;

    fn and_mask(lhs: &BitMask, rhs: &BitMask) -> BitMask;

    fn bits_and(&self, rhs: &BitMask) -> BitMask;

    fn or(&mut self, rhs: &BitMask) -> BitMask;

    fn and(&mut self, rhs: &BitMask);

    fn remove(&mut self, other: &BitMask) -> bool;
}

impl BitMaskExt for BitMask {
    /// The number of candidate digits in the mask.
    fn bits_set(&self) -> (n: usize)
        ensures
            n == count_bits(*self),
    {
        let mut n: usize = 0;
        let mut i: usize = 0;
        while i < 9
            invariant
                i <= 9,
                n == count_pred(mask_pred(*self), i as int),
                n <= i,
            decreases 9 - i,
        {
            if self[i] {
                n = n + 1;
            }
            i = i + 1;
        }
        n
    }

    /// The digits that both masks hold.
    fn and_mask(lhs: &BitMask, rhs: &BitMask) -> (result: BitMask)
        ensures
            forall|d: int| 0 <= d < 9 ==> #[trigger] result[d] == (lhs[d] && rhs[d]),
    {
        let mut result: BitMask = [false; 9];
        let mut value: usize = 0;
        while value < 9
            invariant
                value <= 9,
                forall|d: int| 0 <= d < value ==> #[trigger] result[d] == (lhs[d] && rhs[d]),
                forall|d: int| value <= d < 9 ==> !#[trigger] result[d],
            decreases 9 - value,
        {
            if lhs[value] && rhs[value] {
                result[value] = true;
            }
            value = value + 1;
        }
        result
    }

    /// The digits that this mask and `rhs` both hold.
    fn bits_and(&self, rhs: &BitMask) -> (result: BitMask)
        ensures
            forall|d: int| 0 <= d < 9 ==> #[trigger] result[d] == (self[d] && rhs[d]),
    {
        <BitMask as BitMaskExt>::and_mask(self, rhs)
    }

    /// Adds the digits of `rhs` to this mask and returns the new mask.
    fn or(&mut self, rhs: &BitMask) -> (result: BitMask)
        ensures
            forall|d: int| 0 <= d < 9 ==> #[trigger] final(self)[d] == (old(self)[d] || rhs[d]),
            result == *final(self),
    {
        let mut value: usize = 0;
        while value < 9
            invariant
                value <= 9,
                forall|d: int| 0 <= d < value ==> #[trigger] self[d] == (old(self)[d] || rhs[d]),
                forall|d: int| value <= d < 9 ==> #[trigger] self[d] == old(self)[d],
            decreases 9 - value,
        {
            if rhs[value] {
                self[value] = true;
            }
            value = value + 1;
        }
        *self
    }

    /// Keeps in this mask only the digits that `rhs` holds too.
    fn and(&mut self, rhs: &BitMask)
        ensures
            forall|d: int| 0 <= d < 9 ==> #[trigger] final(self)[d] == (old(self)[d] && rhs[d]),
    {
        let mut value: usize = 0;
        while value < 9
            invariant
                value <= 9,
                forall|d: int| 0 <= d < value ==> #[trigger] self[d] == (old(self)[d] && rhs[d]),
                forall|d: int| value <= d < 9 ==> #[trigger] self[d] == old(self)[d],
            decreases 9 - value,
        {
            if self[value] && rhs[value] {
                self[value] = true;
            } else {
                self[value] = false;
            }
            value = value + 1;
        }
    }

    /// Removes the digits of `other` from this mask; tells whether any was there.
    fn remove(&mut self, other: &BitMask) -> (change: bool)
        ensures
            forall|d: int| 0 <= d < 9 ==> #[trigger] final(self)[d] == (old(self)[d] && !other[d]),
            change == exists|d: int| 0 <= d < 9 && old(self)[d] && #[trigger] other[d],
    {
        let mut change = false;
        let mut i: usize = 0;
        while i < 9
            invariant
                i <= 9,
                forall|d: int| 0 <= d < i ==> #[trigger] self[d] == (old(self)[d] && !other[d]),
                forall|d: int| i <= d < 9 ==> #[trigger] self[d] == old(self)[d],
                change == exists|d: int| 0 <= d < i && old(self)[d] && #[trigger] other[d],
            decreases 9 - i,
        {
            if self[i] && other[i] {
                self[i] = false;
                change = true;
            }
            i = i + 1;
        }
        change
    }
}

} // verus!
