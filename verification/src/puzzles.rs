use vstd::prelude::*;

use crate::helpers::in9;
use crate::types::{Board, Cell};

verus! {

/// The difficulty classes of the bundled puzzle collections.
pub enum Difficulty {
    Easy,
    Medium,
    Hard,
    Diabolical,
    All,
}

impl Difficulty {
    /// The name of the puzzle collection to run for this difficulty. The solver is not
    /// strong enough for the whole collection, so `All` runs the easy puzzles.
    pub fn collection_name(&self) -> (name: &'static str)
        ensures
            name@ == match self {
                Difficulty::Easy => "easy"@,
                Difficulty::Medium => "medium"@,
                Difficulty::Hard => "hard"@,
                Difficulty::Diabolical => "diabolical"@,
                Difficulty::All => "easy"@,
            },
    {
        match self {
            Difficulty::Easy => "easy",
            Difficulty::Medium => "medium",
            Difficulty::Hard => "hard",
            Difficulty::Diabolical => "diabolical",
            Difficulty::All => "easy",
        }
    }
}

/// `cell` is what the puzzle digit (an ASCII byte) stands for: `0` is a cell with all
/// nine candidates, any other digit is placed.
pub open spec fn is_puzzle_cell(cell: Cell, digit: u8) -> bool {
    if digit == ('0' as u8) {
        cell is Candidates && forall|d: int| 0 <= d < 9 ==> #[trigger] cell->Candidates_0[d]
    } else {
        cell == Cell::Value((digit - ('0' as u8)) as i16)
    }
}

/// Reads a puzzle written as its digits in row-major order, `0` for an unknown cell;
/// cells past the last digit stay empty.
pub fn board_from_digits(digits: &[u8]) -> (board: Board)
    requires
        digits@.len() <= 81,
        forall|i: int| 0 <= i < digits@.len() ==> ('0' as u8) <= #[trigger] digits@[i] <= ('9' as u8),
    ensures
        forall|r: int, c: int|
            in9(r) && in9(c) ==> if r * 9 + c < digits@.len() {
                is_puzzle_cell(#[trigger] board[r][c], digits@[r * 9 + c])
            } else {
                board[r][c] == Cell::Empty
            },
{
    let mut board: Board = [[Cell::Empty; 9]; 9];
    let mut idx: usize = 0;
    while idx < digits.len()
        invariant
            idx <= digits@.len() <= 81,
            forall|i: int| 0 <= i < digits@.len() ==> ('0' as u8) <= #[trigger] digits@[i] <= ('9' as u8),
            forall|r: int, c: int|
                in9(r) && in9(c) ==> if r * 9 + c < idx {
                    is_puzzle_cell(#[trigger] board[r][c], digits@[r * 9 + c])
                } else {
                    board[r][c] == Cell::Empty
                },
        decreases digits@.len() - idx,
    {
        let num = digits[idx] - ('0' as u8);
        let cell = if num != 0 {
            Cell::Value(num as i16)
        } else {
            Cell::Candidates([true; 9])
        };
        board[idx / 9][idx % 9] = cell;
        proof {
            assert forall|r: int, c: int| in9(r) && in9(c) implies if r * 9 + c < idx + 1 {
                is_puzzle_cell(#[trigger] board[r][c], digits@[r * 9 + c])
            } else {
                board[r][c] == Cell::Empty
            } by {
                if r * 9 + c == idx {
                    assert(r == idx / 9 && c == idx % 9);
                } else {
                    assert(r != idx / 9 || c != idx % 9);
                }
            }
        }
        idx = idx + 1;
    }
    board
}

/// The number of empty cells among the first `n` cells in row-major order.
pub open spec fn empty_upto(b: Board, n: int) -> nat
    decreases n,
{
    if n <= 0 {
        0
    } else {
        empty_upto(b, n - 1) + if b[(n - 1) / 9][(n - 1) % 9] is Empty {
            1nat
        } else {
            0nat
        }
    }
}

/// The number of empty cells of the board.
pub fn count_empty_cells(board: &Board) -> (n: usize)
    ensures
        n == empty_upto(*board, 81),
{
    let mut n: usize = 0;
    let mut p: usize = 0;
    while p < 81
        invariant
            p <= 81,
            n == empty_upto(*board, p as int),
            n <= p,
        decreases 81 - p,
    {
        if let Cell::Empty = board[p / 9][p % 9] {
            n = n + 1;
        }
        p = p + 1;
    }
    n
}

} // verus!
