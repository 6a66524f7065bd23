use vstd::prelude::*;

use crate::helpers::in9;
use crate::types::BasicGrid;

verus! {

/// A key pressed on the puzzle input screen.
pub enum Key {
    Char(char),
    Up,
    Down,
    Left,
    Right,
    Delete,
    Enter,
    Esc,
    Other,
}

/// What the input screen does after a key press.
#[derive(PartialEq, Eq, Debug, Clone, Copy)]
pub enum Action {
    /// Keep reading keys.
    Continue,
    /// Close the screen without solving.
    Quit,
    /// Close the screen and solve the puzzle that was entered.
    Solve,
}

/// The interactive puzzle input screen: the puzzle entered so far (0 for an unknown
/// cell) and the cursor.
pub struct Parser {
    pub grid: BasicGrid,
    pub row: usize,
    pub col: usize,
}

/// What a key press asks of the screen: `q` and Esc quit, Enter solves, every other
/// key keeps the screen open.
pub open spec fn key_action(key: Key) -> Action {
    match key {
        Key::Esc => Action::Quit,
        Key::Char(c) => if c == 'q' {
            Action::Quit
        } else {
            Action::Continue
        },
        Key::Enter => Action::Solve,
        _ => Action::Continue,
    }
}

/// The entry that a key writes at the cursor: a digit key from 1 to 9 its digit,
/// Delete 0 (an unknown cell); no other key writes.
pub open spec fn key_entry(key: Key) -> Option<i16> {
    match key {
        Key::Char(c) => if '1' <= c <= '9' {
            Some((c as int - '0' as int) as i16)
        } else {
            None
        },
        Key::Delete => Some(0),
        _ => None,
    }
}

/// The cursor row after a key press: the arrow keys move it by one and stop at the
/// edge of the board.
pub open spec fn key_row(key: Key, row: int) -> int {
    match key {
        Key::Up => if row > 0 {
            row - 1
        } else {
            row
        },
        Key::Down => if row < 8 {
            row + 1
        } else {
            row
        },
        _ => row,
    }
}

/// The cursor column after a key press.
pub open spec fn key_col(key: Key, col: int) -> int {
    match key {
        Key::Left => if col > 0 {
            col - 1
        } else {
            col
        },
        Key::Right => if col < 8 {
            col + 1
        } else {
            col
        },
        _ => col,
    }
}

impl Parser {
    /// The cursor is on the board.
    pub open spec fn wf(&self) -> bool {
        self.row < 9 && self.col < 9
    }

    /// An empty puzzle with the cursor in the top left cell.
    pub fn new() -> (parser: Parser)
        ensures
            parser.wf(),
            parser.row == 0,
            parser.col == 0,
            forall|r: int, c: int| in9(r) && in9(c) ==> #[trigger] parser.grid[r][c] == 0,
    {
        Parser { grid: [[0; 9]; 9], row: 0, col: 0 }
    }

    /// Handles a key press: the arrow keys move the cursor, a digit from 1 to 9 is
    /// written at the cursor, Delete clears the cell at the cursor, Enter asks to solve,
    /// and `q` or Esc quit.
    pub fn handle_key(&mut self, key: Key) -> (action: Action)
        requires
            old(self).wf(),
        ensures
            final(self).wf(),
            action == key_action(key),
            final(self).row == key_row(key, old(self).row as int),
            final(self).col == key_col(key, old(self).col as int),
            forall|r: int, c: int|
                in9(r) && in9(c) ==> #[trigger] final(self).grid[r][c] == if r == old(self).row && c == old(self).col
                    && key_entry(key) is Some {
                    key_entry(key)->0
                } else {
                    old(self).grid[r][c]
                },
    {
        match key {
            Key::Esc => Action::Quit,
            Key::Char(ch) => {
                if ch == 'q' {
                    Action::Quit
                } else {
                    if '1' <= ch && ch <= '9' {
                        let v: i16 = (ch as u32 - '0' as u32) as i16;
                        self.grid[self.row][self.col] = v;
                    }
                    Action::Continue
                }
            },
            Key::Enter => Action::Solve,
            Key::Delete => {
                self.grid[self.row][self.col] = 0;
                Action::Continue
            },
            Key::Up => {
                if self.row > 0 {
                    self.row = self.row - 1;
                }
                Action::Continue
            },
            Key::Down => {
                if self.row < 8 {
                    self.row = self.row + 1;
                }
                Action::Continue
            },
            Key::Left => {
                if self.col > 0 {
                    self.col = self.col - 1;
                }
                Action::Continue
            },
            Key::Right => {
                if self.col < 8 {
                    self.col = self.col + 1;
                }
                Action::Continue
            },
            Key::Other => Action::Continue,
        }
    }
}

} // verus!
