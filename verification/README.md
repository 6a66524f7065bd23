# sudoku

A sudoku solver by constraint propagation, written in Verus and verified.

The board is a nine by nine array of cells; a cell is empty, holds a placed digit, or
holds the set of digits it can still take. The solving techniques each narrow the
candidate sets or place digits:

- `candidates`: remove from every candidate set the digits placed in its row, column
  and box;
- `singles`: naked singles (a cell with one candidate) and hidden singles (a digit with
  one place in a unit);
- `pairs`: naked pairs and hidden pairs;
- `subsets`: naked subsets of two, three and four cells;
- `box_line`: pointing pairs and triples inside a box;
- `swordfish`: fish of two, three and four lines (X-wing, swordfish, jellyfish);
- `heuristics::xyz_wing`: the XYZ-wing;
- `solver`: the rounds that combine them until nothing changes;
- `parser`: the keys of the puzzle input screen (arrows move the cursor, digits 1 to 9
  are written, Delete clears, Enter solves, `q` or Esc quit);
- `puzzles` and `render`: reading puzzles as digits and drawing grids as text.

Every technique is specified exactly (the board it produces is a function of the board
it gets), refines the board, reports a change exactly when the board changed, and
never removes the digit that a solution consistent with the board puts in a cell.
For elimination, naked singles, naked pairs, naked subsets and the XYZ-wing this holds
on every board; for hidden singles, hidden pairs, pointing sets and fish it holds on
settled boards, where no candidate repeats a digit already placed in its row, column
or box (elimination leaves every board settled, and the solver eliminates first).
`grid` checks a filled grid and converts between grids and boards; `rules` holds the
model that the contracts speak of: solutions, consistency and refinement.

`app/` holds the terminal program around the library: the input screen, the
performance run over puzzle collections and the printing of boards.
