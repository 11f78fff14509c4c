//! The 9x9 grid, partitioned into nine 3x3 boxes, with checked placement.

use crate::cli::game_updater::CliChannelEvent;
use crate::sudoku::residual::{house_cell, lemma_missing_sum, missing_sum, triangle};
use vstd::prelude::*;

verus! {

/// Side of a box, and the number of boxes along one side of the board.
pub const BOARD_N: usize = 3;

/// Side of the board, and the largest digit.
pub const BOARD_MAX_NUMBER: usize = BOARD_N * BOARD_N;

/// A digit of the puzzle. The rules of the game use `1..=9`; the board stores
/// whatever it was given and compares by equality.
pub type CellType = u16;

type Box = [[SudokuCell; BOARD_N]; BOARD_N];

type Board = [[Box; BOARD_N]; BOARD_N];

/// Why an operation on a board or a search over it did not succeed.
#[derive(Clone, Copy, Debug, PartialEq, Eq, Structural)]
pub enum SudokuError {
    /// The input matrix is not nine rows of nine entries.
    Shape,
    /// A coordinate lies outside the grid.
    Coordinate { x: usize, y: usize },
    /// The value already occurs in the row, the column or the box.
    Placement,
    /// The cell at these coordinates is still empty at the final check.
    Incomplete { x: usize, y: usize },
    /// The board is full but some row, column or box lacks a digit.
    Inconsistency,
    /// The search retreated past the first editable cell.
    Exhausted,
}

/// One cell: its value, whether the puzzle left it open, and where it lies.
#[derive(Clone, Copy, Debug, PartialEq, Eq, Structural)]
pub struct SudokuCell {
    pub value: Option<CellType>,
    pub editable: bool,
    pub x: usize,
    pub y: usize,
}

impl SudokuCell {
    fn new(value: Option<CellType>) -> (cell: Self)
        ensures
            cell == (SudokuCell { value, editable: value is None, x: 0, y: 0 }),
    {
        SudokuCell { value, editable: if value.is_some() { false } else { true }, x: 0, y: 0 }
    }
}

/// Whether `(x, y)` names a cell of the grid.
pub open spec fn in_grid(x: int, y: int) -> bool {
    0 <= x < 9 && 0 <= y < 9
}

/// Whether two cells lie in the same 3x3 box.
pub open spec fn same_box(x1: int, y1: int, x2: int, y2: int) -> bool {
    x1 / 3 == x2 / 3 && y1 / 3 == y2 / 3
}

/// Whether two cells share a row, a column or a box.
pub open spec fn sees(x1: int, y1: int, x2: int, y2: int) -> bool {
    x1 == x2 || y1 == y2 || same_box(x1, y1, x2, y2)
}

/// The cell of a raw grid at absolute coordinates: box `(x/3, y/3)`, local
/// offset `(x%3, y%3)`.
spec fn grid_cell(grid: Board, x: int, y: int) -> SudokuCell {
    grid[x / 3][y / 3][x % 3][y % 3]
}

/// Whether the input matrix is nine rows of nine entries.
pub open spec fn well_shaped(list: Seq<Vec<Option<CellType>>>) -> bool {
    list.len() == 9 && forall|i: int| 0 <= i < 9 ==> (#[trigger] list[i])@.len() == 9
}

/// The cell that construction makes of one entry of the input matrix.
pub open spec fn given_cell(entry: Option<CellType>, x: int, y: int) -> SudokuCell {
    SudokuCell { value: entry, editable: entry is None, x: x as usize, y: y as usize }
}

/// Step `p` of the final scan for empty cells: for each `x`, and for each `y`
/// within it, first `(x, y)` and then `(y, x)`.
pub open spec fn scan_cell(p: int) -> (int, int) {
    let x = (p / 2) / 9;
    let y = (p / 2) % 9;
    if p % 2 == 0 {
        (x, y)
    } else {
        (y, x)
    }
}

/// Whether the flags `1..=9` of `seen` say which digits `present` holds.
spec fn flags_match(seen: [bool; 10], present: Set<CellType>) -> bool {
    forall|v: CellType| 1 <= v <= 9 ==> seen[v as int] == #[trigger] present.contains(v)
}

fn mark(seen: &mut [bool; 10], value: CellType)
    ensures
        forall|i: int|
            0 <= i < 10 ==> #[trigger] final(seen)[i] == (old(seen)[i] || (i == value && 1 <= value
                <= 9)),
{
    if 1 <= value && value <= 9 {
        seen[value as usize] = true;
    }
}

fn sum_missing(seen: &[bool; 10], Ghost(present): Ghost<Set<CellType>>) -> (sum: u16)
    requires
        flags_match(*seen, present),
    ensures
        sum == missing_sum(present, 9),
        sum <= 45,
{
    let mut sum: u16 = 0;
    let mut v: CellType = 1;
    while v <= 9
        invariant
            1 <= v <= 10,
            flags_match(*seen, present),
            sum == missing_sum(present, (v - 1) as nat),
            sum <= 9 * (v - 1),
        decreases 10 - v,
    {
        if !seen[v as usize] {
            assert(!present.contains(v));
            sum += v;
        } else {
            assert(present.contains(v));
        }
        v += 1;
    }
    proof {
        reveal_with_fuel(triangle, 10);
        lemma_missing_sum(present, 9);
    }
    sum
}

/// Cell `m` of house `k`.
fn house_cell_at(k: usize, m: usize) -> (at: (usize, usize))
    requires
        k < 27,
        m < 9,
    ensures
        (at.0 as int, at.1 as int) == house_cell(k as int, m as int),
        in_grid(at.0 as int, at.1 as int),
{
    if k < BOARD_MAX_NUMBER {
        (k, m)
    } else if k < 2 * BOARD_MAX_NUMBER {
        (m, k - BOARD_MAX_NUMBER)
    } else {
        let b = k - 2 * BOARD_MAX_NUMBER;
        (BOARD_N * (b / BOARD_N) + m / BOARD_N, BOARD_N * (b % BOARD_N) + m % BOARD_N)
    }
}

/// The value at a cell of the grid.
pub(crate) fn stored_at(board: &SudokuBoard, x: usize, y: usize) -> (value: Option<CellType>)
    requires
        in_grid(x as int, y as int),
    ensures
        value == board.value_at(x as int, y as int),
{
    match board.find_cell_from_coordinates(x, y) {
        Ok(cell) => cell.value,
        Err(_) => None,
    }
}

/// The grid of a puzzle: three rows of three boxes, each of three rows of
/// three cells. Values change only through checked placement, and every cell
/// knows its own coordinates.
pub struct SudokuBoard {
    board: Board,
}

impl SudokuBoard {
    pub const BOARD_N: usize = BOARD_N;

    pub const BOARD_MAX_NUMBER: usize = BOARD_MAX_NUMBER;

    /// The cell at `(x, y)`; meaningful for coordinates inside the grid.
    pub closed spec fn cell(&self, x: int, y: int) -> SudokuCell {
        grid_cell(self.board, x, y)
    }

    /// The value stored at `(x, y)`.
    pub open spec fn value_at(&self, x: int, y: int) -> Option<CellType> {
        self.cell(x, y).value
    }

    /// Whether the puzzle left `(x, y)` open.
    pub open spec fn editable_at(&self, x: int, y: int) -> bool {
        self.cell(x, y).editable
    }

    /// The board as a 9x9 matrix of values.
    pub open spec fn view(&self) -> Seq<Seq<Option<CellType>>> {
        Seq::new(9, |x: int| Seq::new(9, |y: int| self.value_at(x, y)))
    }

    /// Every cell records its own position.
    #[verifier::type_invariant]
    pub open spec fn well_formed(&self) -> bool {
        forall|x: int, y: int|
            in_grid(x, y) ==> (#[trigger] self.cell(x, y)).x == x && self.cell(x, y).y == y
    }

    /// `v` occurs in row `x`.
    pub open spec fn row_has(&self, x: int, v: CellType) -> bool {
        exists|j: int| in_grid(x, j) && #[trigger] self.value_at(x, j) == Some(v)
    }

    /// `v` occurs in column `y`.
    pub open spec fn column_has(&self, y: int, v: CellType) -> bool {
        exists|i: int| in_grid(i, y) && #[trigger] self.value_at(i, y) == Some(v)
    }

    /// `v` occurs in the box that holds `(x, y)`.
    pub open spec fn box_has(&self, x: int, y: int, v: CellType) -> bool {
        exists|i: int, j: int|
            in_grid(i, j) && same_box(i, j, x, y) && #[trigger] self.value_at(i, j) == Some(v)
    }

    /// The rule of the game for one placement: clearing is always allowed,
    /// and a digit is allowed when its row, column and box do not hold it yet
    /// (the cell itself counts as part of all three).
    pub open spec fn placement_ok(&self, x: int, y: int, value: Option<CellType>) -> bool {
        match value {
            None => true,
            Some(v) => !self.row_has(x, v) && !self.column_has(y, v) && !self.box_has(x, y, v),
        }
    }

    /// No digit occurs twice in any row, column or box.
    pub open spec fn consistent(&self) -> bool {
        forall|x1: int, y1: int, x2: int, y2: int|
            in_grid(x1, y1) && in_grid(x2, y2) && sees(x1, y1, x2, y2) && !(x1 == x2 && y1 == y2)
                && (#[trigger] self.value_at(x1, y1)) is Some ==> self.value_at(x1, y1)
                != #[trigger] self.value_at(x2, y2)
    }

    /// The board that results from storing `value` at `(x, y)`: that cell's
    /// value changes and nothing else does.
    pub open spec fn stores(&self, before: &SudokuBoard, x: int, y: int, value: Option<CellType>) -> bool {
        &&& self.cell(x, y) == (SudokuCell { value, ..before.cell(x, y) })
        &&& forall|i: int, j: int|
            in_grid(i, j) && !(i == x && j == y) ==> #[trigger] self.cell(i, j) == before.cell(i, j)
    }

    /// The same puzzle: every cell lies where it lay, the same cells are
    /// editable, and every given is unchanged.
    pub open spec fn same_givens(&self, other: &SudokuBoard) -> bool {
        forall|x: int, y: int|
            in_grid(x, y) ==> {
                &&& (#[trigger] self.cell(x, y)).editable == other.cell(x, y).editable
                &&& self.cell(x, y).x == other.cell(x, y).x
                &&& self.cell(x, y).y == other.cell(x, y).y
                &&& !self.cell(x, y).editable ==> self.cell(x, y).value == other.cell(x, y).value
            }
    }

    /// As construction leaves a board: exactly the editable cells are empty.
    pub open spec fn is_fresh(&self) -> bool {
        forall|x: int, y: int|
            in_grid(x, y) ==> self.editable_at(x, y) == (#[trigger] self.value_at(x, y) is None)
    }

    /// The digits `1..=9` in ascending order.
    pub fn valid_values() -> (values: Vec<CellType>)
        ensures
            values@ == Seq::new(9, |i: int| (i + 1) as CellType),
    {
        let mut values: Vec<CellType> = Vec::new();
        let mut v: CellType = 1;
        while v <= 9
            invariant
                1 <= v <= 10,
                values@ == Seq::new((v - 1) as nat, |i: int| (i + 1) as CellType),
            decreases 10 - v,
        {
            values.push(v);
            v += 1;
        }
        values
    }

    fn initialize_box() -> (b: Box)
        ensures
            forall|i: int, j: int|
                0 <= i < 3 && 0 <= j < 3 ==> (#[trigger] b[i][j]) == (SudokuCell {
                    value: None,
                    editable: true,
                    x: 0,
                    y: 0,
                }),
    {
        [[SudokuCell::new(None); BOARD_N]; BOARD_N]
    }

    fn initialize_board() -> (grid: Board)
        ensures
            forall|x: int, y: int|
                in_grid(x, y) ==> (#[trigger] grid_cell(grid, x, y)) == (SudokuCell {
                    value: None,
                    editable: true,
                    x: 0,
                    y: 0,
                }),
    {
        [
            [Self::initialize_box(), Self::initialize_box(), Self::initialize_box()],
            [Self::initialize_box(), Self::initialize_box(), Self::initialize_box()],
            [Self::initialize_box(), Self::initialize_box(), Self::initialize_box()],
        ]
    }

    /// Builds a board from a 9x9 matrix; an absent entry becomes an editable
    /// cell. Any other shape is refused.
    pub fn new(list: Vec<Vec<Option<CellType>>>) -> (made: Result<Self, SudokuError>)
        ensures
            match made {
                Ok(board) => {
                    &&& well_shaped(list@)
                    &&& board.well_formed()
                    &&& board.is_fresh()
                    &&& forall|x: int, y: int|
                        in_grid(x, y) ==> #[trigger] board.cell(x, y) == given_cell(
                            list@[x]@[y],
                            x,
                            y,
                        )
                },
                Err(e) => e == SudokuError::Shape && !well_shaped(list@),
            },
    {
        if list.len() != BOARD_MAX_NUMBER {
            return Err(SudokuError::Shape);
        }
        let mut grid: Board = Self::initialize_board();
        let mut line_index: usize = 0;
        while line_index < BOARD_MAX_NUMBER
            invariant
                line_index <= 9,
                list@.len() == 9,
                forall|i: int| 0 <= i < line_index ==> (#[trigger] list@[i])@.len() == 9,
                forall|i: int, j: int|
                    in_grid(i, j) && i < line_index ==> #[trigger] grid_cell(grid, i, j)
                        == given_cell(list@[i]@[j], i, j),
            decreases 9 - line_index,
        {
            let row = &list[line_index];
            if row.len() != BOARD_MAX_NUMBER {
                return Err(SudokuError::Shape);
            }
            let mut column_index: usize = 0;
            while column_index < BOARD_MAX_NUMBER
                invariant
                    line_index < 9,
                    column_index <= 9,
                    list@.len() == 9,
                    row@ == list@[line_index as int]@,
                    row@.len() == 9,
                    forall|i: int, j: int|
                        in_grid(i, j) && (i < line_index || (i == line_index && j < column_index))
                            ==> #[trigger] grid_cell(grid, i, j) == given_cell(list@[i]@[j], i, j),
                decreases 9 - column_index,
            {
                let value = row[column_index];
                match Self::find_cell_from_coordinates_mut(&mut grid, line_index, column_index) {
                    Ok(cell) => {
                        cell.value = value;
                        cell.editable = value.is_none();
                        cell.x = line_index;
                        cell.y = column_index;
                    },
                    Err(e) => {
                        return Err(e);
                    },
                }
                column_index += 1;
            }
            line_index += 1;
        }
        let board = SudokuBoard { board: grid };
        assert forall|x: int, y: int| in_grid(x, y) implies #[trigger] board.cell(x, y)
            == given_cell(list@[x]@[y], x, y) by {
            assert(board.cell(x, y) == grid_cell(grid, x, y));
        }
        Ok(board)
    }

    fn decompose_coordinates(x: usize, y: usize) -> (parts: (usize, usize, usize, usize))
        ensures
            parts == (x / 3, y / 3, x % 3, y % 3),
        no_unwind
    {
        let board_row_index = x / BOARD_N;
        let board_column_index = y / BOARD_N;
        let box_row_index = x % BOARD_N;
        let box_column_index = y % BOARD_N;
        (board_row_index, board_column_index, box_row_index, box_column_index)
    }
    /// The cell at `(x, y)`, or a coordinate error outside the grid.
    pub fn find_cell_from_coordinates(&self, x: usize, y: usize) -> (found: Result<
        &SudokuCell,
        SudokuError,
    >)
        ensures
            match found {
                Ok(cell) => in_grid(x as int, y as int) && *cell == self.cell(x as int, y as int),
                Err(e) => !in_grid(x as int, y as int) && e == (SudokuError::Coordinate { x, y }),
            },
    {
        if x >= BOARD_MAX_NUMBER || y >= BOARD_MAX_NUMBER {
            return Err(SudokuError::Coordinate { x, y });
        }
        let decomposed_coordinates = Self::decompose_coordinates(x, y);
        let sudoku_box: &Box = &self.board[decomposed_coordinates.0][decomposed_coordinates.1];
        Ok(&sudoku_box[decomposed_coordinates.2][decomposed_coordinates.3])
    }

    fn find_cell_from_coordinates_mut(grid: &mut Board, x: usize, y: usize) -> (found: Result<
        &mut SudokuCell,
        SudokuError,
    >)
        ensures
            match found {
                Ok(cell) => {
                    &&& in_grid(x as int, y as int)
                    &&& *cell == grid_cell(*old(grid), x as int, y as int)
                    &&& grid_cell(*final(grid), x as int, y as int) == *final(cell)
                    &&& forall|i: int, j: int|
                        in_grid(i, j) && !(i == x && j == y) ==> #[trigger] grid_cell(
                            *final(grid),
                            i,
                            j,
                        ) == grid_cell(*old(grid), i, j)
                },
                Err(e) => {
                    &&& !in_grid(x as int, y as int)
                    &&& e == (SudokuError::Coordinate { x, y })
                    &&& *final(grid) == *old(grid)
                },
            },
        no_unwind
    {
        if x >= BOARD_MAX_NUMBER || y >= BOARD_MAX_NUMBER {
            return Err(SudokuError::Coordinate { x, y });
        }
        let decomposed_coordinates = Self::decompose_coordinates(x, y);
        let sudoku_box: &mut Box = &mut grid[decomposed_coordinates.0][decomposed_coordinates.1];
        Ok(&mut sudoku_box[decomposed_coordinates.2][decomposed_coordinates.3])
    }
    /// Stores `value` at `(x, y)` if the coordinates lie in the grid and the
    /// placement obeys the rule of the game; otherwise reports why not and
    /// leaves the board as it was.
    pub fn update_value(&mut self, x: usize, y: usize, value: Option<CellType>) -> (done: Result<
        (),
        SudokuError,
    >)
        ensures
            done is Ok <==> in_grid(x as int, y as int) && old(self).placement_ok(
                x as int,
                y as int,
                value,
            ),
            done is Ok ==> final(self).stores(old(self), x as int, y as int, value),
            done is Err ==> *final(self) == *old(self),
            done matches Err(e) ==> e == if in_grid(x as int, y as int) {
                SudokuError::Placement
            } else {
                SudokuError::Coordinate { x, y }
            },
            final(self).well_formed(),
            final(self).editable_cells() == old(self).editable_cells(),
            old(self).consistent() ==> final(self).consistent(),
    {
        proof {
            use_type_invariant(&*self);
        }
        if x >= BOARD_MAX_NUMBER || y >= BOARD_MAX_NUMBER {
            return Err(SudokuError::Coordinate { x, y });
        }
        if !self.is_valid_insertion(x, y, value) {
            return Err(SudokuError::Placement);
        }
        assert forall|i: int, j: int| in_grid(i, j) implies (#[trigger] grid_cell(
            self.board,
            i,
            j,
        )).x == i && grid_cell(self.board, i, j).y == j by {
            assert(self.cell(i, j).x == i);
        }
        let result = Self::store_value(&mut self.board, x, y, value);
        proof {
            assert forall|i: int, j: int| in_grid(i, j) implies #[trigger] self.cell(i, j) == (if i
                == x && j == y {
                SudokuCell { value, ..old(self).cell(i, j) }
            } else {
                old(self).cell(i, j)
            }) by {
                assert(self.cell(i, j) == grid_cell(self.board, i, j));
            }
            if old(self).consistent() {
                Self::lemma_store_keeps_consistency(*old(self), *self, x as int, y as int, value);
            }
            Self::lemma_editable_cells_follow_flags(*old(self), *self, 81);
        }
        result
    }

    fn store_value(grid: &mut Board, x: usize, y: usize, value: Option<CellType>) -> (done: Result<
        (),
        SudokuError,
    >)
        ensures
            done is Ok <==> in_grid(x as int, y as int),
            done is Ok ==> grid_cell(*final(grid), x as int, y as int) == (SudokuCell {
                value,
                ..grid_cell(*old(grid), x as int, y as int)
            }),
            forall|i: int, j: int|
                in_grid(i, j) && !(i == x && j == y) ==> #[trigger] grid_cell(*final(grid), i, j)
                    == grid_cell(*old(grid), i, j),
            done matches Err(e) ==> e == (SudokuError::Coordinate { x, y }) && *final(grid) == *old(
                grid,
            ),
        no_unwind
    {
        match Self::find_cell_from_coordinates_mut(grid, x, y) {
            Ok(cell_ptr) => {
                cell_ptr.value = value;
                Ok(())
            },
            Err(e) => Err(e),
        }
    }

    /// A placement that the rule allows keeps the board free of duplicates.
    pub proof fn lemma_store_keeps_consistency(
        before: SudokuBoard,
        after: SudokuBoard,
        x: int,
        y: int,
        value: Option<CellType>,
    )
        requires
            in_grid(x, y),
            before.consistent(),
            before.placement_ok(x, y, value),
            after.stores(&before, x, y, value),
        ensures
            after.consistent(),
    {
        assert forall|x1: int, y1: int, x2: int, y2: int|
            in_grid(x1, y1) && in_grid(x2, y2) && sees(x1, y1, x2, y2) && !(x1 == x2 && y1 == y2)
                && (#[trigger] after.value_at(x1, y1)) is Some implies after.value_at(x1, y1)
            != #[trigger] after.value_at(x2, y2) by {
            let here1 = x1 == x && y1 == y;
            let here2 = x2 == x && y2 == y;
            if !here1 {
                assert(after.cell(x1, y1) == before.cell(x1, y1));
            }
            if !here2 {
                assert(after.cell(x2, y2) == before.cell(x2, y2));
            }
            if !here1 && !here2 {
                assert(before.value_at(x1, y1) is Some);
                assert(before.value_at(x1, y1) != before.value_at(x2, y2));
            } else if here1 {
                let v = value->0;
                if after.value_at(x2, y2) == Some(v) {
                    assert(before.value_at(x2, y2) == Some(v));
                    assert(before.row_has(x, v) || before.column_has(y, v) || before.box_has(
                        x,
                        y,
                        v,
                    ));
                }
            } else {
                if value is Some {
                    let v = value->0;
                    if after.value_at(x1, y1) == Some(v) {
                        assert(before.value_at(x1, y1) == Some(v));
                        assert(before.row_has(x, v) || before.column_has(y, v) || before.box_has(
                            x,
                            y,
                            v,
                        ));
                    }
                }
            }
        }
    }

    /// Whether the rule of the game allows `new_value` at `(x, y)`: `None`
    /// always, a digit when neither the row, the column nor the box holds it.
    pub fn is_valid_insertion(&self, x: usize, y: usize, new_value: Option<CellType>) -> (ok: bool)
        ensures
            ok == self.placement_ok(x as int, y as int, new_value),
    {
        if let Some(value) = new_value {
            return self.is_valid_box(x, y, value) && self.is_valid_line(x, value)
                && self.is_valid_column(y, value);
        } else {
            return true;
        }
    }

    fn is_valid_box(&self, x: usize, y: usize, new_value: CellType) -> (ok: bool)
        ensures
            ok == !self.box_has(x as int, y as int, new_value),
    {
        if x >= BOARD_MAX_NUMBER || y >= BOARD_MAX_NUMBER {
            return true;
        }
        let decomposed_coordinates = Self::decompose_coordinates(x, y);
        let sudoku_box: &Box = &self.board[decomposed_coordinates.0][decomposed_coordinates.1];
        let ghost bx = x as int / 3;
        let ghost by = y as int / 3;
        let mut r: usize = 0;
        while r < BOARD_N
            invariant
                r <= 3,
                0 <= bx < 3,
                0 <= by < 3,
                bx == x as int / 3,
                by == y as int / 3,
                *sudoku_box == self.board[bx][by],
                forall|i: int, j: int|
                    0 <= i < r && 0 <= j < 3 ==> (#[trigger] self.value_at(3 * bx + i, 3 * by + j))
                        != Some(new_value),
            decreases 3 - r,
        {
            let mut c: usize = 0;
            while c < BOARD_N
                invariant
                    r < 3,
                    c <= 3,
                    0 <= bx < 3,
                    0 <= by < 3,
                    bx == x as int / 3,
                    by == y as int / 3,
                    *sudoku_box == self.board[bx][by],
                    forall|i: int, j: int|
                        0 <= i < 3 && 0 <= j < 3 && (i < r || (i == r && j < c)) ==> (
                        #[trigger] self.value_at(3 * bx + i, 3 * by + j)) != Some(new_value),
                decreases 3 - c,
            {
                let cell = &sudoku_box[r][c];
                assert(*cell == self.cell(3 * bx + r, 3 * by + c));
                if cell.value == Some(new_value) {
                    assert(self.value_at(3 * bx + r, 3 * by + c) == Some(new_value));
                    assert((3 * bx + r) / 3 == bx && (3 * by + c) / 3 == by);
                    return false;
                }
                c += 1;
            }
            r += 1;
        }
        assert forall|i: int, j: int| in_grid(i, j) && same_box(i, j, x as int, y as int)
            implies #[trigger] self.value_at(i, j) != Some(new_value) by {
            assert(i == 3 * bx + i % 3 && j == 3 * by + j % 3);
            assert(self.value_at(3 * bx + i % 3, 3 * by + j % 3) != Some(new_value));
        }
        true
    }

    fn is_valid_line(&self, x: usize, new_value: CellType) -> (ok: bool)
        ensures
            ok == !self.row_has(x as int, new_value),
    {
        if x >= BOARD_MAX_NUMBER {
            return true;
        }
        let mut y: usize = 0;
        while y < BOARD_MAX_NUMBER
            invariant
                x < 9,
                y <= 9,
                forall|j: int| 0 <= j < y ==> (#[trigger] self.value_at(x as int, j)) != Some(new_value),
            decreases 9 - y,
        {
            if let Ok(cell) = self.find_cell_from_coordinates(x, y) {
                if cell.value == Some(new_value) {
                    assert(self.value_at(x as int, y as int) == Some(new_value));
                    return false;
                }
            }
            y += 1;
        }
        true
    }

    fn is_valid_column(&self, y: usize, new_value: CellType) -> (ok: bool)
        ensures
            ok == !self.column_has(y as int, new_value),
    {
        if y >= BOARD_MAX_NUMBER {
            return true;
        }
        let mut x: usize = 0;
        while x < BOARD_MAX_NUMBER
            invariant
                y < 9,
                x <= 9,
                forall|i: int| 0 <= i < x ==> (#[trigger] self.value_at(i, y as int)) != Some(new_value),
            decreases 9 - x,
        {
            if let Ok(cell) = self.find_cell_from_coordinates(x, y) {
                if cell.value == Some(new_value) {
                    assert(self.value_at(x as int, y as int) == Some(new_value));
                    return false;
                }
            }
            x += 1;
        }
        true
    }

    /// The editable cells among the first `count` cells in row-major order.
    pub open spec fn editable_prefix(&self, count: nat) -> Seq<(usize, usize)>
        decreases count,
    {
        if count == 0 {
            Seq::empty()
        } else {
            let p = (count - 1) as int;
            let earlier = self.editable_prefix((count - 1) as nat);
            if self.editable_at(p / 9, p % 9) {
                earlier.push(((p / 9) as usize, (p % 9) as usize))
            } else {
                earlier
            }
        }
    }

    /// The coordinates of the editable cells, row by row and left to right:
    /// the order in which a search visits them.
    pub open spec fn editable_cells(&self) -> Seq<(usize, usize)> {
        self.editable_prefix(81)
    }

    /// What the list of editable cells holds: cells of the grid that are
    /// editable, each of them, in strictly ascending row-major order.
    pub proof fn lemma_editable_prefix(&self, count: nat)
        requires
            count <= 81,
        ensures
            self.editable_prefix(count).len() <= count,
            forall|k: int|
                0 <= k < self.editable_prefix(count).len() ==> {
                    let at = #[trigger] self.editable_prefix(count)[k];
                    &&& in_grid(at.0 as int, at.1 as int)
                    &&& self.editable_at(at.0 as int, at.1 as int)
                    &&& 9 * at.0 + at.1 < count
                },
            forall|k1: int, k2: int|
                0 <= k1 < k2 < self.editable_prefix(count).len() ==> 9 * (
                #[trigger] self.editable_prefix(count)[k1]).0 + self.editable_prefix(count)[k1].1 < 9
                    * (#[trigger] self.editable_prefix(count)[k2]).0 + self.editable_prefix(
                    count,
                )[k2].1,
            forall|x: int, y: int|
                in_grid(x, y) && #[trigger] self.editable_at(x, y) && 9 * x + y < count
                    ==> self.editable_prefix(count).contains((x as usize, y as usize)),
        decreases count,
    {
        if count > 0 {
            let earlier = self.editable_prefix((count - 1) as nat);
            let now = self.editable_prefix(count);
            let p = (count - 1) as int;
            self.lemma_editable_prefix((count - 1) as nat);
            assert forall|x: int, y: int|
                in_grid(x, y) && #[trigger] self.editable_at(x, y) && 9 * x + y < count implies now.contains(
                (x as usize, y as usize),
            ) by {
                if 9 * x + y < count - 1 {
                    assert(earlier.contains((x as usize, y as usize)));
                    let k = choose|k: int|
                        0 <= k < earlier.len() && earlier[k] == (x as usize, y as usize);
                    assert(now[k] == (x as usize, y as usize));
                } else {
                    assert(x == p / 9 && y == p % 9);
                    assert(now[now.len() - 1] == (x as usize, y as usize));
                }
            }
        }
    }

    /// The list of editable cells: cells of the grid, editable, without
    /// repetition, in row-major order, and none is left out.
    pub proof fn lemma_editable_cells(&self)
        ensures
            self.editable_cells().len() <= 81,
            forall|k: int|
                0 <= k < self.editable_cells().len() ==> {
                    let at = #[trigger] self.editable_cells()[k];
                    in_grid(at.0 as int, at.1 as int) && self.editable_at(at.0 as int, at.1 as int)
                },
            forall|k1: int, k2: int|
                0 <= k1 < k2 < self.editable_cells().len() ==> 9 * (
                #[trigger] self.editable_cells()[k1]).0 + self.editable_cells()[k1].1 < 9 * (
                #[trigger] self.editable_cells()[k2]).0 + self.editable_cells()[k2].1,
            forall|x: int, y: int|
                in_grid(x, y) && #[trigger] self.editable_at(x, y) ==> self.editable_cells().contains(
                    (x as usize, y as usize),
                ),
    {
        self.lemma_editable_prefix(81);
    }

    /// The list of editable cells names exactly the cells of the grid that
    /// the puzzle left open.
    pub proof fn lemma_editable_cells_exact(&self, x: usize, y: usize)
        ensures
            self.editable_cells().contains((x, y)) <==> in_grid(x as int, y as int)
                && self.editable_at(x as int, y as int),
    {
        self.lemma_editable_cells();
        if self.editable_cells().contains((x, y)) {
            let k = choose|k: int|
                0 <= k < self.editable_cells().len() && self.editable_cells()[k] == (x, y);
            assert(in_grid(self.editable_cells()[k].0 as int, self.editable_cells()[k].1 as int));
        }
    }

    /// The list of editable cells depends on nothing but which cells are
    /// editable.
    pub proof fn lemma_editable_cells_follow_flags(a: SudokuBoard, b: SudokuBoard, count: nat)
        requires
            count <= 81,
            forall|x: int, y: int| in_grid(x, y) ==> a.editable_at(x, y) == b.editable_at(x, y),
        ensures
            a.editable_prefix(count) == b.editable_prefix(count),
        decreases count,
    {
        if count > 0 {
            Self::lemma_editable_cells_follow_flags(a, b, (count - 1) as nat);
            let p = (count - 1) as int;
            assert(in_grid(p / 9, p % 9));
        }
    }

    /// The coordinates of the editable cells in row-major order.
    pub fn get_editable_cells(&self) -> (cells: Vec<(usize, usize)>)
        ensures
            cells@ == self.editable_cells(),
    {
        proof {
            use_type_invariant(self);
        }
        let mut editable_cells: Vec<(usize, usize)> = Vec::new();
        let mut x: usize = 0;
        while x < BOARD_MAX_NUMBER
            invariant
                x <= 9,
                self.well_formed(),
                editable_cells@ == self.editable_prefix((9 * x) as nat),
            decreases 9 - x,
        {
            let mut y: usize = 0;
            while y < BOARD_MAX_NUMBER
                invariant
                    x < 9,
                    y <= 9,
                    self.well_formed(),
                    editable_cells@ == self.editable_prefix((9 * x + y) as nat),
                decreases 9 - y,
            {
                if let Ok(cell) = self.find_cell_from_coordinates(x, y) {
                    assert((9 * x + y) as int / 9 == x && (9 * x + y) as int % 9 == y);
                    if cell.editable {
                        editable_cells.push((cell.x, cell.y));
                    }
                }
                y += 1;
            }
            x += 1;
        }
        editable_cells
    }
    /// `(x, y)` is the first empty cell that the final scan meets.
    pub open spec fn first_gap_at(&self, x: int, y: int) -> bool {
        exists|p: int|
            {
                &&& 0 <= p < 162
                &&& #[trigger] scan_cell(p) == (x, y)
                &&& self.value_at(x, y) is None
                &&& forall|q: int|
                    0 <= q < p ==> (#[trigger] self.value_at(scan_cell(q).0, scan_cell(q).1)) is Some
            }
    }

    /// What a renderer needs to draw the whole board: one update for each
    /// cell, row by row and left to right.
    pub open spec fn snapshot(&self) -> Seq<CliChannelEvent> {
        Seq::new(81, |p: int| CliChannelEvent::Update(self.cell(p / 9, p % 9)))
    }

    /// `v` occurs among the first `limit` cells of house `k`.
    spec fn house_has_before(&self, k: int, limit: int, v: CellType) -> bool {
        exists|m: int| 0 <= m < limit && #[trigger] self.house_value(k, m) == Some(v)
    }

    /// The first empty cell that the final scan meets, if there is one.
    fn find_gap(&self) -> (gap: Option<(usize, usize)>)
        ensures
            match gap {
                Some((x, y)) => self.first_gap_at(x as int, y as int),
                None => self.is_complete(),
            },
    {
        let mut x: usize = 0;
        while x < BOARD_MAX_NUMBER
            invariant
                x <= 9,
                forall|q: int|
                    0 <= q < 18 * x ==> (#[trigger] self.value_at(scan_cell(q).0, scan_cell(q).1))
                        is Some,
            decreases 9 - x,
        {
            let mut y: usize = 0;
            while y < BOARD_MAX_NUMBER
                invariant
                    x < 9,
                    y <= 9,
                    forall|q: int|
                        0 <= q < 18 * x + 2 * y ==> (#[trigger] self.value_at(
                            scan_cell(q).0,
                            scan_cell(q).1,
                        )) is Some,
                decreases 9 - y,
            {
                let ghost p = 18 * x + 2 * y;
                assert(scan_cell(p) == (x as int, y as int));
                assert(scan_cell(p + 1) == (y as int, x as int));
                if stored_at(self, x, y).is_none() {
                    return Some((x, y));
                }
                if stored_at(self, y, x).is_none() {
                    assert forall|q: int| 0 <= q < p + 1 implies (#[trigger] self.value_at(
                        scan_cell(q).0,
                        scan_cell(q).1,
                    )) is Some by {
                        if q == p {
                        }
                    }
                    return Some((y, x));
                }
                assert forall|q: int| 0 <= q < p + 2 implies (#[trigger] self.value_at(
                    scan_cell(q).0,
                    scan_cell(q).1,
                )) is Some by {
                    if q == p {
                    } else if q == p + 1 {
                    }
                }
                y += 1;
            }
            x += 1;
        }
        assert forall|i: int, j: int| in_grid(i, j) implies (#[trigger] self.value_at(i, j))
            is Some by {
            let q = 2 * (9 * i + j);
            assert(scan_cell(q) == (i, j));
            assert(self.value_at(scan_cell(q).0, scan_cell(q).1) is Some);
        }
        None
    }

    /// What house `k` lacks: the sum of the digits of `1..=9` that do not
    /// occur in it.
    fn house_cost(&self, k: usize) -> (cost: u16)
        requires
            k < 27,
        ensures
            cost == missing_sum(self.house_values(k as int), 9),
            cost <= 45,
    {
        let mut seen: [bool; 10] = [false;10];
        let mut m: usize = 0;
        while m < BOARD_MAX_NUMBER
            invariant
                k < 27,
                m <= 9,
                forall|v: CellType|
                    1 <= v <= 9 ==> seen[v as int] == #[trigger] self.house_has_before(
                        k as int,
                        m as int,
                        v,
                    ),
            decreases 9 - m,
        {
            let (x, y) = house_cell_at(k, m);
            let ghost flags = seen;
            let value = stored_at(self, x, y);
            if let Some(digit) = value {
                mark(&mut seen, digit);
            }
            proof {
                assert(value == self.house_value(k as int, m as int));
                assert forall|v: CellType| 1 <= v <= 9 implies seen[v as int]
                    == #[trigger] self.house_has_before(k as int, m + 1, v) by {
                    assert(flags[v as int] == self.house_has_before(k as int, m as int, v));
                    if self.house_has_before(k as int, m + 1, v) {
                        let w = choose|w: int|
                            0 <= w < m + 1 && #[trigger] self.house_value(k as int, w) == Some(v);
                        if w < m {
                            assert(self.house_has_before(k as int, m as int, v));
                        }
                    }
                    if flags[v as int] {
                        let w = choose|w: int|
                            0 <= w < m && #[trigger] self.house_value(k as int, w) == Some(v);
                        assert(0 <= w < m + 1);
                    }
                }
            }
            m += 1;
        }
        proof {
            assert forall|v: CellType| 1 <= v <= 9 implies seen[v as int]
                == #[trigger] self.house_values(k as int).contains(v) by {
                assert(seen[v as int] == self.house_has_before(k as int, 9, v));
            }
        }
        sum_missing(&seen, Ghost(self.house_values(k as int)))
    }

    fn calculate_final_cost(&self) -> (cost: Result<u16, SudokuError>)
        ensures
            match cost {
                Ok(total) => self.is_complete() && total == self.residual_cost(),
                Err(e) => e matches SudokuError::Incomplete { x, y } && self.first_gap_at(
                    x as int,
                    y as int,
                ),
            },
    {
        if let Some((x, y)) = self.find_gap() {
            return Err(SudokuError::Incomplete { x, y });
        }
        let mut row_and_column_cost: u16 = 0;
        let mut x: usize = 0;
        while x < BOARD_MAX_NUMBER
            invariant
                x <= 9,
                row_and_column_cost == self.lines_residual(x as nat),
                row_and_column_cost <= 90 * x,
            decreases 9 - x,
        {
            proof {
                self.lemma_house_values(x as int);
                self.lemma_house_values(9 + x);
            }
            row_and_column_cost += self.house_cost(x) + self.house_cost(BOARD_MAX_NUMBER + x);
            x += 1;
        }
        let mut box_cost: u16 = 0;
        let mut b: usize = 0;
        while b < BOARD_MAX_NUMBER
            invariant
                b <= 9,
                box_cost == self.boxes_residual(b as nat),
                box_cost <= 45 * b,
            decreases 9 - b,
        {
            proof {
                self.lemma_house_values(18 + b);
            }
            box_cost += self.house_cost(2 * BOARD_MAX_NUMBER + b);
            b += 1;
        }
        Ok(row_and_column_cost + box_cost)
    }

    /// The check after a search: the board must be full, and no row, column
    /// or box may lack a digit. On success the result is the snapshot to
    /// stream to the renderer.
    pub fn finish(&self) -> (checked: Result<Vec<CliChannelEvent>, SudokuError>)
        ensures
            checked is Ok <==> self.is_complete() && self.residual_cost() == 0,
            checked is Ok <==> self.is_solution(),
            checked matches Ok(updates) ==> updates@ == self.snapshot(),
            checked matches Err(e) ==> match e {
                SudokuError::Incomplete { x, y } => self.first_gap_at(x as int, y as int),
                SudokuError::Inconsistency => self.is_complete(),
                _ => false,
            },
    {
        proof {
            self.lemma_residual_cost();
            self.lemma_solution_characterised();
        }
        let cost = match self.calculate_final_cost() {
            Ok(cost) => cost,
            Err(e) => {
                return Err(e);
            },
        };
        if cost > 0 {
            return Err(SudokuError::Inconsistency);
        }
        let mut updates: Vec<CliChannelEvent> = Vec::new();
        let mut x: usize = 0;
        while x < BOARD_MAX_NUMBER
            invariant
                x <= 9,
                updates@ == Seq::new((9 * x) as nat, |p: int| CliChannelEvent::Update(self.cell(p / 9, p % 9))),
            decreases 9 - x,
        {
            let mut y: usize = 0;
            while y < BOARD_MAX_NUMBER
                invariant
                    x < 9,
                    y <= 9,
                    updates@ == Seq::new(
                        (9 * x + y) as nat,
                        |p: int| CliChannelEvent::Update(self.cell(p / 9, p % 9)),
                    ),
                decreases 9 - y,
            {
                let cell_result = self.find_cell_from_coordinates(x, y);
                if let Ok(cell) = cell_result {
                    assert((9 * x + y) as int / 9 == x && (9 * x + y) as int % 9 == y);
                    updates.push(CliChannelEvent::Update(*cell));
                }
                y += 1;
            }
            x += 1;
        }
        Ok(updates)
    }
}

} // verus!
