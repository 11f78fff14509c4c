//! Candidate-ordered backtracking: at every editable cell only the digits
//! that the board allowed before the run began are tried.
//!
//! The lists are made once and never refined. A digit of a list may have
//! become impossible by the time it is tried; the board then refuses it and
//! the search goes on with the next.

use crate::sudoku::algorithms::base_algorithms::{
    run, BaseAlgorithms, CandidateSource, SearchReport,
};
use crate::sudoku::algorithms::completion::{ascending_digits, is_plan, offers_all};
use crate::sudoku::board::{CellType, SudokuBoard, BOARD_MAX_NUMBER};
use vstd::prelude::*;

verus! {

/// The digits among `1..=n` that `board` allows at `(x, y)`, ascending.
pub open spec fn valid_digits_upto(board: &SudokuBoard, x: int, y: int, n: nat) -> Seq<CellType>
    decreases n,
{
    if n == 0 {
        Seq::empty()
    } else {
        let smaller = valid_digits_upto(board, x, y, (n - 1) as nat);
        if board.placement_ok(x, y, Some(n as CellType)) {
            smaller.push(n as CellType)
        } else {
            smaller
        }
    }
}

/// The digits of `1..=9` that `board` allows at `(x, y)`, ascending.
pub open spec fn valid_digits(board: &SudokuBoard, x: int, y: int) -> Seq<CellType> {
    valid_digits_upto(board, x, y, 9)
}

/// The list of allowed digits is strictly ascending and holds exactly the
/// digits of `1..=n` that the board allows.
pub proof fn lemma_valid_digits_upto(board: &SudokuBoard, x: int, y: int, n: nat)
    requires
        n <= 9,
    ensures
        ascending_digits(valid_digits_upto(board, x, y, n)),
        forall|c: int|
            0 <= c < valid_digits_upto(board, x, y, n).len() ==> #[trigger] valid_digits_upto(
                board,
                x,
                y,
                n,
            )[c] <= n,
        forall|v: CellType|
            valid_digits_upto(board, x, y, n).contains(v) <==> 1 <= v <= n && board.placement_ok(
                x,
                y,
                Some(v),
            ),
    decreases n,
{
    if n > 0 {
        let smaller = valid_digits_upto(board, x, y, (n - 1) as nat);
        let list = valid_digits_upto(board, x, y, n);
        lemma_valid_digits_upto(board, x, y, (n - 1) as nat);
        assert forall|v: CellType| list.contains(v) <==> 1 <= v <= n && board.placement_ok(
            x,
            y,
            Some(v),
        ) by {
            if list.contains(v) {
                let c = choose|c: int| 0 <= c < list.len() && list[c] == v;
                if c < smaller.len() {
                    assert(smaller[c] == v);
                    assert(smaller.contains(v));
                }
            }
            if 1 <= v <= n && board.placement_ok(x, y, Some(v)) {
                if v < n {
                    assert(smaller.contains(v));
                    let c = choose|c: int| 0 <= c < smaller.len() && smaller[c] == v;
                    assert(list[c] == v);
                } else {
                    assert(list[list.len() - 1] == v);
                }
            }
        }
    }
}

/// The list of allowed digits at a cell: ascending, and a digit is in it
/// exactly when it is one of `1..=9` and the board allows it there.
pub proof fn lemma_valid_digits(board: &SudokuBoard, x: int, y: int)
    ensures
        ascending_digits(valid_digits(board, x, y)),
        forall|v: CellType|
            valid_digits(board, x, y).contains(v) <==> 1 <= v <= 9 && board.placement_ok(
                x,
                y,
                Some(v),
            ),
{
    lemma_valid_digits_upto(board, x, y, 9);
}

/// The candidates of a cell: the digits of `1..=9` that `board` allows at
/// `(x, y)` as it stands, in ascending order.
pub fn candidates_for(board: &SudokuBoard, x: usize, y: usize) -> (candidates: Vec<CellType>)
    ensures
        candidates@ == valid_digits(board, x as int, y as int),
{
    let mut candidates: Vec<CellType> = Vec::new();
    let mut v: CellType = 1;
    while v <= BOARD_MAX_NUMBER as CellType
        invariant
            1 <= v <= 10,
            candidates@ == valid_digits_upto(board, x as int, y as int, (v - 1) as nat),
        decreases 10 - v,
    {
        if board.is_valid_insertion(x, y, Some(v)) {
            candidates.push(v);
        }
        v += 1;
    }
    candidates
}

/// An editable cell with the digits to try at it.
pub struct EditableCells {
    x: usize,
    y: usize,
    candidates: Vec<CellType>,
}

/// A run of candidate-ordered backtracking over a board, with the lists of
/// candidates that were made when the run was prepared.
pub struct CandidateElection<'a> {
    board: &'a mut SudokuBoard,
    editable_cells: Vec<EditableCells>,
}

impl CandidateSource for Vec<EditableCells> {
    closed spec fn cells(&self) -> Seq<(usize, usize)> {
        Seq::new(self@.len(), |k: int| (self@[k].x, self@[k].y))
    }

    closed spec fn choices(&self) -> Seq<Seq<CellType>> {
        Seq::new(self@.len(), |k: int| self@[k].candidates@)
    }

    fn cell_count(&self) -> (n: usize) {
        self.len()
    }

    fn cell(&self, k: usize) -> (at: (usize, usize)) {
        (self[k].x, self[k].y)
    }

    fn choice_count(&self, k: usize) -> (n: usize) {
        self[k].candidates.len()
    }

    fn choice(&self, k: usize, c: usize) -> (v: CellType) {
        self[k].candidates[c]
    }
}

/// Lists made of the allowed digits of `board` are a plan over it, and they
/// leave out no digit.
proof fn lemma_elected_plan(board: &SudokuBoard, cells: Seq<(usize, usize)>, choices: Seq<Seq<CellType>>)
    requires
        cells == board.editable_cells(),
        choices.len() == cells.len(),
        forall|k: int|
            0 <= k < cells.len() ==> #[trigger] choices[k] == valid_digits(
                board,
                cells[k].0 as int,
                cells[k].1 as int,
            ),
    ensures
        is_plan(board, cells, choices),
        offers_all(board, cells, choices),
{
    assert forall|k: int| 0 <= k < choices.len() implies ascending_digits(#[trigger] choices[k]) by {
        lemma_valid_digits(board, cells[k].0 as int, cells[k].1 as int);
    }
    assert forall|k: int, v: CellType|
        0 <= k < cells.len() && 1 <= v <= 9 && board.placement_ok(
            cells[k].0 as int,
            cells[k].1 as int,
            Some(v),
        ) implies #[trigger] choices[k].contains(v) by {
        lemma_valid_digits(board, cells[k].0 as int, cells[k].1 as int);
    }
}

impl<'a> CandidateElection<'a> {
    #[verifier::type_invariant]
    spec fn well_formed(self) -> bool {
        &&& self.editable_cells.cells() == self.board.editable_cells()
        &&& forall|k: int|
            0 <= k < self.editable_cells@.len() ==> (#[trigger] self.editable_cells@[k]).candidates@
                == valid_digits(
                self.board,
                self.editable_cells@[k].x as int,
                self.editable_cells@[k].y as int,
            )
    }
}

impl<'a> BaseAlgorithms<'a> for CandidateElection<'a> {
    closed spec fn target(self) -> &'a mut SudokuBoard {
        self.board
    }

    closed spec fn cells(self) -> Seq<(usize, usize)> {
        self.editable_cells.cells()
    }

    closed spec fn choices(self) -> Seq<Seq<CellType>> {
        self.editable_cells.choices()
    }

    /// Prepares a run: for every editable cell, the digits that the board
    /// allows there now.
    fn new(sudoku_board: &'a mut SudokuBoard) -> (solver: Self)
        ensures
            forall|k: int|
                0 <= k < solver.cells().len() ==> #[trigger] solver.choices()[k] == valid_digits(
                    old(sudoku_board),
                    solver.cells()[k].0 as int,
                    solver.cells()[k].1 as int,
                ),
    {
        let cells = sudoku_board.get_editable_cells();
        let mut editable_cells: Vec<EditableCells> = Vec::with_capacity(cells.len());
        let mut k: usize = 0;
        while k < cells.len()
            invariant
                k <= cells.len(),
                editable_cells@.len() == k,
                forall|j: int|
                    0 <= j < k ==> {
                        &&& (#[trigger] editable_cells@[j]).x == cells@[j].0
                        &&& editable_cells@[j].y == cells@[j].1
                        &&& editable_cells@[j].candidates@ == valid_digits(
                            sudoku_board,
                            cells@[j].0 as int,
                            cells@[j].1 as int,
                        )
                    },
            decreases cells.len() - k,
        {
            let (x, y) = cells[k];
            let candidates = candidates_for(sudoku_board, x, y);
            editable_cells.push(EditableCells { candidates, x, y });
            k += 1;
        }
        proof {
            assert(editable_cells.cells() =~= cells@);
            assert forall|j: int| 0 <= j < editable_cells.cells().len() implies #[trigger] editable_cells.choices()[j]
                == valid_digits(
                sudoku_board,
                editable_cells.cells()[j].0 as int,
                editable_cells.cells()[j].1 as int,
            ) by {
                assert(editable_cells@[j].candidates@ == valid_digits(
                    sudoku_board,
                    cells@[j].0 as int,
                    cells@[j].1 as int,
                ));
            }
            lemma_elected_plan(sudoku_board, editable_cells.cells(), editable_cells.choices());
        }
        CandidateElection { board: sudoku_board, editable_cells }
    }

    fn resolve(self) -> (report: SearchReport) {
        proof {
            use_type_invariant(&self);
        }
        let CandidateElection { board, editable_cells } = self;
        proof {
            assert forall|j: int| 0 <= j < editable_cells.cells().len() implies #[trigger] editable_cells.choices()[j]
                == valid_digits(
                board,
                editable_cells.cells()[j].0 as int,
                editable_cells.cells()[j].1 as int,
            ) by {
                assert(editable_cells@[j].candidates@ == valid_digits(
                    board,
                    editable_cells@[j].x as int,
                    editable_cells@[j].y as int,
                ));
            }
            lemma_elected_plan(board, editable_cells.cells(), editable_cells.choices());
        }
        run(board, &editable_cells)
    }
}

} // verus!
