//! Plain backtracking: every digit `1..=9` is tried at every editable cell.

use crate::sudoku::algorithms::base_algorithms::{
    run, BaseAlgorithms, CandidateSource, SearchReport,
};
use crate::sudoku::algorithms::completion::{is_plan, offers_all};
use crate::sudoku::board::{CellType, SudokuBoard, BOARD_MAX_NUMBER};
use vstd::prelude::*;

verus! {

/// The digits `1..=9` in ascending order.
pub open spec fn all_digits() -> Seq<CellType> {
    Seq::new(9, |c: int| (c + 1) as CellType)
}

/// A run of plain backtracking over a board.
pub struct Backtracking<'a> {
    board: &'a mut SudokuBoard,
    editable_cells: Vec<(usize, usize)>,
}

impl CandidateSource for Vec<(usize, usize)> {
    open spec fn cells(&self) -> Seq<(usize, usize)> {
        self@
    }

    open spec fn choices(&self) -> Seq<Seq<CellType>> {
        Seq::new(self@.len(), |k: int| all_digits())
    }

    fn cell_count(&self) -> (n: usize) {
        self.len()
    }

    fn cell(&self, k: usize) -> (at: (usize, usize)) {
        self[k]
    }

    fn choice_count(&self, k: usize) -> (n: usize) {
        BOARD_MAX_NUMBER
    }

    fn choice(&self, k: usize, c: usize) -> (v: CellType) {
        (c + 1) as CellType
    }
}

/// The plan of plain backtracking over `board` is a plan, and it leaves out
/// no digit.
proof fn lemma_full_plan(board: &SudokuBoard, cells: Vec<(usize, usize)>)
    requires
        cells@ == board.editable_cells(),
    ensures
        is_plan(board, cells.cells(), cells.choices()),
        offers_all(board, cells.cells(), cells.choices()),
{
    assert forall|k: int, v: CellType|
        0 <= k < cells.cells().len() && 1 <= v <= 9 implies #[trigger] cells.choices()[k].contains(
        v,
    ) by {
        assert(all_digits()[v - 1] == v);
    }
}

impl<'a> Backtracking<'a> {
    #[verifier::type_invariant]
    spec fn well_formed(self) -> bool {
        self.editable_cells@ == self.board.editable_cells()
    }
}

impl<'a> BaseAlgorithms<'a> for Backtracking<'a> {
    closed spec fn target(self) -> &'a mut SudokuBoard {
        self.board
    }

    closed spec fn cells(self) -> Seq<(usize, usize)> {
        self.editable_cells@
    }

    closed spec fn choices(self) -> Seq<Seq<CellType>> {
        self.editable_cells.choices()
    }

    fn new(board: &'a mut SudokuBoard) -> (solver: Self)
        ensures
            forall|k: int| 0 <= k < solver.choices().len() ==> #[trigger] solver.choices()[k] == all_digits(),
    {
        let editable_cells = board.get_editable_cells();
        proof {
            lemma_full_plan(board, editable_cells);
        }
        Backtracking { board, editable_cells }
    }

    fn resolve(self) -> (report: SearchReport) {
        proof {
            use_type_invariant(&self);
        }
        let Backtracking { board, editable_cells } = self;
        proof {
            lemma_full_plan(board, editable_cells);
        }
        run(board, &editable_cells)
    }
}

} // verus!
