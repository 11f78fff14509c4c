//! The choice between the two strategies.

use crate::sudoku::algorithms::backtracking::{all_digits, Backtracking};
use crate::sudoku::algorithms::base_algorithms::{BaseAlgorithms, SearchReport};
use crate::sudoku::algorithms::candidate_election::{valid_digits, CandidateElection};
use crate::sudoku::board::{CellType, SudokuBoard};
use vstd::prelude::*;

verus! {

/// The strategies on offer.
#[derive(Clone, Copy, Debug, PartialEq, Eq, Structural)]
pub enum Algorithms {
    /// Every digit is tried at every cell.
    Backtracking,
    /// Only the digits that the board allowed before the run are tried.
    CandidateElection,
}

impl Algorithms {
    /// The strategy to use: the one asked for, or candidate-ordered search
    /// where none is.
    pub open spec fn or_default(chosen: Option<Algorithms>) -> Algorithms {
        match chosen {
            Some(algorithm) => algorithm,
            None => Algorithms::CandidateElection,
        }
    }

    /// The digits that the strategy tries at the editable cells of `board`.
    pub open spec fn choices(self, board: &SudokuBoard) -> Seq<Seq<CellType>> {
        Seq::new(
            board.editable_cells().len(),
            |k: int|
                match self {
                    Algorithms::Backtracking => all_digits(),
                    Algorithms::CandidateElection => valid_digits(
                        board,
                        board.editable_cells()[k].0 as int,
                        board.editable_cells()[k].1 as int,
                    ),
                },
        )
    }
}

/// Solves the puzzle on `board` with the strategy asked for, or with
/// candidate-ordered search where none is.
pub fn solve(board: &mut SudokuBoard, algorithm: Option<Algorithms>) -> (report: SearchReport)
    ensures
        report.tells(
            old(board),
            final(board),
            old(board).editable_cells(),
            Algorithms::or_default(algorithm).choices(old(board)),
        ),
{
    let ghost expected = Algorithms::or_default(algorithm).choices(board);
    match algorithm {
        Some(Algorithms::Backtracking) => {
            let solver = Backtracking::new(board);
            assert(solver.choices() =~= expected);
            solver.resolve()
        },
        _ => {
            let solver = CandidateElection::new(board);
            assert(solver.choices() =~= expected);
            solver.resolve()
        },
    }
}

} // verus!
