use sudoku_solver::cli::game_updater::CliChannelEvent;
use sudoku_solver::sudoku::algorithms::backtracking::Backtracking;
use sudoku_solver::sudoku::algorithms::base_algorithms::BaseAlgorithms;
use sudoku_solver::sudoku::algorithms::candidate_election::CandidateElection;
use sudoku_solver::sudoku::algorithms::strategy::{solve, Algorithms};
use sudoku_solver::sudoku::board::{CellType, SudokuBoard, SudokuError};

fn grid_of(rows: [&str; 9]) -> Vec<Vec<Option<CellType>>> {
    let mut grid = Vec::new();
    for row in rows.iter() {
        let mut line = Vec::new();
        for c in row.chars() {
            line.push(c.to_digit(10).map(|d| d as CellType));
        }
        grid.push(line);
    }
    grid
}

const CLASSIC: [&str; 9] = [
    "53..7....",
    "6..195...",
    ".98....6.",
    "8...6...3",
    "4..8.3..1",
    "7...2...6",
    ".6....28.",
    "...419..5",
    "....8..79",
];

const CLASSIC_SOLVED: [&str; 9] = [
    "534678912",
    "672195348",
    "198342567",
    "859761423",
    "426853791",
    "713924856",
    "961537284",
    "287419635",
    "345286179",
];

fn values_of(board: &SudokuBoard) -> Vec<Vec<Option<CellType>>> {
    let mut grid = Vec::new();
    for x in 0..9 {
        let mut line = Vec::new();
        for y in 0..9 {
            line.push(board.find_cell_from_coordinates(x, y).unwrap().value);
        }
        grid.push(line);
    }
    grid
}

#[test]
fn backtracking_solves_the_classic_puzzle() {
    let mut board = SudokuBoard::new(grid_of(CLASSIC)).unwrap();
    let report = Backtracking::new(&mut board).resolve();
    let updates = report.outcome.unwrap();
    assert_eq!(updates.len(), 81);
    assert_eq!(values_of(&board), grid_of(CLASSIC_SOLVED));
    assert!(report.perf.elapsed().is_some());
    assert!(report.perf.actions() > 0);
}

#[test]
fn candidate_election_solves_the_classic_puzzle() {
    let mut board = SudokuBoard::new(grid_of(CLASSIC)).unwrap();
    let report = CandidateElection::new(&mut board).resolve();
    let updates = report.outcome.unwrap();
    assert_eq!(updates.len(), 81);
    match updates[0] {
        CliChannelEvent::Update(cell) => {
            assert_eq!(cell.value, Some(5));
            assert!(!cell.editable);
            assert_eq!((cell.x, cell.y), (0, 0));
        }
        CliChannelEvent::ForceLastPrint => panic!("a snapshot holds updates only"),
    }
    assert_eq!(values_of(&board), grid_of(CLASSIC_SOLVED));
}

#[test]
fn a_puzzle_without_solution_is_exhausted_and_unwound() {
    let mut rows = CLASSIC;
    rows[0] = "53..7...6";
    let grid = grid_of(rows);
    let mut board = SudokuBoard::new(grid.clone()).unwrap();
    let report = Backtracking::new(&mut board).resolve();
    assert_eq!(report.outcome, Err(SudokuError::Exhausted));
    assert_eq!(values_of(&board), grid);
}

fn empty_grid() -> Vec<Vec<Option<CellType>>> {
    vec![vec![None; 9]; 9]
}

#[test]
fn both_strategies_find_the_first_solution_of_an_open_puzzle() {
    let mut first = SudokuBoard::new(empty_grid()).unwrap();
    let mut second = SudokuBoard::new(empty_grid()).unwrap();
    assert!(Backtracking::new(&mut first).resolve().outcome.is_ok());
    assert!(CandidateElection::new(&mut second).resolve().outcome.is_ok());
    assert_eq!(values_of(&first), values_of(&second));
    // The first solution in dictionary order over the cells in row-major order.
    let expected = grid_of([
        "123456789",
        "456789123",
        "789123456",
        "214365897",
        "365897214",
        "897214365",
        "531642978",
        "642978531",
        "978531642",
    ]);
    assert_eq!(values_of(&first), expected);
}

#[test]
fn a_run_keeps_the_givens_and_the_editable_cells() {
    let mut board = SudokuBoard::new(grid_of(CLASSIC)).unwrap();
    let before = board.get_editable_cells();
    let report = CandidateElection::new(&mut board).resolve();
    assert!(report.outcome.is_ok());
    assert_eq!(board.get_editable_cells(), before);
    let given = grid_of(CLASSIC);
    for x in 0..9 {
        for y in 0..9 {
            let cell = board.find_cell_from_coordinates(x, y).unwrap();
            assert_eq!(cell.editable, given[x][y].is_none());
            assert!(cell.value.is_some());
            if let Some(v) = given[x][y] {
                assert_eq!(cell.value, Some(v));
            }
        }
    }
    assert!(board.finish().is_ok());
}

#[test]
fn candidate_election_unwinds_an_exhausted_run() {
    let mut rows = CLASSIC;
    rows[0] = "53..7...6";
    let grid = grid_of(rows);
    let mut board = SudokuBoard::new(grid.clone()).unwrap();
    let report = CandidateElection::new(&mut board).resolve();
    assert_eq!(report.outcome, Err(SudokuError::Exhausted));
    assert_eq!(values_of(&board), grid);
    assert!(report.perf.elapsed().is_some());
}

#[test]
fn a_full_board_needs_no_search() {
    let mut board = SudokuBoard::new(grid_of(CLASSIC_SOLVED)).unwrap();
    let report = Backtracking::new(&mut board).resolve();
    assert_eq!(report.outcome.map(|updates| updates.len()), Ok(81));
    assert_eq!(report.perf.actions(), 0);
}

#[test]
fn clashing_givens_make_the_final_check_fail() {
    // Two fives among the givens of the first row: the other cells of the
    // puzzle can still be filled, but the board is no solution.
    let mut rows = CLASSIC_SOLVED;
    rows[0] = "534678915";
    rows[1] = "67219534.";
    let mut board = SudokuBoard::new(grid_of(rows)).unwrap();
    let report = Backtracking::new(&mut board).resolve();
    assert_eq!(report.outcome, Err(SudokuError::Inconsistency));
    assert_eq!(board.find_cell_from_coordinates(1, 8).unwrap().value, Some(8));
}

#[test]
fn a_run_resumes_after_the_digits_it_finds() {
    // A digit placed by hand at the first editable cell is where the search
    // goes on: it tries the digits after it.
    let mut board = SudokuBoard::new(grid_of(CLASSIC)).unwrap();
    board.update_value(0, 2, Some(4)).unwrap();
    let report = Backtracking::new(&mut board).resolve();
    assert_eq!(report.outcome, Err(SudokuError::Exhausted));
    assert_eq!(board.find_cell_from_coordinates(0, 2).unwrap().value, None);
    let mut board = SudokuBoard::new(grid_of(CLASSIC)).unwrap();
    board.update_value(0, 2, Some(2)).unwrap();
    let report = Backtracking::new(&mut board).resolve();
    assert!(report.outcome.is_ok());
    assert_eq!(values_of(&board), grid_of(CLASSIC_SOLVED));
}

#[test]
fn the_plain_search_counts_every_attempt() {
    // One editable cell whose only possible digit is 2: the search tries 1,
    // which the board refuses, then 2.
    let mut rows = CLASSIC_SOLVED;
    rows[1] = "67.195348";
    let mut board = SudokuBoard::new(grid_of(rows)).unwrap();
    let report = Backtracking::new(&mut board).resolve();
    assert!(report.outcome.is_ok());
    assert_eq!(report.perf.actions(), 2);
    // With the candidates made beforehand only 2 is tried.
    let mut board = SudokuBoard::new(grid_of(rows)).unwrap();
    let report = CandidateElection::new(&mut board).resolve();
    assert!(report.outcome.is_ok());
    assert_eq!(report.perf.actions(), 1);
    assert_eq!(board.find_cell_from_coordinates(1, 2).unwrap().value, Some(2));
}

#[test]
fn solve_runs_the_strategy_asked_for_and_candidates_by_default() {
    // One editable cell whose only possible digit is 2: plain backtracking
    // needs two attempts, the candidate list one.
    let mut rows = CLASSIC_SOLVED;
    rows[1] = "67.195348";
    let mut board = SudokuBoard::new(grid_of(rows)).unwrap();
    let report = solve(&mut board, Some(Algorithms::Backtracking));
    assert!(report.outcome.is_ok());
    assert_eq!(report.perf.actions(), 2);
    let mut board = SudokuBoard::new(grid_of(rows)).unwrap();
    let report = solve(&mut board, Some(Algorithms::CandidateElection));
    assert!(report.outcome.is_ok());
    assert_eq!(report.perf.actions(), 1);
    let mut board = SudokuBoard::new(grid_of(rows)).unwrap();
    let report = solve(&mut board, None);
    assert!(report.outcome.is_ok());
    assert_eq!(report.perf.actions(), 1);
    assert_eq!(values_of(&board), grid_of(CLASSIC_SOLVED));
}

#[test]
fn solve_reports_a_puzzle_without_solution() {
    let mut rows = CLASSIC;
    rows[0] = "53..7...6";
    for algorithm in [None, Some(Algorithms::Backtracking), Some(Algorithms::CandidateElection)] {
        let mut board = SudokuBoard::new(grid_of(rows)).unwrap();
        let report = solve(&mut board, algorithm);
        assert_eq!(report.outcome, Err(SudokuError::Exhausted));
        assert_eq!(values_of(&board), grid_of(rows));
    }
}

#[test]
fn a_stale_candidate_is_tried_and_every_attempt_is_counted() {
    // Four open cells. The candidates are made before the run: 4 and 5 at
    // (0, 0), 3 at (0, 1), 4 at (0, 2), 4 at (4, 0). The run places 4 at
    // (0, 0) and 3 at (0, 1), then tries the stale 4 at (0, 2), which the
    // board refuses; it clears (0, 2) and (0, 1), places 5 at (0, 0), then 3,
    // 4 and 4: nine attempts.
    let rows = [
        "...678912",
        "672195348",
        "198342567",
        "859761423",
        ".26853791",
        "713924856",
        "961537284",
        "287419635",
        "345286179",
    ];
    let mut board = SudokuBoard::new(grid_of(rows)).unwrap();
    let report = CandidateElection::new(&mut board).resolve();
    assert!(report.outcome.is_ok());
    assert_eq!(report.perf.actions(), 9);
    assert_eq!(values_of(&board), grid_of(CLASSIC_SOLVED));
    // Plain backtracking tries every digit: 1, 2, 3 are refused at (0, 0)
    // before 4 is placed, and so on.
    let mut board = SudokuBoard::new(grid_of(rows)).unwrap();
    let report = Backtracking::new(&mut board).resolve();
    assert!(report.outcome.is_ok());
    assert_eq!(values_of(&board), grid_of(CLASSIC_SOLVED));
    assert!(report.perf.actions() > 9);
}
