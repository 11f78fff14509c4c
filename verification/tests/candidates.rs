use sudoku_solver::sudoku::algorithms::base_algorithms::{attempt, BaseAlgorithms};
use sudoku_solver::sudoku::algorithms::backtracking::Backtracking;
use sudoku_solver::sudoku::algorithms::candidate_election::candidates_for;
use sudoku_solver::sudoku::algorithms::perf::PerfTracker;
use sudoku_solver::sudoku::board::SudokuBoard;
use sudoku_solver::sudoku::notation::parse_grid;

const CLASSIC: &str = "53..7....\n6..195...\n.98....6.\n8...6...3\n4..8.3..1\n7...2...6\n.6....28.\n...419..5\n....8..79\n";

#[test]
fn candidates_are_the_allowed_digits_in_ascending_order() {
    let board = SudokuBoard::new(parse_grid(CLASSIC)).unwrap();
    assert_eq!(candidates_for(&board, 0, 2), vec![1, 2, 4]);
    assert_eq!(candidates_for(&board, 4, 4), vec![5]);
    assert_eq!(candidates_for(&board, 8, 0), vec![1, 2, 3]);
    for x in 0..9 {
        for y in 0..9 {
            let expected: Vec<u16> =
                (1..=9).filter(|v| board.is_valid_insertion(x, y, Some(*v))).collect();
            assert_eq!(candidates_for(&board, x, y), expected);
        }
    }
}

#[test]
fn a_given_has_no_candidate_for_its_own_digit() {
    let board = SudokuBoard::new(parse_grid(CLASSIC)).unwrap();
    assert!(!candidates_for(&board, 0, 0).contains(&5));
}

#[test]
fn candidates_follow_the_board_they_are_asked_of() {
    let mut board = SudokuBoard::new(parse_grid(CLASSIC)).unwrap();
    let before = candidates_for(&board, 0, 3);
    assert_eq!(before, vec![2, 6]);
    board.update_value(0, 2, Some(2)).unwrap();
    assert_eq!(candidates_for(&board, 0, 3), vec![6]);
}

#[test]
fn an_attempt_is_counted_whether_or_not_it_is_accepted() {
    let mut board = SudokuBoard::new(parse_grid(CLASSIC)).unwrap();
    let mut perf = PerfTracker::new();
    perf.start();
    assert!(!attempt(&mut board, &mut perf, 0, 2, Some(5)));
    assert_eq!(perf.actions(), 1);
    assert_eq!(board.find_cell_from_coordinates(0, 2).unwrap().value, None);
    assert!(attempt(&mut board, &mut perf, 0, 2, Some(4)));
    assert_eq!(perf.actions(), 2);
    assert_eq!(board.find_cell_from_coordinates(0, 2).unwrap().value, Some(4));
    assert!(Backtracking::update_and_incr(&mut board, &mut perf, 0, 2, None));
    assert_eq!(perf.actions(), 3);
    assert!(!Backtracking::update_and_incr(&mut board, &mut perf, 9, 9, None));
    assert_eq!(perf.actions(), 4);
}
