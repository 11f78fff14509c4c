use sudoku_solver::cli::game_updater::CliChannelEvent;
use sudoku_solver::sudoku::board::{CellType, SudokuBoard, SudokuCell, SudokuError};
use sudoku_solver::sudoku::notation::parse_grid;

const CLASSIC: &str = "53..7....\n6..195...\n.98....6.\n8...6...3\n4..8.3..1\n7...2...6\n.6....28.\n...419..5\n....8..79\n";

const CLASSIC_SOLVED: &str = "534678912\n672195348\n198342567\n859761423\n426853791\n713924856\n961537284\n287419635\n345286179\n";

fn classic() -> SudokuBoard {
    SudokuBoard::new(parse_grid(CLASSIC)).unwrap()
}

#[test]
fn valid_values_are_one_to_nine() {
    assert_eq!(SudokuBoard::valid_values(), vec![1, 2, 3, 4, 5, 6, 7, 8, 9]);
    assert_eq!(SudokuBoard::BOARD_N, 3);
    assert_eq!(SudokuBoard::BOARD_MAX_NUMBER, 9);
}

#[test]
fn construction_records_value_flag_and_position() {
    let board = classic();
    let given = board.find_cell_from_coordinates(0, 1).unwrap();
    assert_eq!(*given, SudokuCell { value: Some(3), editable: false, x: 0, y: 1 });
    let blank = board.find_cell_from_coordinates(8, 2).unwrap();
    assert_eq!(*blank, SudokuCell { value: None, editable: true, x: 8, y: 2 });
    let last = board.find_cell_from_coordinates(8, 8).unwrap();
    assert_eq!(*last, SudokuCell { value: Some(9), editable: false, x: 8, y: 8 });
}

#[test]
fn eight_rows_are_refused() {
    let mut grid = parse_grid(CLASSIC);
    grid.pop();
    assert_eq!(grid.len(), 8);
    assert_eq!(SudokuBoard::new(grid).err(), Some(SudokuError::Shape));
}

#[test]
fn ten_rows_are_refused() {
    let mut grid = parse_grid(CLASSIC);
    grid.push(vec![None; 9]);
    assert_eq!(SudokuBoard::new(grid).err(), Some(SudokuError::Shape));
}

#[test]
fn a_short_row_is_refused() {
    let mut grid = parse_grid(CLASSIC);
    grid[4].pop();
    assert_eq!(SudokuBoard::new(grid).err(), Some(SudokuError::Shape));
    let mut grid = parse_grid(CLASSIC);
    grid[8].push(None);
    assert_eq!(SudokuBoard::new(grid).err(), Some(SudokuError::Shape));
}

#[test]
fn lookup_outside_the_grid_is_a_coordinate_error() {
    let board = classic();
    assert_eq!(
        board.find_cell_from_coordinates(9, 0).err(),
        Some(SudokuError::Coordinate { x: 9, y: 0 })
    );
    assert_eq!(
        board.find_cell_from_coordinates(3, 12).err(),
        Some(SudokuError::Coordinate { x: 3, y: 12 })
    );
}

#[test]
fn placement_is_checked_against_row_column_and_box() {
    let board = classic();
    // (0, 2) is empty; its row holds 5, 3, 7, its column 8, its box 5, 3, 6, 9, 8.
    assert!(!board.is_valid_insertion(0, 2, Some(5)));
    assert!(!board.is_valid_insertion(0, 2, Some(7)));
    assert!(!board.is_valid_insertion(0, 2, Some(8)));
    assert!(!board.is_valid_insertion(0, 2, Some(6)));
    assert!(!board.is_valid_insertion(0, 2, Some(9)));
    assert!(board.is_valid_insertion(0, 2, Some(1)));
    assert!(board.is_valid_insertion(0, 2, Some(2)));
    assert!(board.is_valid_insertion(0, 2, Some(4)));
    assert!(board.is_valid_insertion(0, 2, None));
}

#[test]
fn a_cell_counts_against_its_own_value() {
    let mut board = classic();
    assert!(!board.is_valid_insertion(0, 0, Some(5)));
    assert_eq!(board.update_value(0, 2, Some(4)), Ok(()));
    assert!(!board.is_valid_insertion(0, 2, Some(4)));
    assert_eq!(board.update_value(0, 2, Some(4)), Err(SudokuError::Placement));
    assert_eq!(board.update_value(0, 2, Some(1)), Ok(()));
    assert_eq!(board.find_cell_from_coordinates(0, 2).unwrap().value, Some(1));
}

#[test]
fn placement_outside_the_grid_sees_only_what_exists() {
    let board = classic();
    // Row 9 does not exist; column 0 holds 5, 6, 8, 4, 7.
    assert!(!board.is_valid_insertion(9, 0, Some(5)));
    assert!(board.is_valid_insertion(9, 0, Some(1)));
    assert!(board.is_valid_insertion(9, 9, Some(5)));
    assert!(!board.is_valid_insertion(0, 9, Some(3)));
}

#[test]
fn update_stores_a_valid_digit_and_nothing_else_changes() {
    let mut board = classic();
    assert_eq!(board.update_value(0, 2, Some(4)), Ok(()));
    let cell = *board.find_cell_from_coordinates(0, 2).unwrap();
    assert_eq!(cell, SudokuCell { value: Some(4), editable: true, x: 0, y: 2 });
    let fresh = classic();
    for x in 0..9 {
        for y in 0..9 {
            if (x, y) != (0, 2) {
                assert_eq!(
                    board.find_cell_from_coordinates(x, y).unwrap(),
                    fresh.find_cell_from_coordinates(x, y).unwrap()
                );
            }
        }
    }
    assert_eq!(board.update_value(0, 2, None), Ok(()));
    assert_eq!(board.find_cell_from_coordinates(0, 2).unwrap().value, None);
}

#[test]
fn a_refused_update_leaves_the_board_as_it_was() {
    let mut board = classic();
    assert_eq!(board.update_value(0, 2, Some(5)), Err(SudokuError::Placement));
    assert_eq!(board.find_cell_from_coordinates(0, 2).unwrap().value, None);
    assert_eq!(
        board.update_value(9, 2, Some(1)),
        Err(SudokuError::Coordinate { x: 9, y: 2 })
    );
    assert_eq!(
        board.update_value(2, 9, None),
        Err(SudokuError::Coordinate { x: 2, y: 9 })
    );
}

#[test]
fn duplicate_givens_block_the_duplicate_value() {
    let mut grid = parse_grid(CLASSIC);
    grid[0][8] = Some(5);
    let mut board = SudokuBoard::new(grid).unwrap();
    assert!(!board.is_valid_insertion(0, 2, Some(5)));
    assert_eq!(board.update_value(0, 2, Some(5)), Err(SudokuError::Placement));
    assert_eq!(board.update_value(0, 3, Some(5)), Err(SudokuError::Placement));
}

#[test]
fn editable_cells_come_in_row_major_order() {
    let board = classic();
    let cells = board.get_editable_cells();
    assert_eq!(cells.len(), 51);
    assert_eq!(&cells[..6], &[(0, 2), (0, 3), (0, 5), (0, 6), (0, 7), (0, 8)]);
    assert_eq!(cells[6], (1, 1));
    assert_eq!(cells[50], (8, 6));
    let grid = parse_grid(CLASSIC);
    let mut expected = Vec::new();
    for x in 0..9 {
        for y in 0..9 {
            if grid[x][y].is_none() {
                expected.push((x, y));
            }
        }
    }
    assert_eq!(cells, expected);
}

#[test]
fn editable_cells_do_not_change_with_the_values() {
    let mut board = classic();
    let before = board.get_editable_cells();
    assert_eq!(board.get_editable_cells(), before);
    board.update_value(0, 2, Some(4)).unwrap();
    board.update_value(8, 0, Some(3)).unwrap();
    assert_eq!(board.get_editable_cells(), before);
    board.update_value(0, 2, None).unwrap();
    assert_eq!(board.get_editable_cells(), before);
}

#[test]
fn finish_accepts_a_solved_board_and_hands_out_every_cell() {
    let board = SudokuBoard::new(parse_grid(CLASSIC_SOLVED)).unwrap();
    let updates = board.finish().unwrap();
    assert_eq!(updates.len(), 81);
    for (p, update) in updates.iter().enumerate() {
        let cell = *board.find_cell_from_coordinates(p / 9, p % 9).unwrap();
        assert_eq!(*update, CliChannelEvent::Update(cell));
    }
    assert_eq!(
        updates[10],
        CliChannelEvent::Update(SudokuCell { value: Some(7), editable: false, x: 1, y: 1 })
    );
}

#[test]
fn finish_names_the_first_empty_cell_of_its_scan() {
    let mut grid = parse_grid(CLASSIC_SOLVED);
    grid[0][5] = None;
    grid[1][0] = None;
    let board = SudokuBoard::new(grid).unwrap();
    // The scan looks at (0, 1) and then at (1, 0) before it comes to (0, 5).
    assert_eq!(board.finish(), Err(SudokuError::Incomplete { x: 1, y: 0 }));
    let mut grid = parse_grid(CLASSIC_SOLVED);
    grid[4][4] = None;
    let board = SudokuBoard::new(grid).unwrap();
    assert_eq!(board.finish(), Err(SudokuError::Incomplete { x: 4, y: 4 }));
    assert_eq!(classic().finish(), Err(SudokuError::Incomplete { x: 0, y: 2 }));
}

#[test]
fn finish_refuses_a_full_board_with_a_duplicate() {
    let mut grid = parse_grid(CLASSIC_SOLVED);
    grid[0][0] = Some(3);
    let board = SudokuBoard::new(grid).unwrap();
    assert_eq!(board.finish(), Err(SudokuError::Inconsistency));
}

#[test]
fn finish_refuses_full_rows_and_columns_with_wrong_boxes() {
    let mut grid: Vec<Vec<Option<CellType>>> = Vec::new();
    for x in 0..9u16 {
        let mut row = Vec::new();
        for y in 0..9u16 {
            row.push(Some((x + y) % 9 + 1));
        }
        grid.push(row);
    }
    let board = SudokuBoard::new(grid).unwrap();
    assert_eq!(board.finish(), Err(SudokuError::Inconsistency));
}

#[test]
fn finish_refuses_a_digit_out_of_range() {
    let mut grid = parse_grid(CLASSIC_SOLVED);
    grid[0][0] = Some(0);
    let board = SudokuBoard::new(grid).unwrap();
    assert_eq!(board.finish(), Err(SudokuError::Inconsistency));
    let mut grid = parse_grid(CLASSIC_SOLVED);
    grid[8][8] = Some(10);
    let board = SudokuBoard::new(grid).unwrap();
    assert_eq!(board.finish(), Err(SudokuError::Inconsistency));
}
