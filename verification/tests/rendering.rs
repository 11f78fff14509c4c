use sudoku_solver::cli::game_updater::{CliChannelEvent, GameUpdater, UpdaterAction};
use sudoku_solver::cli::sudoku_printer::{decimal, SudokuPrinter, BOARD_LENGTH};
use sudoku_solver::sudoku::board::SudokuCell;

fn cell(x: usize, y: usize, value: Option<u16>, editable: bool) -> SudokuCell {
    SudokuCell { value, editable, x, y }
}

fn plain_frame_of_blank_board() -> String {
    let rule = "-".repeat(21);
    let line = "|? ? ? |? ? ? |? ? ? ";
    let mut text = String::new();
    for x in 0..9 {
        if x % 3 == 0 {
            text.push_str(&rule);
            text.push('\n');
        }
        text.push_str(line);
        text.push('\n');
    }
    text
}

#[test]
fn decimal_writes_numbers() {
    assert_eq!(decimal(0), "0");
    assert_eq!(decimal(7), "7");
    assert_eq!(decimal(10), "10");
    assert_eq!(decimal(409), "409");
    assert_eq!(decimal(65535), "65535");
    assert_eq!(BOARD_LENGTH, 21);
}

#[test]
fn compose_sets_cells_into_bars_and_rules() {
    let painted: Vec<Vec<String>> = vec![
        vec!["a".to_string(), "b".to_string(), "c".to_string(), "d".to_string()],
        vec![],
        vec!["xy".to_string()],
        vec!["1".to_string(), "2".to_string()],
    ];
    let rule = "-".repeat(21);
    let expected = format!("{rule}\n|a b c |d \n\n|xy \n{rule}\n|1 2 \n");
    assert_eq!(SudokuPrinter::compose(&painted), expected);
    assert_eq!(SudokuPrinter::compose(&Vec::new()), "");
}

#[test]
fn without_colours_a_blank_board_is_drawn_in_plain_text() {
    colored::control::set_override(false);
    let printer = SudokuPrinter::new();
    assert_eq!(printer.render(), plain_frame_of_blank_board());
}

#[test]
fn without_colours_digits_are_drawn_as_they_are() {
    colored::control::set_override(false);
    let mut printer = SudokuPrinter::new();
    printer.board[0][0] = cell(0, 0, Some(5), false);
    printer.board[0][4] = cell(0, 4, Some(7), true);
    printer.board[8][8] = cell(8, 8, Some(12), true);
    let text = printer.render();
    let lines: Vec<&str> = text.lines().collect();
    assert_eq!(lines.len(), 12);
    assert_eq!(lines[0], "-".repeat(21));
    assert_eq!(lines[1], "|5 ? ? |? 7 ? |? ? ? ");
    assert_eq!(lines[4], "-".repeat(21));
    assert_eq!(lines[11], "|? ? ? |? ? ? |? ? 12 ");
}

#[test]
fn with_colours_a_given_is_blue_a_found_digit_yellow_and_a_blank_red() {
    colored::control::set_override(true);
    assert_eq!(SudokuPrinter::paint(&cell(0, 0, Some(5), false)), "\u{1b}[34m5\u{1b}[0m");
    assert_eq!(SudokuPrinter::paint(&cell(0, 0, Some(5), true)), "\u{1b}[33m5\u{1b}[0m");
    assert_eq!(SudokuPrinter::paint(&cell(0, 0, None, true)), "\u{1b}[31m?\u{1b}[0m");
    assert_eq!(SudokuPrinter::paint(&cell(0, 0, None, false)), "\u{1b}[31m?\u{1b}[0m");
    let printer = SudokuPrinter::new();
    let text = printer.render();
    let lines: Vec<&str> = text.lines().collect();
    // Bars and rules carry no colour: only the cells do.
    assert_eq!(lines[0], "-".repeat(21));
    let red = "\u{1b}[31m?\u{1b}[0m ";
    assert_eq!(lines[1], format!("|{red}{red}{red}|{red}{red}{red}|{red}{red}{red}"));
}

#[test]
fn the_default_interval_is_a_hundred_milliseconds() {
    colored::control::set_override(false);
    let mut updater = GameUpdater::new(None);
    let update = Some(CliChannelEvent::Update(cell(0, 0, Some(1), true)));
    assert_eq!(updater.listen(update, 1_000), UpdaterAction::Hold);
    assert_eq!(updater.listen(update, 1_099), UpdaterAction::Hold);
    assert!(matches!(updater.listen(update, 1_100), UpdaterAction::Render(_)));
    assert_eq!(updater.listen(update, 1_199), UpdaterAction::Hold);
    assert!(matches!(updater.listen(update, 1_200), UpdaterAction::Render(_)));
}

#[test]
fn the_first_update_opens_the_interval_and_later_ones_wait_for_it() {
    colored::control::set_override(false);
    let mut updater = GameUpdater::new(Some(50));
    let mut drawn = Vec::new();
    let times = [0u64, 10, 49, 50, 60, 99, 100, 170, 171, 219, 220];
    for (k, now) in times.iter().enumerate() {
        let update = CliChannelEvent::Update(cell(k % 9, 0, Some(1 + (k % 9) as u16), true));
        match updater.listen(Some(update), *now) {
            UpdaterAction::Render(_) => drawn.push(*now),
            UpdaterAction::Hold => {}
            UpdaterAction::Stop(_) => panic!("an update does not stop the renderer"),
        }
    }
    assert_eq!(drawn, vec![50, 100, 170, 220]);
    let at_the_end = match updater.listen(Some(CliChannelEvent::ForceLastPrint), 221) {
        UpdaterAction::Stop(Some(_)) => 1,
        _ => 0,
    };
    assert_eq!(at_the_end, 1);
    // At most the span over the interval, rounded up, and one.
    assert!(drawn.len() as u64 + at_the_end <= (220 - 0 + 49) / 50 + 1);
}

#[test]
fn a_single_update_is_drawn_once_at_the_end_of_the_run() {
    colored::control::set_override(false);
    let mut updater = GameUpdater::new(Some(30));
    let update = CliChannelEvent::Update(cell(0, 0, Some(5), false));
    assert_eq!(updater.listen(Some(update), 7), UpdaterAction::Hold);
    assert!(matches!(
        updater.listen(Some(CliChannelEvent::ForceLastPrint), 8),
        UpdaterAction::Stop(Some(_))
    ));
}

#[test]
fn updates_a_whole_interval_apart_meet_the_bound() {
    colored::control::set_override(false);
    let mut updater = GameUpdater::new(Some(10));
    let mut draws = 0u64;
    for now in [100u64, 110, 120, 130] {
        let update = CliChannelEvent::Update(cell(1, 1, Some(2), true));
        if let UpdaterAction::Render(_) = updater.listen(Some(update), now) {
            draws += 1;
        }
    }
    if let UpdaterAction::Stop(Some(_)) = updater.listen(None, 131) {
        draws += 1;
    }
    assert_eq!(draws, 4);
    assert_eq!((130 - 100 + 9) / 10 + 1, 4);
}

#[test]
fn an_interval_of_zero_draws_every_update() {
    colored::control::set_override(false);
    let mut updater = GameUpdater::new(Some(0));
    for now in [5u64, 5, 5, 6, 3] {
        let update = CliChannelEvent::Update(cell(1, 1, Some(2), false));
        assert!(matches!(updater.listen(Some(update), now), UpdaterAction::Render(_)));
    }
}

#[test]
fn the_end_of_the_run_draws_the_latest_state_whatever_the_time() {
    colored::control::set_override(false);
    let mut updater = GameUpdater::new(Some(1_000));
    let first = updater.listen(Some(CliChannelEvent::Update(cell(0, 0, Some(5), false))), 10);
    assert_eq!(first, UpdaterAction::Hold);
    let second = updater.listen(Some(CliChannelEvent::Update(cell(0, 1, Some(3), true))), 11);
    assert_eq!(second, UpdaterAction::Hold);
    match updater.listen(Some(CliChannelEvent::ForceLastPrint), 12) {
        UpdaterAction::Stop(Some(text)) => {
            assert!(text.starts_with(&format!("{}\n|5 3 ? |", "-".repeat(21))));
        }
        _ => panic!("the latest state is drawn at the end"),
    }
}

#[test]
fn a_drawn_update_shows_the_screen_as_it_stands() {
    colored::control::set_override(false);
    let mut updater = GameUpdater::new(Some(5));
    updater.listen(Some(CliChannelEvent::Update(cell(0, 0, Some(5), false))), 0);
    match updater.listen(Some(CliChannelEvent::Update(cell(0, 1, Some(3), true))), 5) {
        UpdaterAction::Render(text) => {
            assert!(text.starts_with(&format!("{}\n|5 3 ? |", "-".repeat(21))));
        }
        _ => panic!("an update after a whole interval is drawn"),
    }
}

#[test]
fn a_lost_sender_ends_the_run_like_the_last_message() {
    colored::control::set_override(false);
    let mut updater = GameUpdater::new(Some(10));
    assert_eq!(updater.listen(None, 0), UpdaterAction::Stop(None));
    let mut updater = GameUpdater::new(Some(10));
    updater.listen(Some(CliChannelEvent::Update(cell(2, 2, Some(9), true))), 0);
    assert!(matches!(updater.listen(None, 1), UpdaterAction::Stop(Some(_))));
}

#[test]
fn without_any_update_there_is_nothing_to_draw_at_the_end() {
    let mut updater = GameUpdater::new(None);
    assert_eq!(updater.listen(Some(CliChannelEvent::ForceLastPrint), 0), UpdaterAction::Stop(None));
}

#[test]
fn format_takes_value_and_flag_into_the_screen() {
    colored::control::set_override(false);
    let mut updater = GameUpdater::new(None);
    let text = updater.format(cell(3, 4, Some(6), true));
    let lines: Vec<&str> = text.lines().collect();
    assert_eq!(lines[5], "|? ? ? |? 6 ? |? ? ? ");
    let text = updater.format(cell(3, 4, None, true));
    assert_eq!(text, plain_frame_of_blank_board());
}
