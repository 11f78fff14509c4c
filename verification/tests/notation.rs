use sudoku_solver::sudoku::notation::{parse_cell, parse_grid, parse_row};

#[test]
fn a_row_string_parses_to_digits_and_blanks() {
    assert_eq!(
        parse_row("53..7...."),
        vec![Some(5), Some(3), None, None, Some(7), None, None, None, None]
    );
}

#[test]
fn every_character_is_one_cell() {
    assert_eq!(parse_row(""), vec![]);
    assert_eq!(parse_row("0 x9é"), vec![Some(0), None, None, Some(9), None]);
    assert_eq!(parse_cell('7'), Some(7));
    assert_eq!(parse_cell('0'), Some(0));
    assert_eq!(parse_cell('.'), None);
    assert_eq!(parse_cell('/'), None);
    assert_eq!(parse_cell(':'), None);
}

#[test]
fn a_text_parses_line_by_line() {
    assert_eq!(parse_grid("12\n.4\n"), vec![vec![Some(1), Some(2)], vec![None, Some(4)]]);
    assert_eq!(parse_grid("12\n.4"), vec![vec![Some(1), Some(2)], vec![None, Some(4)]]);
    assert_eq!(parse_grid(""), Vec::<Vec<Option<u16>>>::new());
    assert_eq!(parse_grid("\n"), vec![vec![]]);
    assert_eq!(parse_grid("1\n\n2"), vec![vec![Some(1)], vec![], vec![Some(2)]]);
}

#[test]
fn a_carriage_return_before_a_line_feed_belongs_to_the_line_end() {
    assert_eq!(parse_grid("12\r\n34\r\n"), vec![vec![Some(1), Some(2)], vec![Some(3), Some(4)]]);
    assert_eq!(parse_grid("12\r"), vec![vec![Some(1), Some(2), None]]);
    assert_eq!(parse_grid("1\r2\n"), vec![vec![Some(1), None, Some(2)]]);
    assert_eq!(parse_grid("\r\n"), vec![vec![]]);
}

#[test]
fn parsing_agrees_with_the_lines_of_the_standard_library() {
    let texts = ["53..7....\n6..195...", "a\r\n\r\nb\r", "\n\n", "x\r\r\ny", "9"];
    for text in texts.iter() {
        let expected: Vec<Vec<Option<u16>>> = text
            .lines()
            .map(|line| line.chars().map(|c| c.to_digit(10).map(|d| d as u16)).collect())
            .collect();
        assert_eq!(parse_grid(text), expected);
    }
}
