//! Draws a board as text: digits in colour, boxes set apart by bars and
//! rules.

use crate::sudoku::board::{CellType, SudokuBoard, SudokuCell};
use colored::Colorize;
use vstd::prelude::*;
use vstd::string::StringExecFns;

verus! {

/// The width of the divider between two boxes.
pub const BOARD_DIVIDER_LENGTH: usize = 2;

pub const BOARD_MAX_NUMBER: usize = SudokuBoard::BOARD_MAX_NUMBER;

pub const BOARD_N: usize = SudokuBoard::BOARD_N;

/// The width of a rule: nine digits with a blank between them, and two
/// dividers.
pub const BOARD_LENGTH: usize = (BOARD_MAX_NUMBER * 2 - 1) + BOARD_DIVIDER_LENGTH * 2;

/// The character of one decimal digit.
pub open spec fn digit_char(d: int) -> char {
    if d == 0 {
        '0'
    } else if d == 1 {
        '1'
    } else if d == 2 {
        '2'
    } else if d == 3 {
        '3'
    } else if d == 4 {
        '4'
    } else if d == 5 {
        '5'
    } else if d == 6 {
        '6'
    } else if d == 7 {
        '7'
    } else if d == 8 {
        '8'
    } else {
        '9'
    }
}

/// A number written in decimal.
pub open spec fn decimal_text(v: nat) -> Seq<char>
    decreases v,
{
    if v < 10 {
        seq![digit_char(v as int)]
    } else {
        decimal_text(v / 10).push(digit_char((v % 10) as int))
    }
}

/// The escape character that opens a terminal control sequence.
pub open spec fn escape() -> char {
    '\x1b'
}

/// Whether the text holds no escape character.
pub open spec fn is_plain(text: Seq<char>) -> bool {
    forall|i: int| 0 <= i < text.len() ==> #[trigger] text[i] != escape()
}

/// What a colouring makes of a plain text: the text itself where colours are
/// switched off, else the text between the colour's opening sequence and the
/// reset sequence.
pub open spec fn is_painting(out: Seq<char>, text: Seq<char>, code: Seq<char>) -> bool {
    out == text || out == seq![escape(), '['] + code + seq!['m'] + text + seq![
        escape(),
        '[',
        '0',
        'm',
    ]
}

/// The text of a cell before colouring: its digit, or a question mark.
pub open spec fn cell_text(cell: SudokuCell) -> Seq<char> {
    match cell.value {
        Some(v) => decimal_text(v as nat),
        None => seq!['?'],
    }
}

/// The colour of a cell: yellow for a digit of the search, blue for a given,
/// red for an empty cell.
pub open spec fn cell_code(cell: SudokuCell) -> Seq<char> {
    match cell.value {
        Some(_) => if cell.editable {
            seq!['3', '3']
        } else {
            seq!['3', '4']
        },
        None => seq!['3', '1'],
    }
}

/// The first `upto` cells of a row: a bar before every third cell, and a
/// blank after each.
pub open spec fn line_text(painted: Seq<Seq<char>>, upto: int) -> Seq<char>
    decreases upto,
{
    if upto <= 0 {
        Seq::empty()
    } else {
        line_text(painted, upto - 1) + (if (upto - 1) % 3 == 0 {
            seq!['|']
        } else {
            Seq::empty()
        }) + painted[upto - 1] + seq![' ']
    }
}

/// A rule: as many dashes as the board is wide.
pub open spec fn rule_text() -> Seq<char> {
    Seq::new(BOARD_LENGTH as nat, |i: int| '-')
}

/// The first `upto` rows: a rule before every third row, and every row on a
/// line of its own.
pub open spec fn frame_text(painted: Seq<Seq<Seq<char>>>, upto: int) -> Seq<char>
    decreases upto,
{
    if upto <= 0 {
        Seq::empty()
    } else {
        frame_text(painted, upto - 1) + (if (upto - 1) % 3 == 0 {
            rule_text() + seq!['\n']
        } else {
            Seq::empty()
        }) + line_text(painted[upto - 1], painted[upto - 1].len() as int) + seq!['\n']
    }
}

/// The texts of painted cells, as sequences.
pub open spec fn texts_of(painted: Seq<Vec<String>>) -> Seq<Seq<Seq<char>>> {
    Seq::new(painted.len(), |x: int| Seq::new(painted[x]@.len(), |y: int| painted[x]@[y]@))
}

/// Whether `painted` holds a colouring of each cell of `board`.
pub open spec fn paints(painted: Seq<Seq<Seq<char>>>, board: [[SudokuCell; 9]; 9]) -> bool {
    &&& painted.len() == 9
    &&& forall|x: int| 0 <= x < 9 ==> (#[trigger] painted[x]).len() == 9
    &&& forall|x: int, y: int|
        0 <= x < 9 && 0 <= y < 9 ==> is_painting(
            #[trigger] painted[x][y],
            cell_text(board[x][y]),
            cell_code(board[x][y]),
        )
}

/// Whether `text` is a drawing of `board`: its cells, each in one of the two
/// forms a colouring can take, set into the frame.
pub open spec fn is_drawing(text: Seq<char>, board: [[SudokuCell; 9]; 9]) -> bool {
    exists|painted: Seq<Seq<Seq<char>>>|
        paints(painted, board) && text == #[trigger] frame_text(painted, 9)
}

/// `Colorize::yellow` on a text and `Display` of what it gives: the text as
/// it is where the crate finds colours switched off, else wrapped in the
/// sequence for yellow and the reset sequence. A text with an escape
/// character is left out: the crate rewrites reset sequences inside it.
#[verifier::external_body]
fn paint_yellow(text: &str) -> (out: String)
    requires
        is_plain(text@),
    ensures
        is_painting(out@, text@, seq!['3', '3']),
{
    format!("{}", text.yellow())
}

/// `Colorize::blue` on a text and `Display` of what it gives; as for yellow,
/// with the sequence for blue.
#[verifier::external_body]
fn paint_blue(text: &str) -> (out: String)
    requires
        is_plain(text@),
    ensures
        is_painting(out@, text@, seq!['3', '4']),
{
    format!("{}", text.blue())
}

/// `Colorize::red` on a text and `Display` of what it gives; as for yellow,
/// with the sequence for red.
#[verifier::external_body]
fn paint_red(text: &str) -> (out: String)
    requires
        is_plain(text@),
    ensures
        is_painting(out@, text@, seq!['3', '1']),
{
    format!("{}", text.red())
}

/// `Colorize::white` on a text, read back through `Deref`: the coloured
/// string hands out the text it was made of, without any colour.
#[verifier::external_body]
fn white_text(text: &str) -> (out: String)
    ensures
        out@ == text@,
{
    let coloured = text.white();
    String::from(&*coloured)
}

/// `Colorize::on_white` on a text, read back through `Deref`: again the text
/// it was made of.
#[verifier::external_body]
fn on_white_text(text: &str) -> (out: String)
    ensures
        out@ == text@,
{
    let coloured = text.on_white();
    String::from(&*coloured)
}

fn digit_text(d: CellType) -> (text: &'static str)
    requires
        d < 10,
    ensures
        text@ == seq![digit_char(d as int)],
{
    proof {
        reveal_strlit("0");
        reveal_strlit("1");
        reveal_strlit("2");
        reveal_strlit("3");
        reveal_strlit("4");
        reveal_strlit("5");
        reveal_strlit("6");
        reveal_strlit("7");
        reveal_strlit("8");
        reveal_strlit("9");
    }
    let text = if d == 0 {
        "0"
    } else if d == 1 {
        "1"
    } else if d == 2 {
        "2"
    } else if d == 3 {
        "3"
    } else if d == 4 {
        "4"
    } else if d == 5 {
        "5"
    } else if d == 6 {
        "6"
    } else if d == 7 {
        "7"
    } else if d == 8 {
        "8"
    } else {
        "9"
    };
    assert(text@ =~= seq![digit_char(d as int)]);
    text
}

/// A number in decimal holds digits only.
pub proof fn lemma_decimal_is_plain(v: nat)
    ensures
        is_plain(decimal_text(v)),
        decimal_text(v).len() > 0,
    decreases v,
{
    if v >= 10 {
        lemma_decimal_is_plain(v / 10);
    }
}

/// Writes a number in decimal.
pub fn decimal(value: CellType) -> (text: String)
    ensures
        text@ == decimal_text(value as nat),
    decreases value,
{
    if value < 10 {
        String::from_str(digit_text(value))
    } else {
        let mut text = decimal(value / 10);
        text.append(digit_text(value % 10));
        text
    }
}

/// The cells a renderer has heard of, ready to be drawn.
pub struct SudokuPrinter {
    pub board: [[SudokuCell; BOARD_MAX_NUMBER]; BOARD_MAX_NUMBER],
}

impl SudokuPrinter {
    /// A printer that has seen no cell yet: every cell empty.
    pub fn new() -> (printer: Self)
        ensures
            forall|x: int, y: int|
                0 <= x < 9 && 0 <= y < 9 ==> #[trigger] printer.board[x][y] == (SudokuCell {
                    editable: false,
                    value: None,
                    x: 0,
                    y: 0,
                }),
    {
        SudokuPrinter {
            board: [[SudokuCell { editable: false, value: None, x: 0, y: 0 }; 9]; 9],
        }
    }

    /// The coloured text of one cell.
    pub fn paint(cell: &SudokuCell) -> (out: String)
        ensures
            is_painting(out@, cell_text(*cell), cell_code(*cell)),
    {
        match cell.value {
            Some(match_value) => {
                let text = decimal(match_value);
                proof {
                    lemma_decimal_is_plain(match_value as nat);
                }
                if cell.editable {
                    paint_yellow(text.as_str())
                } else {
                    paint_blue(text.as_str())
                }
            },
            None => {
                proof {
                    reveal_strlit("?");
                }
                assert("?"@ =~= seq!['?']);
                paint_red("?")
            },
        }
    }

    /// The coloured texts of all cells, row by row.
    pub fn paint_cells(&self) -> (painted: Vec<Vec<String>>)
        ensures
            paints(texts_of(painted@), self.board),
    {
        let mut painted: Vec<Vec<String>> = Vec::new();
        let mut x: usize = 0;
        while x < BOARD_MAX_NUMBER
            invariant
                x <= 9,
                painted@.len() == x,
                forall|i: int| 0 <= i < x ==> (#[trigger] painted@[i])@.len() == 9,
                forall|i: int, j: int|
                    0 <= i < x && 0 <= j < 9 ==> is_painting(
                        #[trigger] painted@[i]@[j]@,
                        cell_text(self.board[i][j]),
                        cell_code(self.board[i][j]),
                    ),
            decreases 9 - x,
        {
            let mut row: Vec<String> = Vec::new();
            let mut y: usize = 0;
            while y < BOARD_MAX_NUMBER
                invariant
                    x < 9,
                    y <= 9,
                    row@.len() == y,
                    forall|j: int|
                        0 <= j < y ==> is_painting(
                            #[trigger] row@[j]@,
                            cell_text(self.board[x as int][j]),
                            cell_code(self.board[x as int][j]),
                        ),
                decreases 9 - y,
            {
                let cell = self.board[x][y];
                row.push(Self::paint(&cell));
                y += 1;
            }
            painted.push(row);
            x += 1;
        }
        proof {
            let texts = texts_of(painted@);
            assert forall|i: int, j: int| 0 <= i < 9 && 0 <= j < 9 implies is_painting(
                #[trigger] texts[i][j],
                cell_text(self.board[i][j]),
                cell_code(self.board[i][j]),
            ) by {
                assert(texts[i][j] == painted@[i]@[j]@);
            }
        }
        painted
    }

    /// Sets painted cells into the frame: a bar before every third cell, a
    /// blank after every cell, a rule before every third row.
    pub fn compose(painted: &Vec<Vec<String>>) -> (out: String)
        ensures
            out@ == frame_text(texts_of(painted@), painted@.len() as int),
    {
        let ghost texts = texts_of(painted@);
        let mut output = String::new();
        let bar = white_text("|");
        let mut dashes = String::new();
        let mut d: usize = 0;
        proof {
            reveal_strlit("-");
            reveal_strlit("|");
            reveal_strlit(" ");
            reveal_strlit("\n");
        }
        while d < BOARD_LENGTH
            invariant
                d <= 21,
                "-"@ == seq!['-'],
                dashes@ == Seq::new(d as nat, |i: int| '-'),
            decreases 21 - d,
        {
            dashes.append("-");
            assert(dashes@ =~= Seq::new((d + 1) as nat, |i: int| '-'));
            d += 1;
        }
        let rule = on_white_text(dashes.as_str());
        let mut x: usize = 0;
        while x < painted.len()
            invariant
                x <= painted@.len(),
                texts == texts_of(painted@),
                bar@ == seq!['|'],
                rule@ == rule_text(),
                " "@ == seq![' '],
                "\n"@ == seq!['\n'],
                output@ == frame_text(texts, x as int),
            decreases painted@.len() - x,
        {
            let row = &painted[x];
            let mut line_str = String::new();
            let mut y: usize = 0;
            while y < row.len()
                invariant
                    x < painted@.len(),
                    y <= row@.len(),
                    *row == painted@[x as int],
                    texts == texts_of(painted@),
                    bar@ == seq!['|'],
                    " "@ == seq![' '],
                    line_str@ == line_text(texts[x as int], y as int),
                decreases row@.len() - y,
            {
                if y % BOARD_N == 0 {
                    line_str.append(bar.as_str());
                }
                line_str.append(row[y].as_str());
                line_str.append(" ");
                assert(texts[x as int][y as int] == row@[y as int]@);
                assert(line_str@ =~= line_text(texts[x as int], y + 1));
                y += 1;
            }
            if x % BOARD_N == 0 {
                output.append(rule.as_str());
                output.append("\n");
            }
            output.append(line_str.as_str());
            output.append("\n");
            assert(texts[x as int].len() == row@.len());
            assert(output@ =~= frame_text(texts, x + 1));
            x += 1;
        }
        output
    }

    /// The board as text.
    pub fn render(&self) -> (out: String)
        ensures
            is_drawing(out@, self.board),
    {
        let painted = self.paint_cells();
        let out = Self::compose(&painted);
        assert(paints(texts_of(painted@), self.board) && out@ == frame_text(texts_of(painted@), 9));
        out
    }
}

} // verus!
