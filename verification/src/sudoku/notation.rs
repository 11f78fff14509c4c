//! The text form of a puzzle: one line for each row, a digit for a given and
//! any other character for an empty cell.

use crate::sudoku::board::CellType;
use vstd::prelude::*;

verus! {

/// The digit that a character stands for, if it is one of `0` to `9`.
pub open spec fn digit_of(c: char) -> Option<CellType> {
    if '0' <= c && c <= '9' {
        Some((c as int - '0' as int) as CellType)
    } else {
        None
    }
}

/// The cells that a line of text stands for, character by character.
pub open spec fn row_of(line: Seq<char>) -> Seq<Option<CellType>> {
    Seq::new(line.len(), |i: int| digit_of(line[i]))
}

/// The digit of a character.
pub fn parse_cell(c: char) -> (cell: Option<CellType>)
    ensures
        cell == digit_of(c),
{
    if '0' <= c && c <= '9' {
        Some((c as u32 - '0' as u32) as CellType)
    } else {
        None
    }
}

/// The cells of one line of a puzzle.
pub fn parse_row(line: &str) -> (cells: Vec<Option<CellType>>)
    ensures
        cells@ == row_of(line@),
{
    let mut cells: Vec<Option<CellType>> = Vec::new();
    for c in it: line.chars()
        invariant
            it.seq() == line@,
            cells@ == row_of(line@.take(it.index() as int)),
    {
        cells.push(parse_cell(c));
        assert(cells@ =~= row_of(line@.take(it.index() + 1)));
    }
    assert(line@.take(line@.len() as int) =~= line@);
    cells
}

/// A line without the carriage return that may end it.
pub open spec fn without_return(line: Seq<char>) -> Seq<char> {
    if line.len() > 0 && line.last() == '\r' {
        line.drop_last()
    } else {
        line
    }
}

/// The first `n` characters of a text, split at line feeds: the lines that
/// a line feed has ended, each without the carriage return before the line
/// feed, and the characters after the last line feed.
pub open spec fn split_upto(text: Seq<char>, n: nat) -> (Seq<Seq<char>>, Seq<char>)
    decreases n,
{
    if n == 0 {
        (Seq::empty(), Seq::empty())
    } else {
        let (lines, open) = split_upto(text, (n - 1) as nat);
        let c = text[n - 1];
        if c == '\n' {
            (lines.push(without_return(open)), Seq::empty())
        } else {
            (lines, open.push(c))
        }
    }
}

/// The lines of a text. A line ends at a line feed, or at a carriage return
/// and a line feed; the last line need not be ended.
pub open spec fn lines_of(text: Seq<char>) -> Seq<Seq<char>> {
    let (lines, open) = split_upto(text, text.len());
    if open.len() > 0 {
        lines.push(open)
    } else {
        lines
    }
}

/// The matrix that a text stands for: a row for each line.
pub open spec fn grid_of(text: Seq<char>) -> Seq<Seq<Option<CellType>>> {
    Seq::new(lines_of(text).len(), |x: int| row_of(lines_of(text)[x]))
}

/// The cells of a matrix, row by row, as sequences.
pub open spec fn rows_of(grid: Seq<Vec<Option<CellType>>>) -> Seq<Seq<Option<CellType>>> {
    Seq::new(grid.len(), |x: int| grid[x]@)
}

/// The matrix of a puzzle given as text.
pub fn parse_grid(text: &str) -> (grid: Vec<Vec<Option<CellType>>>)
    ensures
        rows_of(grid@) == grid_of(text@),
{
    let mut grid: Vec<Vec<Option<CellType>>> = Vec::new();
    let mut list: Vec<Option<CellType>> = Vec::new();
    let mut after_return = false;
    for c in it: text.chars()
        invariant
            it.seq() == text@,
            rows_of(grid@).len() == split_upto(text@, it.index() as nat).0.len(),
            forall|x: int|
                0 <= x < grid@.len() ==> (#[trigger] grid@[x])@ == row_of(
                    split_upto(text@, it.index() as nat).0[x],
                ),
            list@ == row_of(split_upto(text@, it.index() as nat).1),
            after_return == (split_upto(text@, it.index() as nat).1.len() > 0 && split_upto(
                text@,
                it.index() as nat,
            ).1.last() == '\r'),
    {
        let ghost before = split_upto(text@, it.index() as nat);
        let ghost after = split_upto(text@, (it.index() + 1) as nat);
        assert(text@[it.index() as int] == c);
        if c == '\n' {
            if after_return {
                list.pop();
            }
            assert(list@ =~= row_of(without_return(before.1)));
            grid.push(list);
            list = Vec::new();
            after_return = false;
            assert(list@ =~= row_of(after.1));
        } else {
            list.push(parse_cell(c));
            after_return = c == '\r';
            assert(list@ =~= row_of(after.1));
        }
    }
    if list.len() > 0 {
        grid.push(list);
    }
    assert(rows_of(grid@) =~= grid_of(text@));
    grid
}

} // verus!
