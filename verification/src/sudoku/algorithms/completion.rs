//! What a search looks for: a digit for every editable cell such that no
//! digit meets its like in a row, a column or a box.

use crate::sudoku::board::{in_grid, sees, CellType, SudokuBoard};
use vstd::prelude::*;

verus! {

/// Digits in strictly ascending order, each one of `1..=9`.
pub open spec fn ascending_digits(list: Seq<CellType>) -> bool {
    &&& forall|c: int| 0 <= c < list.len() ==> 1 <= #[trigger] list[c] <= 9
    &&& forall|c1: int, c2: int|
        0 <= c1 < c2 < list.len() ==> #[trigger] list[c1] < #[trigger] list[c2]
}

/// What a search over `board` works on: its editable cells in row-major
/// order and, for each, the digits to try in ascending order.
pub open spec fn is_plan(
    board: &SudokuBoard,
    cells: Seq<(usize, usize)>,
    choices: Seq<Seq<CellType>>,
) -> bool {
    &&& cells == board.editable_cells()
    &&& choices.len() == cells.len()
    &&& forall|k: int| 0 <= k < choices.len() ==> ascending_digits(#[trigger] choices[k])
}

/// The value that `board` holds at cell `k` of `cells`.
pub open spec fn held(board: &SudokuBoard, cells: Seq<(usize, usize)>, k: int) -> Option<CellType> {
    board.value_at(cells[k].0 as int, cells[k].1 as int)
}

/// The digits that `board` holds at the cells of `cells`, in their order.
pub open spec fn assignment(board: &SudokuBoard, cells: Seq<(usize, usize)>) -> Seq<CellType> {
    Seq::new(cells.len(), |k: int| held(board, cells, k)->0)
}

/// Cells `l` and `k` of `cells` share a row, a column or a box.
pub open spec fn cells_see(cells: Seq<(usize, usize)>, l: int, k: int) -> bool {
    sees(cells[l].0 as int, cells[l].1 as int, cells[k].0 as int, cells[k].1 as int)
}

/// The digit `a[k]` meets its like neither among the givens that cell `k`
/// sees nor among the digits of the earlier cells that it sees.
pub open spec fn fits(board: &SudokuBoard, cells: Seq<(usize, usize)>, a: Seq<CellType>, k: int) -> bool {
    &&& forall|i: int, j: int|
        in_grid(i, j) && sees(cells[k].0 as int, cells[k].1 as int, i, j) && !board.editable_at(
            i,
            j,
        ) ==> #[trigger] board.value_at(i, j) != Some(a[k])
    &&& forall|l: int| 0 <= l < k && cells_see(cells, l, k) ==> #[trigger] a[l] != a[k]
}

/// Digits for the first cells of the plan, each drawn from the choices of
/// its cell and fitting with the givens and the digits before it.
pub open spec fn is_partial(
    board: &SudokuBoard,
    cells: Seq<(usize, usize)>,
    choices: Seq<Seq<CellType>>,
    a: Seq<CellType>,
) -> bool {
    &&& a.len() <= cells.len()
    &&& forall|k: int|
        0 <= k < a.len() ==> (#[trigger] choices[k]).contains(a[k]) && fits(board, cells, a, k)
}

/// A digit for every cell of the plan.
pub open spec fn is_completion(
    board: &SudokuBoard,
    cells: Seq<(usize, usize)>,
    choices: Seq<Seq<CellType>>,
    a: Seq<CellType>,
) -> bool {
    a.len() == cells.len() && is_partial(board, cells, choices, a)
}

/// `a` and `b` hold the same digits at the first `upto` cells.
pub open spec fn agree(a: Seq<CellType>, b: Seq<CellType>, upto: int) -> bool {
    forall|l: int| 0 <= l < upto ==> #[trigger] a[l] == b[l]
}

/// `t` comes before `a`, or is a prefix of it, in dictionary order.
pub open spec fn lex_le(t: Seq<CellType>, a: Seq<CellType>) -> bool {
    forall|j: int| 0 <= j < t.len() && agree(a, t, j) ==> #[trigger] a[j] >= t[j]
}

/// `t` is the first completion in dictionary order.
pub open spec fn is_least_completion(
    board: &SudokuBoard,
    cells: Seq<(usize, usize)>,
    choices: Seq<Seq<CellType>>,
    t: Seq<CellType>,
) -> bool {
    &&& is_completion(board, cells, choices, t)
    &&& forall|a: Seq<CellType>| #[trigger] is_completion(board, cells, choices, a) ==> lex_le(t, a)
}

/// The plan has a completion.
pub open spec fn can_complete(
    board: &SudokuBoard,
    cells: Seq<(usize, usize)>,
    choices: Seq<Seq<CellType>>,
) -> bool {
    exists|a: Seq<CellType>| is_completion(board, cells, choices, a)
}

/// A list of ascending digits holds at most nine, and the digit at index `c`
/// is more than `c`.
pub proof fn lemma_ascending_digits(list: Seq<CellType>, c: int)
    requires
        ascending_digits(list),
        0 <= c < list.len(),
    ensures
        c < list[c],
        list.len() <= 9,
    decreases c,
{
    if c > 0 {
        lemma_ascending_digits(list, c - 1);
    }
    if list.len() > 9 {
        lemma_ascending_rank(list, 9);
    }
}

proof fn lemma_ascending_rank(list: Seq<CellType>, c: int)
    requires
        ascending_digits(list),
        0 <= c < list.len(),
    ensures
        c < list[c],
    decreases c,
{
    if c > 0 {
        lemma_ascending_rank(list, c - 1);
    }
}

/// The cells of a plan lie in the grid, are editable and differ from each
/// other, and every editable cell is one of them.
pub proof fn lemma_plan_cells(board: &SudokuBoard, cells: Seq<(usize, usize)>)
    requires
        cells == board.editable_cells(),
    ensures
        cells.len() <= 81,
        forall|k: int|
            0 <= k < cells.len() ==> in_grid((#[trigger] cells[k]).0 as int, cells[k].1 as int)
                && board.editable_at(cells[k].0 as int, cells[k].1 as int),
        forall|k1: int, k2: int|
            0 <= k1 < cells.len() && 0 <= k2 < cells.len() && k1 != k2 ==> #[trigger] cells[k1]
                != #[trigger] cells[k2],
        forall|x: int, y: int|
            in_grid(x, y) && #[trigger] board.editable_at(x, y) ==> exists|k: int|
                0 <= k < cells.len() && #[trigger] cells[k] == (x as usize, y as usize),
{
    board.lemma_editable_cells();
    assert forall|k1: int, k2: int|
        0 <= k1 < cells.len() && 0 <= k2 < cells.len() && k1 != k2 implies #[trigger] cells[k1]
        != #[trigger] cells[k2] by {
        if k1 < k2 {
            assert(9 * cells[k1].0 + cells[k1].1 < 9 * cells[k2].0 + cells[k2].1);
        } else {
            assert(9 * cells[k2].0 + cells[k2].1 < 9 * cells[k1].0 + cells[k1].1);
        }
    }
    assert forall|x: int, y: int| in_grid(x, y) && #[trigger] board.editable_at(x, y) implies exists|
        k: int,
    |
        0 <= k < cells.len() && #[trigger] cells[k] == (x as usize, y as usize) by {
        assert(cells.contains((x as usize, y as usize)));
    }
}

/// The board in the middle of a search from `start`: the givens are
/// untouched, the cells before the cursor hold `t`, and the cells behind the
/// cursor are empty.
pub open spec fn reflects(
    board: &SudokuBoard,
    start: &SudokuBoard,
    cells: Seq<(usize, usize)>,
    t: Seq<CellType>,
) -> bool {
    &&& board.same_givens(start)
    &&& forall|k: int| 0 <= k < t.len() ==> #[trigger] held(board, cells, k) == Some(t[k])
    &&& forall|k: int| t.len() < k < cells.len() ==> (#[trigger] held(board, cells, k)) is None
}

/// During a search from a fresh board, the board's own placement check at
/// the cursor says whether the digit fits after the digits placed so far.
pub proof fn lemma_placement_is_fit(
    board: &SudokuBoard,
    start: &SudokuBoard,
    cells: Seq<(usize, usize)>,
    t: Seq<CellType>,
    v: CellType,
)
    requires
        start.is_fresh(),
        cells == start.editable_cells(),
        t.len() < cells.len(),
        reflects(board, start, cells, t),
        held(board, cells, t.len() as int) != Some(v),
    ensures
        board.placement_ok(
            cells[t.len() as int].0 as int,
            cells[t.len() as int].1 as int,
            Some(v),
        ) == fits(start, cells, t.push(v), t.len() as int),
{
    let i = t.len() as int;
    let x = cells[i].0 as int;
    let y = cells[i].1 as int;
    let a = t.push(v);
    lemma_plan_cells(start, cells);
    if fits(start, cells, a, i) {
        assert forall|r: int, c: int| in_grid(r, c) && sees(x, y, r, c) implies #[trigger] board.value_at(
            r,
            c,
        ) != Some(v) by {
            if board.value_at(r, c) == Some(v) {
                if start.editable_at(r, c) {
                    let k = choose|k: int|
                        0 <= k < cells.len() && #[trigger] cells[k] == (r as usize, c as usize);
                    assert(held(board, cells, k) == Some(v));
                    if k < i {
                        assert(a[k] == t[k]);
                        assert(cells_see(cells, k, i));
                        assert(a[k] != a[i]);
                    }
                } else {
                    assert(board.cell(r, c).editable == start.cell(r, c).editable);
                    assert(start.value_at(r, c) == Some(a[i]));
                }
            }
        }
        assert(!board.row_has(x, v));
        assert(!board.column_has(y, v));
        assert(!board.box_has(x, y, v));
    }
    if board.placement_ok(x, y, Some(v)) {
        assert forall|r: int, c: int|
            in_grid(r, c) && sees(x, y, r, c) && !start.editable_at(r, c) implies #[trigger] start.value_at(
            r,
            c,
        ) != Some(a[i]) by {
            assert(board.cell(r, c).editable == start.cell(r, c).editable);
            if start.value_at(r, c) == Some(v) {
                assert(board.value_at(r, c) == Some(v));
                assert(board.row_has(x, v) || board.column_has(y, v) || board.box_has(x, y, v));
            }
        }
        assert forall|l: int| 0 <= l < i && cells_see(cells, l, i) implies #[trigger] a[l]
            != a[i] by {
            if a[l] == v {
                assert(held(board, cells, l) == Some(t[l]));
                let r = cells[l].0 as int;
                let c = cells[l].1 as int;
                assert(board.value_at(r, c) == Some(v));
                assert(sees(x, y, r, c));
                assert(board.row_has(x, v) || board.column_has(y, v) || board.box_has(x, y, v));
            }
        }
    }
}

/// Whether a digit fits at a cell depends on the digits up to that cell
/// only.
pub proof fn lemma_fits_prefix(
    board: &SudokuBoard,
    cells: Seq<(usize, usize)>,
    a: Seq<CellType>,
    b: Seq<CellType>,
    k: int,
)
    requires
        0 <= k,
        agree(a, b, k + 1),
    ensures
        fits(board, cells, a, k) == fits(board, cells, b, k),
{
    assert(a[k] == b[k]);
    if fits(board, cells, a, k) {
        assert forall|l: int| 0 <= l < k && cells_see(cells, l, k) implies #[trigger] b[l]
            != b[k] by {
            assert(a[l] == b[l]);
        }
    }
    if fits(board, cells, b, k) {
        assert forall|l: int| 0 <= l < k && cells_see(cells, l, k) implies #[trigger] a[l]
            != a[k] by {
            assert(a[l] == b[l]);
        }
    }
}

/// What a search has ruled out when it stands at cell `t.len()` about to try
/// choice `next`: no completion comes before the digits placed so far, and
/// none continues them with one of the choices before `next`.
pub open spec fn ahead(choices: Seq<Seq<CellType>>, t: Seq<CellType>, next: int, a: Seq<CellType>) -> bool {
    &&& lex_le(t, a)
    &&& agree(a, t, t.len() as int) ==> forall|c: int|
        0 <= c < next ==> a[t.len() as int] != #[trigger] choices[t.len() as int][c]
}

/// Every completion lies ahead of the state `(t, next)`.
pub open spec fn all_ahead(
    board: &SudokuBoard,
    cells: Seq<(usize, usize)>,
    choices: Seq<Seq<CellType>>,
    t: Seq<CellType>,
    next: int,
) -> bool {
    forall|a: Seq<CellType>| #[trigger] is_completion(board, cells, choices, a) ==> ahead(choices, t, next, a)
}

/// At the start of a search nothing is ruled out.
pub proof fn lemma_ahead_at_start(
    board: &SudokuBoard,
    cells: Seq<(usize, usize)>,
    choices: Seq<Seq<CellType>>,
)
    ensures
        all_ahead(board, cells, choices, Seq::empty(), 0),
        is_partial(board, cells, choices, Seq::empty()),
{
}

/// After choice `next` was placed at the cursor, every completion lies ahead
/// of the longer prefix.
pub proof fn lemma_ahead_after_success(
    board: &SudokuBoard,
    cells: Seq<(usize, usize)>,
    choices: Seq<Seq<CellType>>,
    t: Seq<CellType>,
    next: int,
)
    requires
        choices.len() == cells.len(),
        t.len() < cells.len(),
        ascending_digits(choices[t.len() as int]),
        0 <= next < choices[t.len() as int].len(),
        all_ahead(board, cells, choices, t, next),
        is_partial(board, cells, choices, t),
        fits(board, cells, t.push(choices[t.len() as int][next]), t.len() as int),
    ensures
        all_ahead(board, cells, choices, t.push(choices[t.len() as int][next]), 0),
        is_partial(board, cells, choices, t.push(choices[t.len() as int][next])),
{
    let i = t.len() as int;
    let v = choices[i][next];
    let t2 = t.push(v);
    assert forall|a: Seq<CellType>| #[trigger] is_completion(board, cells, choices, a) implies ahead(
        choices,
        t2,
        0,
        a,
    ) by {
        assert(ahead(choices, t, next, a));
        assert forall|j: int| 0 <= j < t2.len() && agree(a, t2, j) implies #[trigger] a[j]
            >= t2[j] by {
            assert(agree(a, t, j)) by {
                assert forall|l: int| 0 <= l < j implies #[trigger] a[l] == t[l] by {
                    assert(a[l] == t2[l]);
                }
            }
            if j < i {
                assert(a[j] >= t[j]);
            } else {
                assert(choices[i].contains(a[i]));
                let c = choose|c: int| 0 <= c < choices[i].len() && choices[i][c] == a[i];
                if c < next {
                    assert(a[i] != choices[i][c]);
                } else if c > next {
                    assert(choices[i][next] < choices[i][c]);
                }
            }
        }
    }
    assert forall|k: int| 0 <= k < t2.len() implies (#[trigger] choices[k]).contains(t2[k])
        && fits(board, cells, t2, k) by {
        if k < i {
            assert(t2[k] == t[k]);
            assert(choices[k].contains(t[k]));
            assert(fits(board, cells, t, k));
            assert(agree(t, t2, k + 1));
            lemma_fits_prefix(board, cells, t, t2, k);
        } else {
            assert(choices[i][next] == t2[i]);
        }
    }
}

/// After choice `next` was refused at the cursor, every completion lies
/// ahead of the next choice.
pub proof fn lemma_ahead_after_failure(
    board: &SudokuBoard,
    cells: Seq<(usize, usize)>,
    choices: Seq<Seq<CellType>>,
    t: Seq<CellType>,
    next: int,
)
    requires
        choices.len() == cells.len(),
        t.len() < cells.len(),
        0 <= next < choices[t.len() as int].len(),
        all_ahead(board, cells, choices, t, next),
        !fits(board, cells, t.push(choices[t.len() as int][next]), t.len() as int),
    ensures
        all_ahead(board, cells, choices, t, next + 1),
{
    let i = t.len() as int;
    let v = choices[i][next];
    assert forall|a: Seq<CellType>| #[trigger] is_completion(board, cells, choices, a) implies ahead(
        choices,
        t,
        next + 1,
        a,
    ) by {
        assert(ahead(choices, t, next, a));
        if agree(a, t, i) {
            if a[i] == v {
                assert(agree(a, t.push(v), i + 1)) by {
                    assert forall|l: int| 0 <= l < i + 1 implies #[trigger] a[l] == t.push(v)[l] by {
                        if l < i {
                            assert(a[l] == t[l]);
                        }
                    }
                }
                lemma_fits_prefix(board, cells, a, t.push(v), i);
                assert(choices[i].contains(a[i]) && fits(board, cells, a, i));
            }
            assert forall|c: int| 0 <= c < next + 1 implies a[i] != #[trigger] choices[i][c] by {
                if c < next {
                }
            }
        }
    }
}

/// After every choice at the cursor was refused, every completion lies
/// ahead of the choice after the one placed at the cell before.
pub proof fn lemma_ahead_after_retreat(
    board: &SudokuBoard,
    cells: Seq<(usize, usize)>,
    choices: Seq<Seq<CellType>>,
    t: Seq<CellType>,
    rank: int,
)
    requires
        choices.len() == cells.len(),
        0 < t.len() < cells.len(),
        all_ahead(board, cells, choices, t, choices[t.len() as int].len() as int),
        is_partial(board, cells, choices, t),
        ascending_digits(choices[t.len() - 1]),
        0 <= rank < choices[t.len() - 1].len(),
        choices[t.len() - 1][rank] == t.last(),
    ensures
        all_ahead(board, cells, choices, t.drop_last(), rank + 1),
        is_partial(board, cells, choices, t.drop_last()),
{
    let i = t.len() as int;
    let t0 = t.drop_last();
    assert forall|a: Seq<CellType>| #[trigger] is_completion(board, cells, choices, a) implies ahead(
        choices,
        t0,
        rank + 1,
        a,
    ) by {
        assert(ahead(choices, t, choices[i].len() as int, a));
        assert forall|j: int| 0 <= j < t0.len() && agree(a, t0, j) implies #[trigger] a[j]
            >= t0[j] by {
            assert(agree(a, t, j)) by {
                assert forall|l: int| 0 <= l < j implies #[trigger] a[l] == t[l] by {
                    assert(a[l] == t0[l]);
                }
            }
            assert(a[j] >= t[j]);
        }
        if agree(a, t0, i - 1) {
            assert(agree(a, t, i - 1)) by {
                assert forall|l: int| 0 <= l < i - 1 implies #[trigger] a[l] == t[l] by {
                    assert(a[l] == t0[l]);
                }
            }
            assert(a[i - 1] >= t[i - 1]);
            if a[i - 1] == t[i - 1] {
                assert(agree(a, t, i)) by {
                    assert forall|l: int| 0 <= l < i implies #[trigger] a[l] == t[l] by {
                        if l < i - 1 {
                            assert(a[l] == t0[l]);
                        }
                    }
                }
                assert(choices[i].contains(a[i]));
                let c = choose|c: int| 0 <= c < choices[i].len() && choices[i][c] == a[i];
                assert(a[i] != choices[i][c]);
            }
            assert forall|c: int| 0 <= c < rank + 1 implies a[i - 1] != #[trigger] choices[i
                - 1][c] by {
                if c < rank {
                    assert(choices[i - 1][c] < choices[i - 1][rank]);
                }
            }
        }
    }
    assert forall|k: int| 0 <= k < t0.len() implies (#[trigger] choices[k]).contains(t0[k])
        && fits(board, cells, t0, k) by {
        assert(t0[k] == t[k]);
        assert(choices[k].contains(t[k]));
        assert(fits(board, cells, t, k));
        assert(agree(t0, t, k + 1));
        lemma_fits_prefix(board, cells, t0, t, k);
    }
}

/// A search that has placed a digit at every cell holds the first
/// completion in dictionary order.
pub proof fn lemma_ahead_at_end(
    board: &SudokuBoard,
    cells: Seq<(usize, usize)>,
    choices: Seq<Seq<CellType>>,
    t: Seq<CellType>,
    next: int,
)
    requires
        t.len() == cells.len(),
        all_ahead(board, cells, choices, t, next),
        is_partial(board, cells, choices, t),
    ensures
        is_least_completion(board, cells, choices, t),
{
}

/// A search that has run out of choices at the first cell has shown that
/// there is no completion.
pub proof fn lemma_ahead_exhausted(
    board: &SudokuBoard,
    cells: Seq<(usize, usize)>,
    choices: Seq<Seq<CellType>>,
)
    requires
        choices.len() == cells.len(),
        0 < cells.len(),
        all_ahead(board, cells, choices, Seq::empty(), choices[0].len() as int),
    ensures
        !can_complete(board, cells, choices),
{
    assert forall|a: Seq<CellType>| !is_completion(board, cells, choices, a) by {
        if is_completion(board, cells, choices, a) {
            assert(ahead(choices, Seq::empty(), choices[0].len() as int, a));
            assert(agree(a, Seq::empty(), 0));
            assert(choices[0].contains(a[0]));
            let c = choose|c: int| 0 <= c < choices[0].len() && choices[0][c] == a[0];
            assert(a[0] != choices[0][c]);
        }
    }
}

/// No digit that the board allows at a cell is missing from its choices.
pub open spec fn offers_all(
    board: &SudokuBoard,
    cells: Seq<(usize, usize)>,
    choices: Seq<Seq<CellType>>,
) -> bool {
    forall|k: int, v: CellType|
        0 <= k < cells.len() && 1 <= v <= 9 && board.placement_ok(
            cells[k].0 as int,
            cells[k].1 as int,
            Some(v),
        ) ==> #[trigger] choices[k].contains(v)
}

/// `end` is a solution of the puzzle that `start` poses.
pub open spec fn solves(end: &SudokuBoard, start: &SudokuBoard) -> bool {
    end.same_givens(start) && end.is_solution()
}

/// The puzzle that `start` poses has a solution.
pub open spec fn is_solvable(start: &SudokuBoard) -> bool {
    exists|end: SudokuBoard| solves(&end, start)
}

/// A board that holds a completion of a fresh puzzle with sound givens is
/// solved.
pub proof fn lemma_completion_solves(
    end: &SudokuBoard,
    start: &SudokuBoard,
    cells: Seq<(usize, usize)>,
    choices: Seq<Seq<CellType>>,
)
    requires
        start.is_fresh(),
        start.consistent(),
        start.digits_in_range(),
        is_plan(start, cells, choices),
        end.same_givens(start),
        forall|k: int| 0 <= k < cells.len() ==> (#[trigger] held(end, cells, k)) is Some,
        is_completion(start, cells, choices, assignment(end, cells)),
    ensures
        end.is_solution(),
{
    let a = assignment(end, cells);
    lemma_plan_cells(start, cells);
    assert forall|x: int, y: int| in_grid(x, y) implies (#[trigger] end.value_at(x, y) matches Some(
        v,
    ) && 1 <= v <= 9) by {
        assert(end.cell(x, y).editable == start.cell(x, y).editable);
        if start.editable_at(x, y) {
            let k = choose|k: int|
                0 <= k < cells.len() && #[trigger] cells[k] == (x as usize, y as usize);
            assert(held(end, cells, k) is Some);
            assert(choices[k].contains(a[k]));
            let c = choose|c: int| 0 <= c < choices[k].len() && choices[k][c] == a[k];
            assert(1 <= choices[k][c] <= 9);
        } else {
            assert(start.value_at(x, y) is Some);
        }
    }
    assert forall|x1: int, y1: int, x2: int, y2: int|
        in_grid(x1, y1) && in_grid(x2, y2) && sees(x1, y1, x2, y2) && !(x1 == x2 && y1 == y2) && (
        #[trigger] end.value_at(x1, y1)) is Some implies end.value_at(x1, y1) != #[trigger] end.value_at(
        x2,
        y2,
    ) by {
        assert(end.cell(x1, y1).editable == start.cell(x1, y1).editable);
        assert(end.cell(x2, y2).editable == start.cell(x2, y2).editable);
        let e1 = start.editable_at(x1, y1);
        let e2 = start.editable_at(x2, y2);
        if !e1 && !e2 {
            assert(start.value_at(x1, y1) is Some);
            assert(start.value_at(x1, y1) != start.value_at(x2, y2));
        } else if e1 && !e2 {
            let k = choose|k: int|
                0 <= k < cells.len() && #[trigger] cells[k] == (x1 as usize, y1 as usize);
            assert(held(end, cells, k) is Some);
            assert(choices[k].contains(a[k]));
            assert(fits(start, cells, a, k));
            assert(start.value_at(x2, y2) != Some(a[k]));
        } else if !e1 && e2 {
            let k = choose|k: int|
                0 <= k < cells.len() && #[trigger] cells[k] == (x2 as usize, y2 as usize);
            assert(held(end, cells, k) is Some);
            assert(choices[k].contains(a[k]));
            assert(fits(start, cells, a, k));
            assert(sees(x2, y2, x1, y1));
            assert(start.value_at(x1, y1) != Some(a[k]));
        } else {
            let k1 = choose|k: int|
                0 <= k < cells.len() && #[trigger] cells[k] == (x1 as usize, y1 as usize);
            let k2 = choose|k: int|
                0 <= k < cells.len() && #[trigger] cells[k] == (x2 as usize, y2 as usize);
            assert(held(end, cells, k1) is Some);
            assert(held(end, cells, k2) is Some);
            if k1 < k2 {
                assert(choices[k2].contains(a[k2]));
            assert(fits(start, cells, a, k2));
                assert(cells_see(cells, k1, k2));
                assert(a[k1] != a[k2]);
            } else {
                assert(choices[k1].contains(a[k1]));
            assert(fits(start, cells, a, k1));
                assert(sees(x2, y2, x1, y1));
                assert(cells_see(cells, k2, k1));
                assert(a[k2] != a[k1]);
            }
        }
    }
    end.lemma_solution_characterised();
}

/// The digits that a solution of a fresh puzzle holds at the editable cells
/// are a completion, provided that the choices leave out no digit that the
/// fresh board allows.
pub proof fn lemma_solution_completes(
    end: &SudokuBoard,
    start: &SudokuBoard,
    cells: Seq<(usize, usize)>,
    choices: Seq<Seq<CellType>>,
)
    requires
        start.is_fresh(),
        is_plan(start, cells, choices),
        offers_all(start, cells, choices),
        solves(end, start),
    ensures
        is_completion(start, cells, choices, assignment(end, cells)),
{
    let a = assignment(end, cells);
    lemma_plan_cells(start, cells);
    end.lemma_solution_characterised();
    assert forall|k: int| 0 <= k < a.len() implies (#[trigger] choices[k]).contains(a[k]) && fits(
        start,
        cells,
        a,
        k,
    ) by {
        let x = cells[k].0 as int;
        let y = cells[k].1 as int;
        assert(end.value_at(x, y) is Some);
        let v = a[k];
        assert(end.value_at(x, y) == Some(v));
        assert forall|i: int, j: int| in_grid(i, j) && sees(x, y, i, j) implies #[trigger] start.value_at(
            i,
            j,
        ) != Some(v) by {
            if start.value_at(i, j) == Some(v) {
                assert(!start.editable_at(i, j));
                assert(end.cell(i, j).editable == start.cell(i, j).editable);
                assert(end.value_at(i, j) == Some(v));
                assert(end.value_at(x, y) != end.value_at(i, j));
            }
        }
        assert(start.placement_ok(x, y, Some(v)));
        assert(choices[k].contains(v));
        assert forall|l: int| 0 <= l < k && cells_see(cells, l, k) implies #[trigger] a[l]
            != a[k] by {
            let r = cells[l].0 as int;
            let c = cells[l].1 as int;
            assert(cells[l] != cells[k]);
            assert(end.value_at(r, c) is Some);
            assert(end.value_at(r, c) != end.value_at(x, y));
        }
    }
}

/// On a fresh board, what counts as a completion does not depend on the
/// choices, as long as they leave out no digit that the board allows.
pub proof fn lemma_completion_under_other_choices(
    start: &SudokuBoard,
    cells: Seq<(usize, usize)>,
    choices: Seq<Seq<CellType>>,
    others: Seq<Seq<CellType>>,
    a: Seq<CellType>,
)
    requires
        start.is_fresh(),
        is_plan(start, cells, choices),
        is_plan(start, cells, others),
        offers_all(start, cells, others),
        is_completion(start, cells, choices, a),
    ensures
        is_completion(start, cells, others, a),
{
    lemma_plan_cells(start, cells);
    assert forall|k: int| 0 <= k < a.len() implies (#[trigger] others[k]).contains(a[k]) && fits(
        start,
        cells,
        a,
        k,
    ) by {
        let x = cells[k].0 as int;
        let y = cells[k].1 as int;
        let v = a[k];
        assert(choices[k].contains(a[k]));
        assert(fits(start, cells, a, k));
        let c = choose|c: int| 0 <= c < choices[k].len() && choices[k][c] == v;
        assert(1 <= choices[k][c] <= 9);
        assert forall|i: int, j: int| in_grid(i, j) && sees(x, y, i, j) implies #[trigger] start.value_at(
            i,
            j,
        ) != Some(v) by {
            if start.value_at(i, j) == Some(v) {
                assert(!start.editable_at(i, j));
            }
        }
        assert(start.placement_ok(x, y, Some(v)));
        assert(others[k].contains(v));
    }
}

/// Two sequences of one length, each before the other in dictionary order,
/// are the same.
pub proof fn lemma_lex_le_antisymmetric(s: Seq<CellType>, t: Seq<CellType>, upto: int)
    requires
        s.len() == t.len(),
        lex_le(s, t),
        lex_le(t, s),
        0 <= upto <= s.len(),
    ensures
        agree(s, t, upto),
    decreases upto,
{
    if upto > 0 {
        lemma_lex_le_antisymmetric(s, t, upto - 1);
        let j = upto - 1;
        assert(agree(t, s, j)) by {
            assert forall|l: int| 0 <= l < j implies #[trigger] t[l] == s[l] by {
                assert(s[l] == t[l]);
            }
        }
        assert(t[j] >= s[j]);
        assert(s[j] >= t[j]);
    }
}

/// Both strategies come to the same end. On a fresh board the first
/// completion is the same whatever the choices, as long as they leave out no
/// digit that the board allows; and with one set of choices there is a
/// completion exactly when there is one with the other.
pub proof fn lemma_strategies_agree(
    start: &SudokuBoard,
    cells: Seq<(usize, usize)>,
    choices: Seq<Seq<CellType>>,
    others: Seq<Seq<CellType>>,
)
    requires
        start.is_fresh(),
        is_plan(start, cells, choices),
        is_plan(start, cells, others),
        offers_all(start, cells, choices),
        offers_all(start, cells, others),
    ensures
        can_complete(start, cells, choices) == can_complete(start, cells, others),
        forall|s: Seq<CellType>, t: Seq<CellType>|
            #[trigger] is_least_completion(start, cells, choices, s) && #[trigger] is_least_completion(
                start,
                cells,
                others,
                t,
            ) ==> s == t,
{
    if can_complete(start, cells, choices) {
        let a = choose|a: Seq<CellType>| is_completion(start, cells, choices, a);
        lemma_completion_under_other_choices(start, cells, choices, others, a);
    }
    if can_complete(start, cells, others) {
        let a = choose|a: Seq<CellType>| is_completion(start, cells, others, a);
        lemma_completion_under_other_choices(start, cells, others, choices, a);
    }
    assert forall|s: Seq<CellType>, t: Seq<CellType>|
        #[trigger] is_least_completion(start, cells, choices, s) && #[trigger] is_least_completion(
            start,
            cells,
            others,
            t,
        ) implies s == t by {
        lemma_completion_under_other_choices(start, cells, choices, others, s);
        lemma_completion_under_other_choices(start, cells, others, choices, t);
        assert(lex_le(t, s));
        assert(lex_le(s, t));
        lemma_lex_le_antisymmetric(s, t, s.len() as int);
        assert(s =~= t);
    }
}

} // verus!
