//! The backtracking protocol as a walk, step by step: which placement each
//! step attempts, what it leaves in the cells, and how many attempts the
//! whole walk makes.

use crate::sudoku::algorithms::completion::{cells_see, held, lemma_plan_cells};
use crate::sudoku::board::{in_grid, sees, CellType, SudokuBoard};
use vstd::prelude::*;

verus! {

/// A state of the walk.
pub struct Walk {
    /// What the cells of the plan hold.
    pub vals: Seq<Option<CellType>>,
    /// The cell the walk stands at.
    pub cursor: int,
    /// The index of the choice to try next at that cell.
    pub next: int,
    /// The placements and clearings attempted so far.
    pub attempts: nat,
    /// Whether the walk is over, and if so whether every cell was filled.
    pub ended: Option<bool>,
}

/// Whether the board allows digit `v` at cell `i` of the plan, where the
/// givens are those of `start` and the cells of the plan hold `vals`: no
/// given that the cell sees holds `v`, and no cell of the plan that it sees,
/// itself among them.
pub open spec fn allowed(
    start: &SudokuBoard,
    cells: Seq<(usize, usize)>,
    vals: Seq<Option<CellType>>,
    i: int,
    v: CellType,
) -> bool {
    &&& forall|r: int, c: int|
        in_grid(r, c) && sees(cells[i].0 as int, cells[i].1 as int, r, c) && !start.editable_at(
            r,
            c,
        ) ==> #[trigger] start.value_at(r, c) != Some(v)
    &&& forall|k: int| 0 <= k < cells.len() && cells_see(cells, k, i) ==> #[trigger] vals[k] != Some(v)
}

/// Whether `next` is where a search goes on at a cell that holds `stored`:
/// at the first choice where the cell is empty, else at the first choice
/// greater than the stored digit.
pub open spec fn is_resume(list: Seq<CellType>, stored: Option<CellType>, next: int) -> bool {
    &&& 0 <= next <= list.len()
    &&& match stored {
        None => next == 0,
        Some(s) => {
            &&& forall|c: int| 0 <= c < next ==> #[trigger] list[c] <= s
            &&& forall|c: int| next <= c < list.len() ==> s < #[trigger] list[c]
        },
    }
}

/// Where a search goes on at a cell that holds `stored`.
pub open spec fn resume(list: Seq<CellType>, stored: Option<CellType>) -> int {
    choose|next: int| is_resume(list, stored, next)
}

/// There is one place to go on at.
pub proof fn lemma_resume_unique(list: Seq<CellType>, stored: Option<CellType>, next: int)
    requires
        is_resume(list, stored, next),
    ensures
        resume(list, stored) == next,
{
    let other = resume(list, stored);
    assert(is_resume(list, stored, other));
    if let Some(s) = stored {
        if other < next {
            assert(list[other] <= s);
            assert(s < list[other]);
        }
        if next < other {
            assert(list[next] <= s);
            assert(s < list[next]);
        }
    }
}

/// One step of the protocol. With a choice left at the cursor the step
/// attempts it: if the board allows it, the digit is placed and the cursor
/// advances, or the walk ends with every cell filled; if not, the next
/// choice is up. With no choice left the step clears the cell and retreats,
/// or the walk ends exhausted at the first cell.
#[verifier::opaque]
pub open spec fn step(
    start: &SudokuBoard,
    cells: Seq<(usize, usize)>,
    choices: Seq<Seq<CellType>>,
    w: Walk,
) -> Walk {
    let i = w.cursor;
    if w.next < choices[i].len() {
        let v = choices[i][w.next];
        if allowed(start, cells, w.vals, i, v) {
            let vals = w.vals.update(i, Some(v));
            if i + 1 == cells.len() {
                Walk { vals, attempts: w.attempts + 1, ended: Some(true), ..w }
            } else {
                Walk {
                    vals,
                    cursor: i + 1,
                    next: resume(choices[i + 1], vals[i + 1]),
                    attempts: w.attempts + 1,
                    ended: None,
                }
            }
        } else {
            Walk { next: w.next + 1, attempts: w.attempts + 1, ..w }
        }
    } else {
        let vals = w.vals.update(i, None);
        if i == 0 {
            Walk { vals, attempts: w.attempts + 1, ended: Some(false), ..w }
        } else {
            Walk {
                vals,
                cursor: i - 1,
                next: resume(choices[i - 1], vals[i - 1]),
                attempts: w.attempts + 1,
                ended: None,
            }
        }
    }
}

/// The step that places a digit.
pub proof fn lemma_step_places(
    start: &SudokuBoard,
    cells: Seq<(usize, usize)>,
    choices: Seq<Seq<CellType>>,
    w: Walk,
)
    requires
        w.next < choices[w.cursor].len(),
        allowed(start, cells, w.vals, w.cursor, choices[w.cursor][w.next]),
    ensures
        step(start, cells, choices, w).vals == w.vals.update(
            w.cursor,
            Some(choices[w.cursor][w.next]),
        ),
        step(start, cells, choices, w).attempts == w.attempts + 1,
        w.cursor + 1 == cells.len() ==> step(start, cells, choices, w).ended == Some(true),
        w.cursor + 1 != cells.len() ==> {
            &&& step(start, cells, choices, w).ended is None
            &&& step(start, cells, choices, w).cursor == w.cursor + 1
            &&& step(start, cells, choices, w).next == resume(
                choices[w.cursor + 1],
                step(start, cells, choices, w).vals[w.cursor + 1],
            )
        },
{
    reveal(step);
}

/// The step whose digit the board refuses.
pub proof fn lemma_step_is_refused(
    start: &SudokuBoard,
    cells: Seq<(usize, usize)>,
    choices: Seq<Seq<CellType>>,
    w: Walk,
)
    requires
        w.next < choices[w.cursor].len(),
        !allowed(start, cells, w.vals, w.cursor, choices[w.cursor][w.next]),
    ensures
        step(start, cells, choices, w) == (Walk {
            next: w.next + 1,
            attempts: w.attempts + 1,
            ..w
        }),
{
    reveal(step);
}

/// The step that clears the cell and retreats.
pub proof fn lemma_step_retreats(
    start: &SudokuBoard,
    cells: Seq<(usize, usize)>,
    choices: Seq<Seq<CellType>>,
    w: Walk,
)
    requires
        w.next >= choices[w.cursor].len(),
    ensures
        step(start, cells, choices, w).vals == w.vals.update(w.cursor, None),
        step(start, cells, choices, w).attempts == w.attempts + 1,
        w.cursor == 0 ==> step(start, cells, choices, w).ended == Some(false),
        w.cursor != 0 ==> {
            &&& step(start, cells, choices, w).ended is None
            &&& step(start, cells, choices, w).cursor == w.cursor - 1
            &&& step(start, cells, choices, w).next == resume(
                choices[w.cursor - 1],
                step(start, cells, choices, w).vals[w.cursor - 1],
            )
        },
{
    reveal(step);
}

/// The walk before its first step: at the first cell of the plan, with the
/// cells as `start` holds them. A plan without cells is over at once.
pub open spec fn first_walk(
    start: &SudokuBoard,
    cells: Seq<(usize, usize)>,
    choices: Seq<Seq<CellType>>,
) -> Walk {
    let vals = Seq::new(cells.len(), |k: int| held(start, cells, k));
    if cells.len() == 0 {
        Walk { vals, cursor: 0, next: 0, attempts: 0, ended: Some(true) }
    } else {
        Walk { vals, cursor: 0, next: resume(choices[0], vals[0]), attempts: 0, ended: None }
    }
}

/// The walk after `steps` steps; a walk that is over stays as it is.
pub open spec fn walk(
    start: &SudokuBoard,
    cells: Seq<(usize, usize)>,
    choices: Seq<Seq<CellType>>,
    steps: nat,
) -> Walk
    decreases steps,
{
    if steps == 0 {
        first_walk(start, cells, choices)
    } else {
        let before = walk(start, cells, choices, (steps - 1) as nat);
        if before.ended is Some {
            before
        } else {
            step(start, cells, choices, before)
        }
    }
}

/// The walk is over after `steps` steps.
pub open spec fn ends_in(
    start: &SudokuBoard,
    cells: Seq<(usize, usize)>,
    choices: Seq<Seq<CellType>>,
    steps: nat,
) -> bool {
    walk(start, cells, choices, steps).ended is Some
}

/// The walk comes to an end.
pub open spec fn ends(
    start: &SudokuBoard,
    cells: Seq<(usize, usize)>,
    choices: Seq<Seq<CellType>>,
) -> bool {
    exists|steps: nat| ends_in(start, cells, choices, steps)
}

/// The walk at its end.
pub open spec fn last_walk(
    start: &SudokuBoard,
    cells: Seq<(usize, usize)>,
    choices: Seq<Seq<CellType>>,
) -> Walk {
    walk(start, cells, choices, choose|steps: nat| ends_in(start, cells, choices, steps))
}

/// A counter that stops at its maximum, after `attempts` more.
pub open spec fn saturated(attempts: int) -> u64 {
    if attempts >= u64::MAX {
        u64::MAX
    } else {
        attempts as u64
    }
}

/// A walk that is over does not change with more steps.
pub proof fn lemma_walk_stays(
    start: &SudokuBoard,
    cells: Seq<(usize, usize)>,
    choices: Seq<Seq<CellType>>,
    steps: nat,
    later: nat,
)
    requires
        ends_in(start, cells, choices, steps),
        steps <= later,
    ensures
        walk(start, cells, choices, later) == walk(start, cells, choices, steps),
    decreases later,
{
    if later > steps {
        lemma_walk_stays(start, cells, choices, steps, (later - 1) as nat);
    }
}

/// However many steps it took to see the walk end, its end is the same.
pub proof fn lemma_last_walk(
    start: &SudokuBoard,
    cells: Seq<(usize, usize)>,
    choices: Seq<Seq<CellType>>,
    steps: nat,
)
    requires
        ends_in(start, cells, choices, steps),
    ensures
        ends(start, cells, choices),
        last_walk(start, cells, choices) == walk(start, cells, choices, steps),
{
    let chosen = choose|s: nat| ends_in(start, cells, choices, s);
    if chosen <= steps {
        lemma_walk_stays(start, cells, choices, chosen, steps);
    } else {
        lemma_walk_stays(start, cells, choices, steps, chosen);
    }
}

/// The board's own placement check at a cell of the plan is the check of
/// the walk, as long as the board holds the givens of `start` and the walk's
/// values at the cells of the plan.
pub proof fn lemma_placement_is_allowed(
    board: &SudokuBoard,
    start: &SudokuBoard,
    cells: Seq<(usize, usize)>,
    vals: Seq<Option<CellType>>,
    i: int,
    v: CellType,
)
    requires
        cells == start.editable_cells(),
        board.same_givens(start),
        vals.len() == cells.len(),
        forall|k: int| 0 <= k < cells.len() ==> #[trigger] held(board, cells, k) == vals[k],
        0 <= i < cells.len(),
    ensures
        board.placement_ok(cells[i].0 as int, cells[i].1 as int, Some(v)) == allowed(
            start,
            cells,
            vals,
            i,
            v,
        ),
{
    let x = cells[i].0 as int;
    let y = cells[i].1 as int;
    lemma_plan_cells(start, cells);
    if allowed(start, cells, vals, i, v) {
        assert forall|r: int, c: int| in_grid(r, c) && sees(x, y, r, c) implies #[trigger] board.value_at(
            r,
            c,
        ) != Some(v) by {
            assert(board.cell(r, c).editable == start.cell(r, c).editable);
            if board.value_at(r, c) == Some(v) {
                if start.editable_at(r, c) {
                    let k = choose|k: int|
                        0 <= k < cells.len() && #[trigger] cells[k] == (r as usize, c as usize);
                    assert(held(board, cells, k) == vals[k]);
                    assert(sees(r, c, x, y));
                    assert(cells_see(cells, k, i));
                    assert(vals[k] != Some(v));
                } else {
                    assert(start.value_at(r, c) == Some(v));
                }
            }
        }
        assert(!board.row_has(x, v));
        assert(!board.column_has(y, v));
        assert(!board.box_has(x, y, v));
    }
    if board.placement_ok(x, y, Some(v)) {
        assert forall|r: int, c: int|
            in_grid(r, c) && sees(x, y, r, c) && !start.editable_at(r, c) implies #[trigger] start.value_at(
            r,
            c,
        ) != Some(v) by {
            assert(board.cell(r, c).editable == start.cell(r, c).editable);
            if start.value_at(r, c) == Some(v) {
                assert(board.value_at(r, c) == Some(v));
                assert(board.row_has(x, v) || board.column_has(y, v) || board.box_has(x, y, v));
            }
        }
        assert forall|k: int| 0 <= k < cells.len() && cells_see(cells, k, i) implies #[trigger] vals[k]
            != Some(v) by {
            if vals[k] == Some(v) {
                assert(held(board, cells, k) == vals[k]);
                let r = cells[k].0 as int;
                let c = cells[k].1 as int;
                assert(board.value_at(r, c) == Some(v));
                assert(sees(x, y, r, c));
                assert(board.row_has(x, v) || board.column_has(y, v) || board.box_has(x, y, v));
            }
        }
    }
}

} // verus!
