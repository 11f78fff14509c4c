//! The backtracking protocol that both strategies follow, written once.
//!
//! The search walks the editable cells in row-major order with a cursor. At
//! the cursor it tries the cell's choices in ascending order; the first that
//! the board accepts is placed and the cursor advances. When none is left
//! the cell is cleared and the cursor retreats, to go on after the digit
//! that the earlier cell holds.

use crate::cli::game_updater::CliChannelEvent;
use crate::sudoku::algorithms::completion::{
    all_ahead, ascending_digits, assignment, can_complete, held, is_completion,
    is_least_completion, is_partial, is_plan, is_solvable, lemma_ahead_after_failure,
    lemma_ahead_after_retreat, lemma_ahead_after_success, lemma_ahead_at_end,
    lemma_ahead_at_start, lemma_ahead_exhausted, lemma_ascending_digits,
    lemma_completion_solves, lemma_placement_is_fit, lemma_plan_cells,
    lemma_solution_completes, offers_all, reflects, solves,
};
use crate::sudoku::algorithms::perf::PerfTracker;
use crate::sudoku::algorithms::protocol::{
    ends, first_walk, is_resume, last_walk, lemma_last_walk, lemma_placement_is_allowed,
    lemma_resume_unique, lemma_step_is_refused, lemma_step_places, lemma_step_retreats,
    saturated, step, walk, Walk,
};
use crate::sudoku::algorithms::trail::{
    lemma_trail_digits, lemma_weight_bound, lemma_weight_lex, limit, trail, weight,
};
use crate::sudoku::board::{in_grid, stored_at, CellType, SudokuBoard, SudokuError};
use vstd::prelude::*;

verus! {

/// Where a search takes its cells and the digits to try at each of them.
pub trait CandidateSource {
    /// The cells to fill, in visiting order.
    spec fn cells(&self) -> Seq<(usize, usize)>;

    /// For each cell, the digits to try, in trying order.
    spec fn choices(&self) -> Seq<Seq<CellType>>;

    fn cell_count(&self) -> (n: usize)
        ensures
            n == self.cells().len(),
    ;

    fn cell(&self, k: usize) -> (at: (usize, usize))
        requires
            k < self.cells().len(),
        ensures
            at == self.cells()[k as int],
    ;

    fn choice_count(&self, k: usize) -> (n: usize)
        requires
            k < self.choices().len(),
        ensures
            n == self.choices()[k as int].len(),
    ;

    fn choice(&self, k: usize, c: usize) -> (v: CellType)
        requires
            k < self.choices().len(),
            c < self.choices()[k as int].len(),
        ensures
            v == self.choices()[k as int][c as int],
    ;
}

/// Every cell of the plan holds one of its choices.
pub open spec fn filled(
    board: &SudokuBoard,
    cells: Seq<(usize, usize)>,
    choices: Seq<Seq<CellType>>,
) -> bool {
    forall|k: int|
        0 <= k < cells.len() ==> (#[trigger] held(board, cells, k) matches Some(v)
            && choices[k].contains(v))
}

/// The cells of the plan up to `deepest` are empty, and the later ones hold
/// what they held in `start`.
pub open spec fn unwound_to(
    board: &SudokuBoard,
    start: &SudokuBoard,
    cells: Seq<(usize, usize)>,
    deepest: int,
) -> bool {
    &&& 0 <= deepest < cells.len()
    &&& forall|k: int| 0 <= k <= deepest ==> (#[trigger] held(board, cells, k)) is None
    &&& forall|k: int|
        deepest < k < cells.len() ==> #[trigger] held(board, cells, k) == held(start, cells, k)
}

/// The state after a search that found nothing: the cells it visited are
/// empty again, and the cells it never reached hold what they held.
pub open spec fn unwound(board: &SudokuBoard, start: &SudokuBoard, cells: Seq<(usize, usize)>) -> bool {
    exists|deepest: int| unwound_to(board, start, cells, deepest)
}

/// What one attempt does to the counter: one more, up to the maximum.
pub open spec fn counted(before: u64, after: u64) -> bool {
    after == if before == u64::MAX {
        u64::MAX
    } else {
        (before + 1) as u64
    }
}

/// What a run leaves besides the board: how it ended and what it counted.
pub struct SearchReport {
    /// The snapshot to stream when the board is solved; otherwise why the
    /// run failed.
    pub outcome: Result<Vec<CliChannelEvent>, SudokuError>,
    /// The attempts the run counted and the time it took.
    pub perf: PerfTracker,
}

impl SearchReport {
    /// The search retreated past the first editable cell.
    pub open spec fn exhausted(&self) -> bool {
        self.outcome matches Err(SudokuError::Exhausted)
    }

    /// What a report says of the run that made it: a run that began on the
    /// board `start`, went over `cells` with `choices`, and left the board
    /// `end`.
    pub open spec fn tells(
        &self,
        start: &SudokuBoard,
        end: &SudokuBoard,
        cells: Seq<(usize, usize)>,
        choices: Seq<Seq<CellType>>,
    ) -> bool {
        // The puzzle is the same: no given changed, no cell changed sides.
        &&& end.same_givens(start)
        &&& end.editable_cells() == start.editable_cells()
        // A board without duplicates stays so.
        &&& start.consistent() ==> end.consistent()
        // Success is the board's own final check, and brings the snapshot.
        &&& self.outcome is Ok <==> end.is_solution()
        &&& self.outcome matches Ok(updates) ==> updates@ == end.snapshot()
        // Each failure and what the board is like when it comes.
        &&& self.outcome matches Err(e) ==> match e {
            SudokuError::Exhausted => unwound(end, start, cells),
            SudokuError::Incomplete { x, y } => end.first_gap_at(x as int, y as int),
            SudokuError::Inconsistency => end.is_complete(),
            _ => false,
        }
        // A search that was not exhausted has filled every editable cell.
        &&& !self.exhausted() ==> filled(end, cells, choices)
        // From a fresh board the search finds the first completion in
        // dictionary order, and is exhausted only where there is none.
        &&& start.is_fresh() ==> if self.exhausted() {
            !can_complete(start, cells, choices)
        } else {
            is_least_completion(start, cells, choices, assignment(end, cells))
        }
        // An exhausted search from a fresh board leaves it fresh.
        &&& start.is_fresh() && self.exhausted() ==> end@ == start@
        // A fresh puzzle with sound givens is solved exactly when it has a
        // solution; otherwise the search is exhausted.
        &&& start.is_fresh() && start.consistent() && start.digits_in_range() ==> {
            &&& self.outcome is Ok <==> is_solvable(start)
            &&& self.outcome is Ok || self.exhausted()
        }
        // The run is the walk of the protocol: the walk ends, the search is
        // exhausted exactly when the walk ends so, and the editable cells
        // hold what the walk leaves in them.
        &&& ends(start, cells, choices)
        &&& self.exhausted() <==> last_walk(start, cells, choices).ended == Some(false)
        &&& forall|k: int|
            0 <= k < cells.len() ==> #[trigger] held(end, cells, k) == last_walk(
                start,
                cells,
                choices,
            ).vals[k]
        // Every attempt of the walk was counted, and nothing else.
        &&& self.perf.count() == saturated(last_walk(start, cells, choices).attempts as int)
        // The run was timed from its start to its end.
        &&& self.perf.started()
        &&& self.perf.finished()
    }
}

/// What both strategies offer: prepare a run over a board, and run it.
pub trait BaseAlgorithms<'a>: Sized {
    /// The board that the run fills.
    spec fn target(self) -> &'a mut SudokuBoard;

    /// The cells that the run fills, in visiting order.
    spec fn cells(self) -> Seq<(usize, usize)>;

    /// For each cell, the digits that the run tries, in trying order.
    spec fn choices(self) -> Seq<Seq<CellType>>;

    /// Prepares a run over `sudoku_board`.
    fn new(sudoku_board: &'a mut SudokuBoard) -> (solver: Self)
        ensures
            *solver.target() == *old(sudoku_board),
            *final(solver.target()) == *final(sudoku_board),
            is_plan(old(sudoku_board), solver.cells(), solver.choices()),
            offers_all(old(sudoku_board), solver.cells(), solver.choices()),
    ;

    /// Runs the search to its end, checks the board and reports.
    fn resolve(self) -> (report: SearchReport)
        ensures
            report.tells(
                old(self.target()),
                final(self.target()),
                self.cells(),
                self.choices(),
            ),
    ;

    /// One attempt to store `value` at `(x, y)`, counted whether or not the
    /// board accepts it.
    fn update_and_incr(
        board: &mut SudokuBoard,
        perf: &mut PerfTracker,
        x: usize,
        y: usize,
        value: Option<CellType>,
    ) -> (placed: bool)
        ensures
            placed <==> in_grid(x as int, y as int) && old(board).placement_ok(
                x as int,
                y as int,
                value,
            ),
            placed ==> final(board).stores(old(board), x as int, y as int, value),
            !placed ==> *final(board) == *old(board),
            final(board).editable_cells() == old(board).editable_cells(),
            old(board).consistent() ==> final(board).consistent(),
            counted(old(perf).count(), final(perf).count()),
            final(perf).start_reading() == old(perf).start_reading(),
            final(perf).end_reading() == old(perf).end_reading(),
    {
        attempt(board, perf, x, y, value)
    }
}

/// Tries to store `value` at `(x, y)` and counts the attempt.
pub fn attempt(
    board: &mut SudokuBoard,
    perf: &mut PerfTracker,
    x: usize,
    y: usize,
    value: Option<CellType>,
) -> (placed: bool)
    ensures
        placed <==> in_grid(x as int, y as int) && old(board).placement_ok(x as int, y as int, value),
        placed ==> final(board).stores(old(board), x as int, y as int, value),
        !placed ==> *final(board) == *old(board),
        final(board).editable_cells() == old(board).editable_cells(),
        old(board).consistent() ==> final(board).consistent(),
        counted(old(perf).count(), final(perf).count()),
        final(perf).start_reading() == old(perf).start_reading(),
        final(perf).end_reading() == old(perf).end_reading(),
{
    let res = board.update_value(x, y, value);
    perf.incr();
    res.is_ok()
}

/// What a store at cell `i` of the plan does to the cells of the plan.
proof fn lemma_store_at_cursor(
    before: &SudokuBoard,
    after: &SudokuBoard,
    start: &SudokuBoard,
    cells: Seq<(usize, usize)>,
    i: int,
    value: Option<CellType>,
)
    requires
        cells == start.editable_cells(),
        0 <= i < cells.len(),
        before.same_givens(start),
        after.stores(before, cells[i].0 as int, cells[i].1 as int, value),
    ensures
        after.same_givens(start),
        held(after, cells, i) == value,
        forall|k: int|
            0 <= k < cells.len() && k != i ==> #[trigger] held(after, cells, k) == held(
                before,
                cells,
                k,
            ),
{
    lemma_plan_cells(start, cells);
    let x = cells[i].0 as int;
    let y = cells[i].1 as int;
    assert(before.cell(x, y).editable == start.cell(x, y).editable);
    assert forall|r: int, c: int| in_grid(r, c) implies {
        &&& (#[trigger] after.cell(r, c)).editable == start.cell(r, c).editable
        &&& after.cell(r, c).x == start.cell(r, c).x
        &&& after.cell(r, c).y == start.cell(r, c).y
        &&& !after.cell(r, c).editable ==> after.cell(r, c).value == start.cell(r, c).value
    } by {
        assert(before.cell(r, c).editable == start.cell(r, c).editable);
        if !(r == x && c == y) {
            assert(after.cell(r, c) == before.cell(r, c));
        }
    }
    assert forall|k: int| 0 <= k < cells.len() && k != i implies #[trigger] held(after, cells, k)
        == held(before, cells, k) by {
        assert(cells[k] != cells[i]);
        assert(after.cell(cells[k].0 as int, cells[k].1 as int) == before.cell(
            cells[k].0 as int,
            cells[k].1 as int,
        ));
    }
}

/// The index of the first choice at cell `k` that is greater than `stored`:
/// where the search goes on at a cell that it comes back to.
fn resume_index<S: CandidateSource>(source: &S, k: usize, stored: Option<CellType>) -> (next: usize)
    requires
        k < source.choices().len(),
        ascending_digits(source.choices()[k as int]),
    ensures
        next <= source.choices()[k as int].len(),
        is_resume(source.choices()[k as int], stored, next as int),
        match stored {
            None => next == 0,
            Some(s) => {
                &&& forall|c: int| 0 <= c < next ==> #[trigger] source.choices()[k as int][c] <= s
                &&& forall|c: int|
                    next <= c < source.choices()[k as int].len() ==> s
                        < #[trigger] source.choices()[k as int][c]
            },
        },
{
    match stored {
        None => 0,
        Some(s) => {
            let count = source.choice_count(k);
            let mut next: usize = 0;
            while next < count && source.choice(k, next) <= s
                invariant
                    k < source.choices().len(),
                    count == source.choices()[k as int].len(),
                    next <= count,
                    forall|c: int| 0 <= c < next ==> #[trigger] source.choices()[k as int][c] <= s,
                decreases count - next,
            {
                next += 1;
            }
            proof {
                let list = source.choices()[k as int];
                assert forall|c: int| next <= c < list.len() implies s < #[trigger] list[c] by {
                    if c > next {
                        assert(list[next as int] < list[c]);
                    }
                }
            }
            next
        },
    }
}

/// The search itself. It returns whether every cell of the plan was filled.
pub(crate) fn search<S: CandidateSource>(
    board: &mut SudokuBoard,
    source: &S,
    perf: &mut PerfTracker,
) -> (solved: bool)
    requires
        is_plan(old(board), source.cells(), source.choices()),
    ensures
        final(board).same_givens(old(board)),
        final(board).editable_cells() == old(board).editable_cells(),
        old(board).consistent() ==> final(board).consistent(),
        solved ==> filled(final(board), source.cells(), source.choices()),
        !solved ==> unwound(final(board), old(board), source.cells()),
        old(board).is_fresh() ==> if solved {
            is_least_completion(
                old(board),
                source.cells(),
                source.choices(),
                assignment(final(board), source.cells()),
            )
        } else {
            !can_complete(old(board), source.cells(), source.choices())
        },
        ends(old(board), source.cells(), source.choices()),
        last_walk(old(board), source.cells(), source.choices()).ended == Some(solved),
        forall|k: int|
            0 <= k < source.cells().len() ==> #[trigger] held(final(board), source.cells(), k)
                == last_walk(old(board), source.cells(), source.choices()).vals[k],
        final(perf).count() == saturated(
            old(perf).count() + last_walk(old(board), source.cells(), source.choices()).attempts,
        ),
        final(perf).start_reading() == old(perf).start_reading(),
        final(perf).end_reading() == old(perf).end_reading(),
{
    let ghost start = *board;
    let ghost cells = source.cells();
    let ghost choices = source.choices();
    let n = source.cell_count();
    proof {
        lemma_plan_cells(&start, cells);
        lemma_ahead_at_start(&start, cells, choices);
    }
    if n == 0 {
        proof {
            lemma_ahead_at_end(&start, cells, choices, Seq::empty(), 0);
            assert(assignment(&start, cells) =~= Seq::<CellType>::empty());
            lemma_last_walk(&start, cells, choices, 0);
        }
        return true;
    }
    let mut i: usize = 0;
    let first = source.cell(0);
    let mut next: usize = resume_index(source, 0, stored_at(board, first.0, first.1));
    let ghost mut picked: Seq<int> = Seq::empty();
    let ghost mut t: Seq<CellType> = Seq::empty();
    let ghost mut deepest: int = 0;
    let ghost mut w: Walk = first_walk(&start, cells, choices);
    let ghost mut steps: nat = 0;
    proof {
        lemma_ascending_digits_len(choices[0]);
        lemma_resume_unique(choices[0], w.vals[0], next as int);
    }
    loop
        invariant
            start == *old(board),
            n == cells.len(),
            0 < n <= 81,
            cells == source.cells(),
            choices == source.choices(),
            is_plan(&start, cells, choices),
            board.same_givens(&start),
            board.editable_cells() == start.editable_cells(),
            start.consistent() ==> board.consistent(),
            perf.start_reading() == old(perf).start_reading(),
            perf.end_reading() == old(perf).end_reading(),
            // The walk of the protocol as far as the search has come.
            w == walk(&start, cells, choices, steps),
            w.ended is None,
            w.cursor == i,
            w.next == next,
            w.vals.len() == n,
            forall|k: int| 0 <= k < n ==> #[trigger] held(board, cells, k) == w.vals[k],
            perf.count() == saturated(old(perf).count() + w.attempts),
            // The cursor `i`, the next choice to try there, and the choices
            // `picked` with their digits `t` at the cells before the cursor.
            0 <= i < n,
            next <= choices[i as int].len() <= 9,
            picked.len() == i,
            t.len() == i,
            forall|k: int|
                0 <= k < i ==> {
                    &&& 0 <= #[trigger] picked[k] < choices[k].len()
                    &&& picked[k] < 9
                    &&& t[k] == choices[k][picked[k]]
                },
            forall|k: int| 0 <= k < i ==> #[trigger] held(board, cells, k) == Some(t[k]),
            // A digit left at the cursor is smaller than every choice that
            // is still to be tried there.
            held(board, cells, i as int) matches Some(s) ==> forall|c: int|
                next <= c < choices[i as int].len() ==> s < #[trigger] choices[i as int][c],
            // Behind the cursor: empty as far as the search has been, and
            // untouched beyond.
            i <= deepest < n,
            forall|k: int| i < k <= deepest ==> (#[trigger] held(board, cells, k)) is None,
            forall|k: int|
                deepest < k < n ==> #[trigger] held(board, cells, k) == held(&start, cells, k),
            // From a fresh board: the digits placed fit, and no completion
            // was passed over.
            start.is_fresh() ==> is_partial(&start, cells, choices, t) && all_ahead(
                &start,
                cells,
                choices,
                t,
                next as int,
            ),
        decreases limit(n as nat) - weight(trail(picked, next as int, n as nat)),
    {
        let ghost before = *board;
        let ghost old_trail = trail(picked, next as int, n as nat);
        proof {
            lemma_plan_cells(&start, cells);
            lemma_trail_digits(picked, next as int, n as nat);
            lemma_weight_bound(old_trail);
        }
        let (x, y) = source.cell(i);
        if next < source.choice_count(i) {
            let v = source.choice(i, next);
            let placed = attempt(board, perf, x, y, Some(v));
            proof {
                lemma_placement_is_allowed(&before, &start, cells, w.vals, i as int, v);
                if placed {
                    lemma_step_places(&start, cells, choices, w);
                } else {
                    lemma_step_is_refused(&start, cells, choices, w);
                }
                steps = steps + 1;
                w = step(&start, cells, choices, w);
                if start.is_fresh() {
                    assert(reflects(&before, &start, cells, t)) by {
                        assert forall|k: int| t.len() < k < cells.len() implies (#[trigger] held(
                            &before,
                            cells,
                            k,
                        )) is None by {
                            if k > deepest {
                                assert(held(&before, cells, k) == held(&start, cells, k));
                                assert(start.editable_at(cells[k].0 as int, cells[k].1 as int));
                            }
                        }
                    }
                    lemma_placement_is_fit(&before, &start, cells, t, v);
                }
            }
            if placed {
                proof {
                    lemma_store_at_cursor(&before, board, &start, cells, i as int, Some(v));
                    if start.is_fresh() {
                        lemma_ahead_after_success(&start, cells, choices, t, next as int);
                    }
                    picked = picked.push(next as int);
                    t = t.push(v);
                }
                i += 1;
                if i == n {
                    proof {
                        assert(filled(board, cells, choices)) by {
                            assert forall|k: int| 0 <= k < cells.len() implies (#[trigger] held(
                                board,
                                cells,
                                k,
                            ) matches Some(d) && choices[k].contains(d)) by {
                                assert(held(board, cells, k) == Some(t[k]));
                                assert(t[k] == choices[k][picked[k]]);
                            }
                        }
                        if start.is_fresh() {
                            lemma_ahead_at_end(&start, cells, choices, t, 0);
                            assert(assignment(board, cells) =~= t) by {
                                assert forall|k: int| 0 <= k < cells.len() implies assignment(
                                    board,
                                    cells,
                                )[k] == t[k] by {
                                    assert(held(board, cells, k) == Some(t[k]));
                                }
                            }
                        }
                        lemma_last_walk(&start, cells, choices, steps);
                    }
                    return true;
                }
                let at = source.cell(i);
                next = resume_index(source, i, stored_at(board, at.0, at.1));
                proof {
                    lemma_resume_unique(choices[i as int], w.vals[i as int], next as int);
                    lemma_ascending_digits_len(choices[i as int]);
                    if i as int > deepest {
                        deepest = i as int;
                    }
                    if start.is_fresh() {
                        assert(held(board, cells, i as int) is None) by {
                            assert(start.editable_at(cells[i as int].0 as int, cells[i as int].1 as int));
                        }
                    }
                    let new_trail = trail(picked, next as int, n as nat);
                    lemma_trail_digits(picked, next as int, n as nat);
                    lemma_weight_lex(old_trail, new_trail, i - 1);
                    lemma_weight_bound(new_trail);
                }
            } else {
                proof {
                    if start.is_fresh() {
                        lemma_ahead_after_failure(&start, cells, choices, t, next as int);
                    }
                }
                next += 1;
                proof {
                    let new_trail = trail(picked, next as int, n as nat);
                    lemma_trail_digits(picked, next as int, n as nat);
                    lemma_weight_lex(old_trail, new_trail, i as int);
                    lemma_weight_bound(new_trail);
                }
            }
        } else {
            let cleared = attempt(board, perf, x, y, None);
            proof {
                lemma_store_at_cursor(&before, board, &start, cells, i as int, None);
                lemma_step_retreats(&start, cells, choices, w);
                steps = steps + 1;
                w = step(&start, cells, choices, w);
            }
            if i == 0 {
                proof {
                    lemma_last_walk(&start, cells, choices, steps);
                    assert(unwound_to(board, &start, cells, deepest));
                    if start.is_fresh() {
                        assert(t =~= Seq::<CellType>::empty());
                        lemma_ahead_exhausted(&start, cells, choices);
                    }
                }
                return false;
            }
            i -= 1;
            let at = source.cell(i);
            next = resume_index(source, i, stored_at(board, at.0, at.1));
            proof {
                lemma_resume_unique(choices[i as int], w.vals[i as int], next as int);
                let rank = picked.last();
                let list = choices[i as int];
                lemma_ascending_digits_len(list);
                assert(held(board, cells, i as int) == Some(t.last()));
                assert(list[rank] == t.last());
                assert(next == rank + 1) by {
                    if next <= rank {
                        assert(t.last() < list[rank]);
                    }
                    if next > rank + 1 {
                        assert(list[rank + 1] <= t.last());
                        assert(list[rank] < list[rank + 1]);
                    }
                }
                if start.is_fresh() {
                    lemma_ahead_after_retreat(&start, cells, choices, t, rank);
                }
                picked = picked.drop_last();
                t = t.drop_last();
                let new_trail = trail(picked, next as int, n as nat);
                lemma_trail_digits(picked, next as int, n as nat);
                lemma_weight_lex(old_trail, new_trail, i as int);
                lemma_weight_bound(new_trail);
            }
        }
    }
}

/// A whole run over `board` with the cells and choices of `source`: the
/// search, timed and counted, and then the board's own final check.
pub(crate) fn run<S: CandidateSource>(board: &mut SudokuBoard, source: &S) -> (report: SearchReport)
    requires
        is_plan(old(board), source.cells(), source.choices()),
        offers_all(old(board), source.cells(), source.choices()),
    ensures
        report.tells(old(board), final(board), source.cells(), source.choices()),
{
    let ghost start = *board;
    let ghost cells = source.cells();
    let ghost choices = source.choices();
    let mut perf = PerfTracker::new();
    perf.start();
    let solved = search(board, source, &mut perf);
    perf.finish();
    let outcome = if solved {
        board.finish()
    } else {
        Err(SudokuError::Exhausted)
    };
    proof {
        if !solved {
            let deepest = choose|deepest: int| unwound_to(board, &start, cells, deepest);
            assert(held(board, cells, 0) is None);
            lemma_plan_cells(&start, cells);
            board.lemma_solution_characterised();
            assert(!board.is_solution());
        }
        if start.is_fresh() && start.consistent() && start.digits_in_range() {
            if is_solvable(&start) {
                let end = choose|end: SudokuBoard| solves(&end, &start);
                lemma_solution_completes(&end, &start, cells, choices);
                assert(is_completion(&start, cells, choices, assignment(&end, cells)));
                assert(solved);
                lemma_completion_solves(board, &start, cells, choices);
            }
            if outcome is Ok {
                assert(solves(board, &start));
            }
            if solved {
                lemma_completion_solves(board, &start, cells, choices);
            }
        }
        if start.is_fresh() && !solved {
            let deepest = choose|deepest: int| unwound_to(board, &start, cells, deepest);
            lemma_plan_cells(&start, cells);
            assert forall|x: int, y: int| in_grid(x, y) implies board.value_at(x, y)
                == start.value_at(x, y) by {
                assert(board.cell(x, y).editable == start.cell(x, y).editable);
                if start.editable_at(x, y) {
                    let k = choose|k: int|
                        0 <= k < cells.len() && #[trigger] cells[k] == (x as usize, y as usize);
                    assert(held(board, cells, k) is None);
                    assert(held(&start, cells, k) is None);
                }
            }
            assert(board@ =~~= start@);
        }
    }
    SearchReport { outcome, perf }
}

/// A list of ascending digits holds at most nine.
proof fn lemma_ascending_digits_len(list: Seq<CellType>)
    requires
        ascending_digits(list),
    ensures
        list.len() <= 9,
{
    if list.len() > 0 {
        lemma_ascending_digits(list, 0);
    }
}

} // verus!
