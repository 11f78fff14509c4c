//! The messages a solving run sends to the renderer, and the renderer's
//! throttling decisions.
//!
//! The renderer receives updates on its own schedule. It keeps the board it
//! has heard of and the text of its latest state. The first update opens an
//! interval; an update is drawn when at least the throttle interval has
//! passed since the interval was opened, and it opens the next. When the run
//! is over the renderer draws the latest state whatever the time.

use crate::cli::sudoku_printer::{is_drawing, SudokuPrinter};
use crate::sudoku::board::SudokuCell;
use vstd::arithmetic::div_mod::{
    lemma_div_is_ordered, lemma_fundamental_div_mod, lemma_fundamental_div_mod_converse,
};
use vstd::prelude::*;

verus! {

/// One message of the progress channel.
#[derive(Clone, Copy, Debug, PartialEq, Eq, Structural)]
pub enum CliChannelEvent {
    /// A cell took a new state.
    Update(SudokuCell),
    /// The run is over: render what is held and stop.
    ForceLastPrint,
}

/// What the renderer is to do after one message.
#[derive(Debug, PartialEq, Eq)]
pub enum UpdaterAction {
    /// Draw this text and go on receiving.
    Render(String),
    /// Draw nothing and go on receiving.
    Hold,
    /// Draw this text, if there is one, and stop receiving.
    Stop(Option<String>),
}

/// The throttle interval where none is asked for, in milliseconds.
pub const DEFAULT_THROTTLE_MS: u64 = 100;

/// Whether an update that arrives at `now` is drawn, where `last` is when
/// the running interval was opened: when `interval` has passed since. Before
/// the first update no interval is open, and only an interval of zero lets
/// the update be drawn. A clock that ran backwards counts as no time passed.
pub open spec fn is_due(last: Option<u64>, interval: u64, now: u64) -> bool {
    match last {
        None => interval == 0,
        Some(t) => (if now >= t {
            now - t
        } else {
            0
        }) >= interval,
    }
}

/// When the running interval was opened, after an update at `now`: at `now`
/// where the update was drawn or was the first, else where it was.
pub open spec fn opened(last: Option<u64>, interval: u64, now: u64) -> Option<u64> {
    match last {
        Some(t) if !is_due(last, interval, now) => Some(t),
        _ => Some(now),
    }
}

/// The state of the renderer between two messages.
pub struct GameUpdater {
    throttle_ms: u64,
    sudoku: SudokuPrinter,
    last_print: Option<u64>,
    last_message: Option<String>,
}

impl GameUpdater {
    /// The throttle interval in milliseconds.
    pub closed spec fn interval(&self) -> u64 {
        self.throttle_ms
    }

    /// When the running interval was opened: at the first update, and
    /// since then at the update drawn last.
    pub closed spec fn last_render(&self) -> Option<u64> {
        self.last_print
    }

    /// The text of the latest state, once an update has come.
    pub closed spec fn held(&self) -> Option<Seq<char>> {
        match self.last_message {
            Some(message) => Some(message@),
            None => None,
        }
    }

    /// The cells the renderer has heard of.
    pub closed spec fn screen(&self) -> [[SudokuCell; 9]; 9] {
        self.sudoku.board
    }

    /// The screen after an update of `cell`: the value and the flag of the
    /// cell at its coordinates change, nothing else.
    pub open spec fn shows(&self, before: &GameUpdater, cell: SudokuCell) -> bool {
        forall|x: int, y: int|
            0 <= x < 9 && 0 <= y < 9 ==> #[trigger] self.screen()[x][y] == if x == cell.x && y
                == cell.y {
                SudokuCell { value: cell.value, editable: cell.editable, ..before.screen()[x][y] }
            } else {
                before.screen()[x][y]
            }
    }

    /// A renderer that has drawn nothing yet, with the given interval or the
    /// default of 100 ms.
    pub fn new(throttle_ms: Option<u64>) -> (updater: Self)
        ensures
            updater.interval() == match throttle_ms {
                Some(ms) => ms,
                None => DEFAULT_THROTTLE_MS,
            },
            updater.last_render() is None,
            updater.held() is None,
            forall|x: int, y: int|
                0 <= x < 9 && 0 <= y < 9 ==> #[trigger] updater.screen()[x][y] == (SudokuCell {
                    editable: false,
                    value: None,
                    x: 0,
                    y: 0,
                }),
    {
        GameUpdater {
            throttle_ms: match throttle_ms {
                Some(ms) => ms,
                None => DEFAULT_THROTTLE_MS,
            },
            sudoku: SudokuPrinter::new(),
            last_print: None,
            last_message: None,
        }
    }

    /// Takes an update into the screen and draws the screen.
    pub fn format(&mut self, sudoku_message: SudokuCell) -> (out: String)
        requires
            sudoku_message.x < 9,
            sudoku_message.y < 9,
        ensures
            final(self).shows(old(self), sudoku_message),
            is_drawing(out@, final(self).screen()),
            final(self).interval() == old(self).interval(),
            final(self).last_render() == old(self).last_render(),
            final(self).held() == old(self).held(),
    {
        self.sudoku.board[sudoku_message.x][sudoku_message.y].value = sudoku_message.value;
        self.sudoku.board[sudoku_message.x][sudoku_message.y].editable = sudoku_message.editable;
        self.sudoku.render()
    }

    /// Whether an update that arrives at `now` is to be drawn.
    fn due(&self, now: u64) -> (due: bool)
        ensures
            due == is_due(self.last_render(), self.interval(), now),
    {
        match self.last_print {
            None => self.throttle_ms == 0,
            Some(last) => now.saturating_sub(last) >= self.throttle_ms,
        }
    }

    /// One step of the renderer: what to do about the message received at
    /// `now` (in milliseconds on a clock of the caller), where `None` stands
    /// for a channel whose sender is gone.
    pub fn listen(&mut self, received: Option<CliChannelEvent>, now: u64) -> (action: UpdaterAction)
        requires
            received matches Some(CliChannelEvent::Update(cell)) ==> cell.x < 9 && cell.y < 9,
        ensures
            final(self).interval() == old(self).interval(),
            match received {
                Some(CliChannelEvent::Update(cell)) => {
                    &&& final(self).shows(old(self), cell)
                    &&& final(self).held() matches Some(text) && is_drawing(
                        text,
                        final(self).screen(),
                    )
                    &&& if is_due(old(self).last_render(), old(self).interval(), now) {
                        action matches UpdaterAction::Render(out) && Some(out@)
                            == final(self).held()
                    } else {
                        action is Hold
                    }
                    &&& final(self).last_render() == opened(
                        old(self).last_render(),
                        old(self).interval(),
                        now,
                    )
                },
                _ => {
                    &&& action matches UpdaterAction::Stop(last) && (match last {
                        Some(out) => Some(out@),
                        None => None,
                    }) == old(self).held()
                    &&& final(self).held() is None
                    &&& final(self).screen() == old(self).screen()
                    &&& final(self).last_render() == old(self).last_render()
                },
            },
    {
        match received {
            Some(CliChannelEvent::Update(sudoku_cell)) => {
                let out = self.format(sudoku_cell);
                if self.due(now) {
                    self.last_print = Some(now);
                    self.last_message = Some(out.clone());
                    UpdaterAction::Render(out)
                } else {
                    if self.last_print.is_none() {
                        self.last_print = Some(now);
                    }
                    self.last_message = Some(out);
                    UpdaterAction::Hold
                }
            },
            _ => UpdaterAction::Stop(self.last_message.take()),
        }
    }
}

/// How many of the updates that arrive at `times` are drawn by a renderer
/// whose running interval was opened at `last`.
pub open spec fn drawn(times: Seq<u64>, interval: u64, last: Option<u64>) -> nat
    decreases times.len(),
{
    if times.len() == 0 {
        0
    } else {
        (if is_due(last, interval, times[0]) {
            1nat
        } else {
            0nat
        }) + drawn(times.skip(1), interval, opened(last, interval, times[0]))
    }
}

/// Each time is later than the one before.
pub open spec fn is_increasing(times: Seq<u64>) -> bool {
    forall|i: int, j: int| 0 <= i < j < times.len() ==> #[trigger] times[i] < #[trigger] times[j]
}

/// `a / b`, rounded up.
pub open spec fn ceil_div(a: int, b: int) -> int {
    (a + b - 1) / b
}

/// After an update drawn at `last`, the updates up to the final one are
/// drawn at most once for every whole interval that has passed since.
pub proof fn lemma_drawn_after(times: Seq<u64>, interval: u64, last: u64)
    requires
        interval > 0,
        times.len() > 0,
        is_increasing(times),
        last <= times[0],
    ensures
        drawn(times, interval, Some(last)) <= (times.last() - last) / (interval as int),
    decreases times.len(),
{
    reveal_with_fuel(drawn, 2);
    let rest = times.skip(1);
    let first = times[0];
    let end = times.last();
    let step = interval as int;
    assert(first <= end) by {
        if times.len() > 1 {
            assert(times[0] < times[times.len() - 1]);
        }
    }
    if rest.len() > 0 {
        assert(is_increasing(rest)) by {
            assert forall|i: int, j: int| 0 <= i < j < rest.len() implies #[trigger] rest[i]
                < #[trigger] rest[j] by {
                assert(times[i + 1] < times[j + 1]);
            }
        }
        assert(rest.last() == end);
        assert(rest[0] == times[1]);
        assert(times[0] < times[1]);
    }
    lemma_fundamental_div_mod(end - last, step);
    if is_due(Some(last), interval, first) {
        lemma_div_is_ordered(step, end - last, step);
        assert(step / step == 1) by {
            lemma_fundamental_div_mod_converse(step, step, 1, 0);
        }
        if rest.len() > 0 {
            lemma_drawn_after(rest, interval, first);
            let q = (end - first) / step;
            lemma_fundamental_div_mod(end - first, step);
            assert((end - first) + step == (q + 1) * step + (end - first) % step)
                by (nonlinear_arith)
                requires
                    end - first == step * q + (end - first) % step,
            ;
            lemma_fundamental_div_mod_converse(
                (end - first) + step,
                step,
                q + 1,
                (end - first) % step,
            );
            lemma_div_is_ordered((end - first) + step, end - last, step);
        }
    } else {
        if rest.len() > 0 {
            lemma_drawn_after(rest, interval, last);
        } else {
            lemma_div_is_ordered(0, end - last, step);
            assert(0int / step == 0) by {
                lemma_fundamental_div_mod_converse(0, step, 0, 0);
            }
        }
    }
}

/// The throttle: with the draw at the end of the run counted, the renderer
/// draws at most once for every whole interval between the first update and
/// the last, and once more. That is never more than the span divided by the
/// interval, rounded up, and one.
pub proof fn lemma_throttle_bound(times: Seq<u64>, interval: u64)
    requires
        interval > 0,
        times.len() > 0,
        is_increasing(times),
    ensures
        drawn(times, interval, None) + 1 <= (times.last() - times[0]) / (interval as int) + 1,
        drawn(times, interval, None) + 1 <= ceil_div(times.last() - times[0], interval as int) + 1,
{
    reveal_with_fuel(drawn, 2);
    let rest = times.skip(1);
    let step = interval as int;
    let span = times.last() - times[0];
    if rest.len() > 0 {
        assert(is_increasing(rest)) by {
            assert forall|i: int, j: int| 0 <= i < j < rest.len() implies #[trigger] rest[i]
                < #[trigger] rest[j] by {
                assert(times[i + 1] < times[j + 1]);
            }
        }
        assert(rest.last() == times.last());
        assert(times[0] < times[1]);
        lemma_drawn_after(rest, interval, times[0]);
    } else {
        assert(0int / step == 0) by {
            lemma_fundamental_div_mod_converse(0, step, 0, 0);
        }
    }
    lemma_div_is_ordered(span, span + step - 1, step);
}

/// With an interval of zero every update is drawn.
pub proof fn lemma_no_throttle(times: Seq<u64>, last: Option<u64>)
    ensures
        drawn(times, 0, last) == times.len(),
    decreases times.len(),
{
    if times.len() > 0 {
        lemma_no_throttle(times.skip(1), opened(last, 0, times[0]));
    }
}

} // verus!
