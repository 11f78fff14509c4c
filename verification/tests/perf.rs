use sudoku_solver::sudoku::algorithms::perf::PerfTracker;

#[test]
fn a_new_tracker_has_not_started() {
    let tracker = PerfTracker::new();
    assert_eq!(tracker.actions(), 0);
    assert!(tracker.elapsed().is_none());
}

#[test]
fn a_tracker_that_was_only_finished_has_no_elapsed_time() {
    let mut tracker = PerfTracker::new();
    tracker.finish();
    assert!(tracker.elapsed().is_none());
}

#[test]
fn start_resets_the_counter() {
    let mut tracker = PerfTracker::new();
    tracker.incr();
    tracker.incr();
    assert_eq!(tracker.actions(), 2);
    tracker.start();
    assert_eq!(tracker.actions(), 0);
    tracker.incr();
    assert_eq!(tracker.actions(), 1);
    assert!(tracker.elapsed().is_some());
}

#[test]
fn elapsed_stands_still_once_the_run_is_finished() {
    let mut tracker = PerfTracker::new();
    tracker.start();
    tracker.incr();
    tracker.finish();
    let first = tracker.elapsed().unwrap();
    let second = tracker.elapsed().unwrap();
    assert_eq!(first, second);
    assert_eq!(tracker.actions(), 1);
}

#[test]
fn elapsed_runs_on_while_the_run_is_not_finished() {
    let mut tracker = PerfTracker::new();
    tracker.start();
    let first = tracker.elapsed().unwrap();
    let second = tracker.elapsed().unwrap();
    assert!(first <= second);
}
