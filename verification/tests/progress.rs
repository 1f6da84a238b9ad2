use wasm_crypto::chunks::count_chunks;
use wasm_crypto::progress::{
    progress_percent, NoProgress, ProgressLog, ProgressObserver, ProgressReporter,
};

#[test]
fn percent_of_two_chunks() {
    assert_eq!(progress_percent(1, 2), 50);
    assert_eq!(progress_percent(2, 2), 100);
}

#[test]
fn percent_rounds_to_nearest() {
    assert_eq!(progress_percent(1, 3), 33);
    assert_eq!(progress_percent(2, 3), 67);
    assert_eq!(progress_percent(3, 3), 100);
    assert_eq!(progress_percent(1, 7), 14);
    assert_eq!(progress_percent(29, 100), 29);
}

#[test]
fn percent_rounds_a_half_up() {
    assert_eq!(progress_percent(1, 8), 13);
    assert_eq!(progress_percent(1, 200), 1);
    assert_eq!(progress_percent(1, 201), 0);
    assert_eq!(progress_percent(0, 5), 0);
}

#[test]
fn percent_of_huge_counts_does_not_overflow() {
    assert_eq!(progress_percent(usize::MAX, usize::MAX), 100);
    assert_eq!(progress_percent(usize::MAX / 2, usize::MAX), 50);
    assert_eq!(progress_percent(1, usize::MAX), 0);
}

#[test]
fn percentages_never_decrease_and_end_at_100() {
    let mut total: usize = 1;
    while total <= 130 {
        let mut previous: u32 = 0;
        let mut done: usize = 1;
        while done <= total {
            let percent = progress_percent(done, total);
            assert!(percent >= previous);
            assert!(percent <= 100);
            previous = percent;
            done += 1;
        }
        assert_eq!(previous, 100);
        total += 1;
    }
}

#[test]
fn chunk_counts_round_up() {
    assert_eq!(count_chunks(0, 16), 0);
    assert_eq!(count_chunks(1, 16), 1);
    assert_eq!(count_chunks(16, 16), 1);
    assert_eq!(count_chunks(17, 16), 2);
    assert_eq!(count_chunks(32, 16), 2);
    assert_eq!(count_chunks(5 * 2_097_152 + 1, 2_097_152), 6);
    assert_eq!(count_chunks(usize::MAX, 1), usize::MAX);
    assert_eq!(count_chunks(usize::MAX, usize::MAX), 1);
    assert_eq!(count_chunks(10, usize::MAX), 1);
}

#[test]
fn log_keeps_reports_in_order() {
    let mut reporter = ProgressReporter::new(ProgressLog::new());
    reporter.report(25);
    reporter.report(50);
    reporter.report(100);
    assert_eq!(reporter.observer().percentages, vec![25, 50, 100]);
    assert_eq!(reporter.into_observer().percentages, vec![25, 50, 100]);
}

struct Tally {
    calls: usize,
    last: u32,
}

impl ProgressObserver for Tally {
    fn on_progress(&mut self, percent: u32) {
        self.calls += 1;
        self.last = percent;
    }
}

#[test]
fn any_observer_can_be_plugged_in() {
    let mut reporter = ProgressReporter::new(Tally { calls: 0, last: 0 });
    reporter.report(40);
    reporter.report(80);
    let tally = reporter.into_observer();
    assert_eq!(tally.calls, 2);
    assert_eq!(tally.last, 80);
}

#[test]
fn silent_observer_accepts_reports() {
    let mut reporter = ProgressReporter::new(NoProgress);
    reporter.report(100);
    let _ = reporter.into_observer();
}
