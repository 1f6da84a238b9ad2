//! Progress of a chunked decryption: the percentage after each chunk, and the
//! observer that is told of it.

use vstd::prelude::*;

verus! {

/// The percentage reached when `completed` of `total` chunks are done:
/// `100 * completed / total`, rounded to the nearest whole number, a half
/// rounding up.
pub open spec fn progress_percent_spec(completed: nat, total: nat) -> nat {
    (200 * completed + total) / (2 * total)
}

/// The percentages that a run over `total` chunks reports, in order: one per
/// chunk, the `i`-th after `i + 1` chunks are done.
pub open spec fn progress_reports(total: nat) -> Seq<u32> {
    Seq::new(total, |i: int| progress_percent_spec((i + 1) as nat, total) as u32)
}

/// A percentage never exceeds 100, and it is exactly 100 when every chunk is
/// done.
pub proof fn lemma_progress_percent_bounds(completed: nat, total: nat)
    requires
        0 < total,
        completed <= total,
    ensures
        progress_percent_spec(completed, total) <= 100,
        progress_percent_spec(total, total) == 100,
{
    let t = total as int;
    let c = completed as int;
    assert((200 * c + t) / (2 * t) <= 100) by (nonlinear_arith)
        requires
            0 < t,
            0 <= c <= t,
    ;
    assert((200 * t + t) / (2 * t) == 100) by (nonlinear_arith)
        requires
            0 < t,
    ;
}

/// More completed chunks never give a smaller percentage.
pub proof fn lemma_progress_percent_monotone(earlier: nat, later: nat, total: nat)
    requires
        0 < total,
        earlier <= later,
    ensures
        progress_percent_spec(earlier, total) <= progress_percent_spec(later, total),
{
    let t = total as int;
    let a = earlier as int;
    let b = later as int;
    assert((200 * a + t) / (2 * t) <= (200 * b + t) / (2 * t)) by (nonlinear_arith)
        requires
            0 < t,
            0 <= a <= b,
    ;
}

/// The reports of one run never decrease, none exceeds 100, and the last one
/// is exactly 100.
pub proof fn lemma_progress_reports_rise_to_100(total: nat)
    requires
        0 < total,
    ensures
        progress_reports(total).len() == total,
        forall|i: int| 0 <= i < total ==> #[trigger] progress_reports(total)[i] <= 100,
        forall|i: int, j: int|
            0 <= i <= j < total ==> progress_reports(total)[i] <= progress_reports(total)[j],
        progress_reports(total).last() == 100,
{
    let reports = progress_reports(total);
    assert forall|i: int| 0 <= i < total implies #[trigger] reports[i]
        == progress_percent_spec((i + 1) as nat, total) && reports[i] <= 100 by {
        lemma_progress_percent_bounds((i + 1) as nat, total);
    }
    assert forall|i: int, j: int| 0 <= i <= j < total implies reports[i] <= reports[j] by {
        lemma_progress_percent_monotone((i + 1) as nat, (j + 1) as nat, total);
    }
    lemma_progress_percent_bounds(total, total);
}

/// Computes the percentage reached when `completed` of `total` chunks are
/// done.
pub fn progress_percent(completed: usize, total: usize) -> (percent: u32)
    requires
        0 < total,
        completed <= total,
    ensures
        percent == progress_percent_spec(completed as nat, total as nat),
        percent <= 100,
{
    proof {
        lemma_progress_percent_bounds(completed as nat, total as nat);
    }
    let doubled: u128 = 200 * (completed as u128) + (total as u128);
    let divisor: u128 = 2 * (total as u128);
    (doubled / divisor) as u32
}

/// Whoever wants to hear of progress: called once after each chunk, in chunk
/// order, with the percentage reached. What an implementation does with the
/// number is its own business; nothing it does can fail a decryption.
pub trait ProgressObserver {
    /// Takes note of one percentage.
    fn on_progress(&mut self, percent: u32);
}

/// The observer for a caller who does not want to hear of progress.
pub struct NoProgress;

impl ProgressObserver for NoProgress {
    fn on_progress(&mut self, percent: u32) {
    }
}

/// An observer that keeps every percentage it is told, oldest first.
pub struct ProgressLog {
    pub percentages: Vec<u32>,
}

impl ProgressLog {
    /// A log with nothing in it.
    pub fn new() -> (log: Self)
        ensures
            log.percentages@ == Seq::<u32>::empty(),
    {
        ProgressLog { percentages: Vec::new() }
    }
}

impl ProgressObserver for ProgressLog {
    fn on_progress(&mut self, percent: u32)
        ensures
            final(self).percentages@ == old(self).percentages@.push(percent),
    {
        self.percentages.push(percent);
    }
}

/// An observer together with the record of what it has been told. The
/// observer is reached through `report` alone, so the record is complete.
pub struct ProgressReporter<O: ProgressObserver> {
    observer: O,
    delivered: Ghost<Seq<u32>>,
}

impl<O: ProgressObserver> ProgressReporter<O> {
    /// Every percentage handed to the observer through this reporter, oldest
    /// first.
    pub closed spec fn delivered(&self) -> Seq<u32> {
        self.delivered@
    }

    /// The observer that this reporter holds, in the state the reports so far
    /// have left it in.
    pub closed spec fn wrapped(&self) -> O {
        self.observer
    }

    /// Wraps `observer`; nothing has been delivered yet.
    pub fn new(observer: O) -> (reporter: Self)
        ensures
            reporter.delivered() == Seq::<u32>::empty(),
            reporter.wrapped() == observer,
    {
        ProgressReporter { observer, delivered: Ghost(Seq::empty()) }
    }

    /// Hands `percent` to the observer and records it.
    pub fn report(&mut self, percent: u32)
        ensures
            final(self).delivered() == old(self).delivered().push(percent),
    {
        self.observer.on_progress(percent);
        self.delivered = Ghost(self.delivered@.push(percent));
    }

    /// The observer, as the reports have left it.
    pub fn observer(&self) -> (observer: &O)
        ensures
            *observer == self.wrapped(),
    {
        &self.observer
    }

    /// Gives the observer back, as the reports have left it.
    pub fn into_observer(self) -> (observer: O)
        ensures
            observer == self.wrapped(),
    {
        self.observer
    }
}

} // verus!
