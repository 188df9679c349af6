//! Progress accounting: a running count of processed contributors,
//! a milestone every fixed number of signals, and the integer
//! figures reported at a milestone. The channel the signals travel
//! over, and the clock, belong to the surrounding process; it hands
//! elapsed time in as a plain value.

use vstd::prelude::*;
use vstd::arithmetic::div_mod::{lemma_div_is_ordered, lemma_div_multiples_vanish};
use vstd::arithmetic::mul::lemma_mul_inequality;

verus! {

/// Number of signals between two throughput reports.
pub const MILESTONE_INTERVAL: u64 = 100;

/// The aggregator's state: how many progress signals have been
/// consumed so far.
#[derive(Clone, Copy, Debug, PartialEq, Eq, Structural)]
pub struct ProgressTracker {
    pub count: u64,
}

impl ProgressTracker {
    pub fn new() -> (r: Self)
        ensures
            r.count == 0,
    {
        ProgressTracker { count: 0 }
    }

    /// Consume one progress signal. Returns whether a milestone was
    /// reached, i.e. whether a throughput report is due now.
    pub fn record(&mut self) -> (milestone: bool)
        requires
            old(self).count < u64::MAX,
        ensures
            final(self).count == old(self).count + 1,
            milestone <==> (final(self).count % MILESTONE_INTERVAL == 0),
    {
        self.count = self.count + 1;
        self.count % MILESTONE_INTERVAL == 0
    }
}

/// Mean time per processed contributor over the last milestone
/// stretch, from the elapsed time since the previous milestone.
pub fn per_item_elapsed(elapsed_micros: u64) -> (r: u64)
    ensures
        r == elapsed_micros / MILESTONE_INTERVAL,
{
    elapsed_micros / MILESTONE_INTERVAL
}

/// Fraction of the expected total processed so far, in permille
/// (integer thousandths), never more than 1000.
pub fn progress_permille(count: u64, total: u64) -> (r: u64)
    requires
        1 <= total,
        count <= total,
    ensures
        r == count as int * 1000 / total as int,
        r <= 1000,
{
    proof {
        lemma_mul_inequality(count as int, total as int, 1000);
        lemma_div_is_ordered(count as int * 1000, total as int * 1000, total as int);
        assert(total as int * 1000 == 1000 * total as int) by (nonlinear_arith);
        lemma_div_multiples_vanish(1000, total as int);
    }
    ((count as u128 * 1000) / (total as u128)) as u64
}

} // verus!
