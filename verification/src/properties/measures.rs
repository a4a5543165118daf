//! What holds of the measures.
use crate::metrics::is_sampled;
use crate::metrics::millis_between;
use crate::metrics::reports;
use crate::metrics::sample_of;
use crate::metrics::slide;
use crate::metrics::ClockReadings;
use crate::metrics::Metrics;
use crate::metrics::MetricsSample;
use vstd::prelude::*;

verus! {

/// A report starts a new interval: right after it nothing has been counted since, and the
/// interval is as long as the time since.
pub proof fn report_starts_interval(
    before: Metrics,
    after: Metrics,
    clock: ClockReadings,
    later: ClockReadings,
)
    requires
        is_sampled(before, after, clock),
        reports(before),
    ensures
        sample_of(after, later).interval_transactions == 0,
        sample_of(after, later).interval_blocks == 0,
        sample_of(after, later).instant_e2e_delay.numerator == 0,
        sample_of(after, later).instant_average_delay.numerator == 0,
        sample_of(after, later).instant_throughput.numerator == 0,
        sample_of(after, later).instant_key_delay.numerator == 0,
        sample_of(after, later).interval_duration_ms == millis_between(
            clock.sampled,
            later.sampled,
        ),
{
}

/// A sample that is not reported leaves the interval as it is: at the same times the same
/// sample would come again.
pub proof fn silent_sample_keeps_interval(before: Metrics, after: Metrics, clock: ClockReadings)
    requires
        is_sampled(before, after, clock),
        !reports(before),
    ensures
        sample_of(after, clock) == sample_of(before, clock),
{
}

/// The window keeps the latest samples, the last one first, and no more than asked for.
pub proof fn window_keeps_latest(
    window: Seq<MetricsSample>,
    sample: MetricsSample,
    size: nat,
)
    requires
        0 < size,
        window.len() <= size,
    ensures
        slide(window, sample, size).len() <= size,
        slide(window, sample, size)[0] == sample,
        slide(window, sample, size).drop_first() == window.take(
            slide(window, sample, size).len() - 1,
        ),
        window.len() < size ==> slide(window, sample, size).len() == window.len() + 1,
{
    assert(slide(window, sample, size).drop_first() =~= window.take(
        slide(window, sample, size).len() - 1,
    ));
}

/// While the counters fit each other, nothing is lost in an interval: what it counts and
/// what was counted before it add up to the total.
pub proof fn intervals_add_up(m: Metrics, clock: ClockReadings)
    requires
        m.consistent(),
    ensures
        m.last_finalized_transactions + sample_of(m, clock).interval_transactions
            == m.finalized_transactions,
        m.last_finalized_blocks + sample_of(m, clock).interval_blocks == m.finalized_blocks,
        sample_of(m, clock).key_block_ratio.numerator <= sample_of(
            m,
            clock,
        ).key_block_ratio.denominator,
{
}

} // verus!
