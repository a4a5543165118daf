//! What blocks and samples do to the measures.
use crate::metrics::Block;
use crate::metrics::BlockType;
use crate::metrics::ClockReadings;
use crate::metrics::DispatchAction;
use crate::metrics::FinalizationTrace;
use crate::metrics::Metrics;
use crate::metrics::MetricsConfig;
use crate::metrics::MetricsSample;
use crate::metrics::Ratio;
use vstd::arithmetic::div_mod::lemma_fundamental_div_mod;
use vstd::arithmetic::div_mod::lemma_fundamental_div_mod_converse;
use vstd::prelude::*;

verus! {

/// Whether `millis` are the whole milliseconds between two times in nanoseconds, none where the
/// second is not later.
pub open spec fn are_millis(millis: int, from: u128, to: u128) -> bool {
    if to >= from {
        millis * 1_000_000 <= to - from < (millis + 1) * 1_000_000
    } else {
        millis == 0
    }
}

/// What a counter has gained, nothing where it has gone back.
pub open spec fn gain(now: int, last: int) -> int {
    if now >= last {
        now - last
    } else {
        0
    }
}

/// Whether a ratio is that of two numbers; zero where the second is.
pub open spec fn is_ratio_or_zero(ratio: Ratio, numerator: int, denominator: int) -> bool {
    if denominator > 0 {
        ratio.numerator == numerator && ratio.denominator == denominator
    } else {
        ratio.numerator == 0 && ratio.denominator > 0
    }
}

/// The measures over all time: each delay is the total over the transactions, the throughput is
/// the transactions over the milliseconds since the start, and so on.
pub proof fn totals_are_over_all_time(m: Metrics, clock: ClockReadings, sample: MetricsSample)
    requires
        call_ensures(MetricsSample::from_metrics, (&m, &clock), sample),
    ensures
        sample.e2e_delay.numerator == m.total_e2e_delay,
        sample.e2e_delay.denominator == m.finalized_transactions,
        sample.average_delay.numerator == m.total_delay,
        sample.average_delay.denominator == m.finalized_transactions,
        sample.finalized_transactions == m.finalized_transactions,
        sample.consensus_throughput.numerator == m.finalized_transactions,
        are_millis(sample.consensus_throughput.denominator as int, m.start_time, clock.throughput),
        sample.key_block_ratio.numerator == m.type_counts@[0],
        sample.key_block_ratio.denominator == m.finalized_blocks,
        sample.finalized_blocks == m.finalized_blocks,
        sample.key_block_delay.numerator == m.key_delay,
        sample.key_block_delay.denominator == m.key_totals,
        sample.average_batch_size.numerator == m.finalized_transactions,
        sample.average_batch_size.denominator == m.finalized_blocks,
        are_millis(sample.block_delay.numerator as int, m.start_time, clock.block_delay),
        sample.block_delay.denominator == m.finalized_blocks,
        sample.current_view == m.current_view,
{
}

/// The measures of the interval: what has been gained since the last report, each delay over
/// the transactions since, and the transactions since over the milliseconds since.
pub proof fn interval_is_since_last_report(m: Metrics, clock: ClockReadings, sample: MetricsSample)
    requires
        call_ensures(MetricsSample::from_metrics, (&m, &clock), sample),
    ensures
        sample.interval_transactions == gain(
            m.finalized_transactions as int,
            m.last_finalized_transactions as int,
        ),
        sample.interval_blocks == gain(m.finalized_blocks as int, m.last_finalized_blocks as int),
        are_millis(sample.interval_duration_ms as int, m.last_sample_time, clock.sampled),
        is_ratio_or_zero(
            sample.instant_e2e_delay,
            gain(m.total_e2e_delay as int, m.last_total_e2e_delay as int),
            sample.interval_transactions as int,
        ),
        is_ratio_or_zero(
            sample.instant_average_delay,
            gain(m.total_delay as int, m.last_total_delay as int),
            sample.interval_transactions as int,
        ),
        is_ratio_or_zero(
            sample.instant_throughput,
            sample.interval_transactions as int,
            sample.interval_duration_ms as int,
        ),
        is_ratio_or_zero(
            sample.instant_key_delay,
            gain(m.key_delay as int, m.last_key_delay as int),
            gain(m.key_totals as int, m.last_key_totals as int),
        ),
{
}

/// The measures over all time are the same for two states that agree in the totals, whatever
/// has been reported before.
pub proof fn totals_ignore_reports(
    m1: Metrics,
    m2: Metrics,
    clock: ClockReadings,
    sample1: MetricsSample,
    sample2: MetricsSample,
)
    requires
        call_ensures(MetricsSample::from_metrics, (&m1, &clock), sample1),
        call_ensures(MetricsSample::from_metrics, (&m2, &clock), sample2),
        m1.total_e2e_delay == m2.total_e2e_delay,
        m1.total_delay == m2.total_delay,
        m1.finalized_transactions == m2.finalized_transactions,
        m1.finalized_blocks == m2.finalized_blocks,
        m1.start_time == m2.start_time,
        m1.type_counts@[0] == m2.type_counts@[0],
        m1.key_delay == m2.key_delay,
        m1.key_totals == m2.key_totals,
    ensures
        sample1.e2e_delay == sample2.e2e_delay,
        sample1.average_delay == sample2.average_delay,
        sample1.finalized_transactions == sample2.finalized_transactions,
        sample1.consensus_throughput == sample2.consensus_throughput,
        sample1.key_block_ratio == sample2.key_block_ratio,
        sample1.finalized_blocks == sample2.finalized_blocks,
        sample1.key_block_delay == sample2.key_block_delay,
        sample1.average_batch_size == sample2.average_batch_size,
        sample1.block_delay == sample2.block_delay,
{
}

/// The measures of the interval do not depend on when everything started nor on what was counted
/// before the last report.
pub proof fn interval_ignores_earlier_times(
    m1: Metrics,
    m2: Metrics,
    clock: ClockReadings,
    sample1: MetricsSample,
    sample2: MetricsSample,
)
    requires
        call_ensures(MetricsSample::from_metrics, (&m1, &clock), sample1),
        call_ensures(MetricsSample::from_metrics, (&m2, &clock), sample2),
        m1.last_sample_time == m2.last_sample_time,
        m1.total_e2e_delay - m1.last_total_e2e_delay == m2.total_e2e_delay
            - m2.last_total_e2e_delay,
        m1.total_delay - m1.last_total_delay == m2.total_delay - m2.last_total_delay,
        m1.finalized_transactions - m1.last_finalized_transactions == m2.finalized_transactions
            - m2.last_finalized_transactions,
        m1.finalized_blocks - m1.last_finalized_blocks == m2.finalized_blocks
            - m2.last_finalized_blocks,
        m1.key_delay - m1.last_key_delay == m2.key_delay - m2.last_key_delay,
        m1.key_totals - m1.last_key_totals == m2.key_totals - m2.last_key_totals,
    ensures
        sample1.instant_e2e_delay == sample2.instant_e2e_delay,
        sample1.instant_average_delay == sample2.instant_average_delay,
        sample1.instant_throughput == sample2.instant_throughput,
        sample1.instant_key_delay == sample2.instant_key_delay,
        sample1.interval_duration_ms == sample2.interval_duration_ms,
        sample1.interval_transactions == sample2.interval_transactions,
        sample1.interval_blocks == sample2.interval_blocks,
{
}

/// A block adds one block of its type and its transactions; its latency counts once for every
/// transaction, among the key blocks too where it is one; the age of its first transaction
/// counts once for every transaction. The samples stay as they are.
pub proof fn block_is_counted(
    m: &mut Metrics,
    block: Block,
    block_type: BlockType,
    finalized_time: u64,
    view: u64,
    transactions: int,
    latency: int,
    age: int,
)
    requires
        call_ensures(Metrics::record_block, (m, &block, block_type, finalized_time, view), ()),
        transactions == block.payloads@.len(),
        finalized_time == block.timestamp + latency,
        transactions > 0 ==> finalized_time == block.payloads@[0].created_time + age,
    ensures
        final(m).current_view == view,
        final(m).finalized_blocks == old(m).finalized_blocks + 1,
        final(m).finalized_transactions == old(m).finalized_transactions + transactions,
        final(m).total_delay == old(m).total_delay + latency * transactions,
        final(m).total_e2e_delay == old(m).total_e2e_delay + age * transactions,
        block_type == BlockType::Key ==> {
            &&& final(m).type_counts@[0] == old(m).type_counts@[0] + 1
            &&& final(m).type_counts@[1] == old(m).type_counts@[1]
            &&& final(m).key_totals == old(m).key_totals + transactions
            &&& final(m).key_delay == old(m).key_delay + latency * transactions
        },
        block_type == BlockType::InBetween ==> {
            &&& final(m).type_counts@[0] == old(m).type_counts@[0]
            &&& final(m).type_counts@[1] == old(m).type_counts@[1] + 1
            &&& final(m).key_totals == old(m).key_totals
            &&& final(m).key_delay == old(m).key_delay
        },
        *final(m) == (Metrics {
            current_view: final(m).current_view,
            finalized_blocks: final(m).finalized_blocks,
            finalized_transactions: final(m).finalized_transactions,
            total_delay: final(m).total_delay,
            total_e2e_delay: final(m).total_e2e_delay,
            type_counts: final(m).type_counts,
            key_totals: final(m).key_totals,
            key_delay: final(m).key_delay,
            ..*old(m)
        }),
{
    assert(age * 0 == 0);
}

/// A sample is due once more time has passed since the start than as many intervals take as the
/// sample's number says.
pub proof fn samples_are_due_in_turn(m: Metrics, now: u128, due: bool)
    requires
        call_ensures(Metrics::sample_due, (&m, now), due),
        m.next_sample_index < 0x1_0000_0000,
    ensures
        due <==> now > m.start_time + m.next_sample_index * m.config.sampling_interval * 1_000_000,
{
    let (i, interval) = (m.next_sample_index as int, m.config.sampling_interval as int);
    vstd::arithmetic::div_mod::lemma_small_mod(i as nat, 0x1_0000_0000);
    assert(interval * 1_000_000 * i == i * interval * 1_000_000) by (nonlinear_arith);
}

/// The number of a sample counts modulo `2^32`.
pub proof fn sample_numbers_wrap(m1: Metrics, m2: Metrics, now: u128, due1: bool, due2: bool)
    requires
        call_ensures(Metrics::sample_due, (&m1, now), due1),
        call_ensures(Metrics::sample_due, (&m2, now), due2),
        m1.start_time == m2.start_time,
        m1.config.sampling_interval == m2.config.sampling_interval,
        m2.next_sample_index == m1.next_sample_index + 0x1_0000_0000,
    ensures
        due1 == due2,
{
}

/// Whether one number is a multiple of another.
pub open spec fn is_multiple(i: int, n: int) -> bool {
    exists|k: int| i == #[trigger] (k * n)
}

/// The first multiple of a number that is not below another.
pub open spec fn next_multiple(first: int, n: int) -> int {
    (first + n - 1) / n * n
}

proof fn lemma_multiple(i: int, n: int)
    requires
        n > 0,
    ensures
        is_multiple(i, n) <==> i % n == 0,
{
    lemma_fundamental_div_mod(i, n);
    if i % n == 0 {
        assert(n * (i / n) == (i / n) * n) by (nonlinear_arith);
        assert(i == (i / n) * n);
    }
    if is_multiple(i, n) {
        let k = choose|k: int| i == #[trigger] (k * n);
        lemma_fundamental_div_mod_converse(i, n, k, 0);
    }
}

proof fn lemma_one_multiple(first: int, i: int, n: int)
    requires
        n > 0,
        first <= i < first + n,
    ensures
        first <= next_multiple(first, n) < first + n,
        i % n == 0 <==> i == next_multiple(first, n),
{
    let q = (first + n - 1) / n;
    let r = (first + n - 1) % n;
    lemma_fundamental_div_mod(first + n - 1, n);
    assert(n * q == q * n) by (nonlinear_arith);
    let next = next_multiple(first, n);
    assert(next == first + n - 1 - r);
    let d = i - next;
    if d >= 0 {
        lemma_fundamental_div_mod_converse(i, n, q, d);
    } else {
        assert((q - 1) * n == q * n - n) by (nonlinear_arith);
        lemma_fundamental_div_mod_converse(i, n, q - 1, d + n);
    }
}

/// Of samples of which every `n`-th is to be reported, those are whose number is a multiple of
/// `n`: exactly one among any `n` in a row.
pub proof fn every_nth_sample_is_reported(
    m: &mut Metrics,
    clock: ClockReadings,
    report: Option<MetricsSample>,
    n: usize,
    first: int,
)
    requires
        call_ensures(Metrics::sample, (m, &clock), report),
        old(m).config.report_every_n_samples == Some(n),
        n > 0,
        first <= old(m).next_sample_index < first + n,
    ensures
        report is Some <==> exists|k: int| old(m).next_sample_index == #[trigger] (k * n),
        first <= next_multiple(first, n as int) < first + n,
        report is Some <==> old(m).next_sample_index == next_multiple(first, n as int),
{
    let i = old(m).next_sample_index as int;
    lemma_multiple(i, n as int);
    lemma_one_multiple(first, i, n as int);
    assert(report is Some <==> is_multiple(i, n as int));
}

/// Where no sample is to be reported, none is.
pub proof fn no_sample_is_reported_unasked(
    m: &mut Metrics,
    clock: ClockReadings,
    report: Option<MetricsSample>,
)
    requires
        call_ensures(Metrics::sample, (m, &clock), report),
        old(m).config.report_every_n_samples is None,
    ensures
        report is None,
{
}

/// A reported sample is what the counters give, and a new interval starts with it: from there
/// on is counted what comes after. A sample that is not reported leaves the interval as it is.
pub proof fn report_closes_the_interval(
    m: &mut Metrics,
    clock: ClockReadings,
    report: Option<MetricsSample>,
    sample: MetricsSample,
)
    requires
        call_ensures(Metrics::sample, (m, &clock), report),
        call_ensures(MetricsSample::from_metrics, (&*old(m), &clock), sample),
    ensures
        report matches Some(reported) ==> reported == sample,
        report is Some ==> {
            &&& final(m).last_sample_time == clock.sampled
            &&& final(m).last_total_e2e_delay == old(m).total_e2e_delay
            &&& final(m).last_total_delay == old(m).total_delay
            &&& final(m).last_finalized_transactions == old(m).finalized_transactions
            &&& final(m).last_finalized_blocks == old(m).finalized_blocks
            &&& final(m).last_key_delay == old(m).key_delay
            &&& final(m).last_key_totals == old(m).key_totals
        },
        report is None ==> {
            &&& final(m).last_sample_time == old(m).last_sample_time
            &&& final(m).last_total_e2e_delay == old(m).last_total_e2e_delay
            &&& final(m).last_total_delay == old(m).last_total_delay
            &&& final(m).last_finalized_transactions == old(m).last_finalized_transactions
            &&& final(m).last_finalized_blocks == old(m).last_finalized_blocks
            &&& final(m).last_key_delay == old(m).last_key_delay
            &&& final(m).last_key_totals == old(m).last_key_totals
        },
        final(m).config == old(m).config,
        final(m).total_e2e_delay == old(m).total_e2e_delay,
        final(m).total_delay == old(m).total_delay,
        final(m).finalized_transactions == old(m).finalized_transactions,
        final(m).finalized_blocks == old(m).finalized_blocks,
        final(m).start_time == old(m).start_time,
        final(m).type_counts == old(m).type_counts,
        final(m).key_delay == old(m).key_delay,
        final(m).key_totals == old(m).key_totals,
        final(m).current_view == old(m).current_view,
        final(m).next_sample_index == old(m).next_sample_index,
{
}

/// The latest sample comes first among those that are kept, and those before it move back by
/// one. Where there were as many as asked for, the oldest goes, else none does.
pub proof fn latest_sample_comes_first(
    m: &mut Metrics,
    clock: ClockReadings,
    report: Option<MetricsSample>,
    sample: MetricsSample,
    i: int,
)
    requires
        call_ensures(Metrics::sample, (m, &clock), report),
        call_ensures(MetricsSample::from_metrics, (&*old(m), &clock), sample),
    ensures
        final(m).sample_window@.len() == (if old(m).sample_window@.len() < old(m).config.sampling_window {
            old(m).sample_window@.len() + 1
        } else {
            old(m).sample_window@.len()
        }),
        final(m).sample_window@.len() > 0 ==> final(m).sample_window@[0] == sample,
        0 < i < final(m).sample_window@.len() ==> final(m).sample_window@[i] == old(m).sample_window@[i - 1],
{
}

/// The state with a block counted that a sample is then taken of: the counters of `after`, the
/// rest of `before`.
pub open spec fn counted(before: Metrics, after: Metrics) -> Metrics {
    Metrics {
        total_e2e_delay: after.total_e2e_delay,
        total_delay: after.total_delay,
        finalized_transactions: after.finalized_transactions,
        finalized_blocks: after.finalized_blocks,
        type_counts: after.type_counts,
        key_delay: after.key_delay,
        key_totals: after.key_totals,
        current_view: after.current_view,
        ..before
    }
}

/// To take in a block is to count it and, where a sample is due, to take one: the counters are
/// those that counting gives, the report and the interval those that sampling gives.
pub proof fn dispatch_counts_and_samples(
    m: &mut Metrics,
    recording: &mut Metrics,
    sampling: &mut Metrics,
    block: Block,
    block_type: BlockType,
    finalized_time: u64,
    view: u64,
    clock: ClockReadings,
    action: DispatchAction,
    due: bool,
    report: Option<MetricsSample>,
)
    requires
        call_ensures(
            Metrics::dispatch,
            (m, &block, block_type, finalized_time, view, &clock),
            action,
        ),
        call_ensures(
            Metrics::record_block,
            (recording, &block, block_type, finalized_time, view),
            (),
        ),
        call_ensures(Metrics::sample_due, (&*old(m), clock.checked), due),
        call_ensures(Metrics::sample, (sampling, &clock), report),
        *old(recording) == *old(m),
        *old(sampling) == counted(*old(m), *final(m)),
    ensures
        final(m).total_e2e_delay == final(recording).total_e2e_delay,
        final(m).total_delay == final(recording).total_delay,
        final(m).finalized_transactions == final(recording).finalized_transactions,
        final(m).finalized_blocks == final(recording).finalized_blocks,
        final(m).type_counts@[0] == final(recording).type_counts@[0],
        final(m).type_counts@[1] == final(recording).type_counts@[1],
        final(m).key_delay == final(recording).key_delay,
        final(m).key_totals == final(recording).key_totals,
        final(m).current_view == view,
        final(m).config == old(m).config,
        final(m).start_time == old(m).start_time,
        due ==> {
            &&& final(m).next_sample_index == old(m).next_sample_index + 1
            &&& action.report == report
            &&& final(m).sample_window@ == final(sampling).sample_window@
            &&& final(m).last_sample_time == final(sampling).last_sample_time
            &&& final(m).last_total_e2e_delay == final(sampling).last_total_e2e_delay
            &&& final(m).last_total_delay == final(sampling).last_total_delay
            &&& final(m).last_finalized_transactions == final(sampling).last_finalized_transactions
            &&& final(m).last_finalized_blocks == final(sampling).last_finalized_blocks
            &&& final(m).last_key_delay == final(sampling).last_key_delay
            &&& final(m).last_key_totals == final(sampling).last_key_totals
        },
        !due ==> {
            &&& final(m).next_sample_index == old(m).next_sample_index
            &&& action.report is None
            &&& final(m).sample_window@ == old(m).sample_window@
            &&& final(m).last_sample_time == old(m).last_sample_time
            &&& final(m).last_total_e2e_delay == old(m).last_total_e2e_delay
            &&& final(m).last_total_delay == old(m).last_total_delay
            &&& final(m).last_finalized_transactions == old(m).last_finalized_transactions
            &&& final(m).last_finalized_blocks == old(m).last_finalized_blocks
            &&& final(m).last_key_delay == old(m).last_key_delay
            &&& final(m).last_key_totals == old(m).last_key_totals
        },
{
}

/// With samples due, the reports come with every `n`-th of them, again and again.
pub proof fn dispatch_reports_every_nth_sample(
    m: &mut Metrics,
    block: Block,
    block_type: BlockType,
    finalized_time: u64,
    view: u64,
    clock: ClockReadings,
    action: DispatchAction,
    n: usize,
)
    requires
        call_ensures(
            Metrics::dispatch,
            (m, &block, block_type, finalized_time, view, &clock),
            action,
        ),
        old(m).config.report_every_n_samples == Some(n),
        n > 0,
        old(m).next_sample_index < 0x1_0000_0000,
    ensures
        action.report is Some <==> clock.checked > old(m).start_time + old(m).next_sample_index
            * old(m).config.sampling_interval * 1_000_000 && exists|k: int|
            old(m).next_sample_index == #[trigger] (k * n),
        action.report is Some ==> {
            &&& final(m).last_sample_time == clock.sampled
            &&& final(m).last_finalized_blocks == final(m).finalized_blocks
            &&& final(m).last_finalized_transactions == final(m).finalized_transactions
        },
{
    let (i, interval) = (old(m).next_sample_index as int, old(m).config.sampling_interval as int);
    vstd::arithmetic::div_mod::lemma_small_mod(i as nat, 0x1_0000_0000);
    assert(interval * 1_000_000 * i == i * interval * 1_000_000) by (nonlinear_arith);
    lemma_multiple(i, n as int);
    assert(is_multiple(i, n as int) <==> exists|k: int| i == #[trigger] (k * n));
}

/// A block is traced where that is asked for, with what it is and how long it took.
pub proof fn blocks_are_traced_if_asked(
    m: &mut Metrics,
    block: Block,
    block_type: BlockType,
    finalized_time: u64,
    view: u64,
    clock: ClockReadings,
    action: DispatchAction,
    trace: FinalizationTrace,
)
    requires
        call_ensures(
            Metrics::dispatch,
            (m, &block, block_type, finalized_time, view, &clock),
            action,
        ),
        block.timestamp <= finalized_time,
        block.payloads@.len() <= usize::MAX,
        action.trace is Some ==> trace == action.trace->0,
    ensures
        action.trace is Some <==> old(m).config.trace_finalization,
        action.trace is Some ==> {
            &&& trace.height == block.height
            &&& trace.transactions == block.payloads@.len()
            &&& trace.start + trace.latency == finalized_time
            &&& trace.start == block.timestamp
            &&& trace.view == view
        },
{
}

/// Nothing has been counted at the start, the first sample is the next, and the view is the
/// first.
pub proof fn counting_starts_at_zero(
    config: MetricsConfig,
    start_time: u128,
    last_sample_time: u128,
    m: Metrics,
)
    requires
        call_ensures(Metrics::new, (config, start_time, last_sample_time), m),
    ensures
        m.config == config,
        m.start_time == start_time,
        m.last_sample_time == last_sample_time,
        m.finalized_blocks == 0,
        m.finalized_transactions == 0,
        m.total_delay == 0,
        m.total_e2e_delay == 0,
        m.type_counts@[0] == 0,
        m.type_counts@[1] == 0,
        m.key_delay == 0,
        m.key_totals == 0,
        m.last_total_e2e_delay == 0,
        m.last_total_delay == 0,
        m.last_finalized_transactions == 0,
        m.last_finalized_blocks == 0,
        m.last_key_delay == 0,
        m.last_key_totals == 0,
        m.sample_window@.len() == 0,
        m.next_sample_index == 1,
        m.current_view == 1,
{
}

/// There are three reasons to stop: one block more than asked for, one sample more than asked
/// for, or stable samples. What is not asked for is no reason.
pub proof fn reasons_to_stop_are_three(
    m: Metrics,
    stable: bool,
    high_enough: bool,
    sampled_enough: bool,
    stop: bool,
    blocks: u64,
    samples: usize,
)
    requires
        call_ensures(Metrics::high_enough, (&m,), high_enough),
        call_ensures(Metrics::stop_after_n_samples, (&m,), sampled_enough),
        call_ensures(Metrics::try_exit, (&m, stable), stop),
    ensures
        m.config.stop_after is None ==> !high_enough,
        m.config.stop_after == Some(blocks) ==> (high_enough <==> m.finalized_blocks >= blocks + 1),
        m.config.stop_after_n_samples is None ==> !sampled_enough,
        m.config.stop_after_n_samples == Some(samples) ==> (sampled_enough
            <==> m.next_sample_index >= samples + 1),
        stop <==> stable || high_enough || sampled_enough,
{
}

/// The window is full when it can take no more samples without giving one up.
pub proof fn full_window_gives_one_up(
    m: &mut Metrics,
    clock: ClockReadings,
    report: Option<MetricsSample>,
    full: bool,
)
    requires
        call_ensures(Metrics::window_is_full, (&*old(m),), full),
        call_ensures(Metrics::sample, (m, &clock), report),
    ensures
        full <==> final(m).sample_window@.len() == old(m).sample_window@.len(),
{
}

/// The sample that is taken out is the latest; the others stay in their order.
pub proof fn latest_sample_is_taken(m: &mut Metrics, sample: Option<MetricsSample>, i: int)
    requires
        call_ensures(Metrics::take_latest, (m,), sample),
    ensures
        sample is Some <==> old(m).sample_window@.len() > 0,
        sample is Some ==> sample == Some(old(m).sample_window@[0]),
        sample is Some ==> final(m).sample_window@.len() == old(m).sample_window@.len() - 1,
        sample is None ==> final(m).sample_window@.len() == 0,
        0 <= i < final(m).sample_window@.len() ==> final(m).sample_window@[i] == old(m).sample_window@[i + 1],
        *final(m) == (Metrics { sample_window: final(m).sample_window, ..*old(m) }),
{
}

} // verus!
