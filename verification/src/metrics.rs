//! Measures of the throughput and the latency of finalized blocks.
//!
//! All times are nanoseconds on one clock, except those that blocks carry. Averages are
//! kept as exact ratios.
use std::collections::VecDeque;
use vstd::prelude::*;

verus! {

/// What is measured, and when to stop.
#[derive(Clone, Copy, Debug)]
pub struct MetricsConfig {
    /// Whether to trace every finalized block.
    pub trace_finalization: bool,
    /// The milliseconds from one sample to the next.
    pub sampling_interval: u64,
    /// Every which sample is reported, if any is.
    pub report_every_n_samples: Option<usize>,
    /// How many samples are kept.
    pub sampling_window: usize,
    /// The number of blocks after which to stop.
    pub stop_after: Option<u64>,
    /// The number of samples after which to stop.
    pub stop_after_n_samples: Option<usize>,
}

/// Whether a block is a key block.
#[derive(Clone, Copy, Debug, PartialEq, Eq, Structural)]
pub enum BlockType {
    Key,
    InBetween,
}

/// A transaction, as far as it is measured.
#[derive(Clone, Copy, Debug)]
pub struct Command {
    pub created_time: u64,
}

/// A block, as far as it is measured.
#[derive(Debug)]
pub struct Block {
    pub height: u64,
    pub timestamp: u64,
    pub payloads: Vec<Command>,
}

/// An exact quotient. With a denominator of zero it has no value.
#[derive(Clone, Copy, Debug, PartialEq, Eq, Structural)]
pub struct Ratio {
    pub numerator: u128,
    pub denominator: u128,
}

/// The times at which the clock is read while a block is taken in.
#[derive(Clone, Copy, Debug)]
pub struct ClockReadings {
    /// When it is decided whether a sample is due.
    pub checked: u128,
    /// When the sample is taken.
    pub sampled: u128,
    /// When the throughput is computed.
    pub throughput: u128,
    /// When the delay of a block is computed.
    pub block_delay: u128,
}

/// What is traced of a finalized block.
#[derive(Clone, Copy, Debug, PartialEq, Eq, Structural)]
pub struct FinalizationTrace {
    pub height: u64,
    pub transactions: usize,
    pub latency: u64,
    pub start: u64,
    pub view: u64,
}

/// What is to be logged after a block has been taken in.
#[derive(Clone, Copy, Debug, PartialEq, Eq, Structural)]
pub struct DispatchAction {
    pub trace: Option<FinalizationTrace>,
    pub report: Option<MetricsSample>,
}

/// The measures at one moment, over all time and since the last report.
#[derive(Clone, Copy, Debug, PartialEq, Eq, Structural)]
pub struct MetricsSample {
    pub e2e_delay: Ratio,
    pub average_delay: Ratio,
    pub finalized_transactions: u64,
    pub consensus_throughput: Ratio,
    pub key_block_ratio: Ratio,
    pub finalized_blocks: u64,
    pub key_block_delay: Ratio,
    pub average_batch_size: Ratio,
    pub block_delay: Ratio,
    pub instant_e2e_delay: Ratio,
    pub instant_average_delay: Ratio,
    pub instant_throughput: Ratio,
    pub instant_key_delay: Ratio,
    pub interval_duration_ms: u128,
    pub interval_transactions: u64,
    pub interval_blocks: u64,
    pub current_view: u64,
}

/// The counters and the samples that are kept.
#[derive(Debug)]
pub struct Metrics {
    pub config: MetricsConfig,
    pub total_e2e_delay: u64,
    pub total_delay: u64,
    pub finalized_transactions: u64,
    pub finalized_blocks: u64,
    pub start_time: u128,
    pub type_counts: [u64; 2],
    pub key_delay: u64,
    pub key_totals: u64,
    pub sample_window: VecDeque<MetricsSample>,
    pub next_sample_index: usize,
    pub last_sample_time: u128,
    pub last_total_e2e_delay: u64,
    pub last_total_delay: u64,
    pub last_finalized_transactions: u64,
    pub last_finalized_blocks: u64,
    pub last_key_delay: u64,
    pub last_key_totals: u64,
    pub current_view: u64,
}

/// The difference of two counters, down to zero at most.
pub open spec fn since(now: u64, last: u64) -> u64 {
    if now >= last {
        (now - last) as u64
    } else {
        0
    }
}

/// The whole milliseconds from one time to another, none where it is not later.
pub open spec fn millis_between(from: u128, to: u128) -> u128 {
    if to >= from {
        ((to - from) / 1_000_000) as u128
    } else {
        0
    }
}

/// A quotient of counters.
pub open spec fn quotient(numerator: u64, denominator: u64) -> Ratio {
    Ratio { numerator: numerator as u128, denominator: denominator as u128 }
}

/// A quotient of counters; zero where the denominator is.
pub open spec fn quotient_or_zero(numerator: u64, denominator: u128) -> Ratio {
    if denominator > 0 {
        Ratio { numerator: numerator as u128, denominator }
    } else {
        Ratio { numerator: 0, denominator: 1 }
    }
}

/// The measures that the counters give.
pub open spec fn sample_of(m: Metrics, clock: ClockReadings) -> MetricsSample {
    let transactions = since(m.finalized_transactions, m.last_finalized_transactions);
    let duration = millis_between(m.last_sample_time, clock.sampled);
    MetricsSample {
        e2e_delay: quotient(m.total_e2e_delay, m.finalized_transactions),
        average_delay: quotient(m.total_delay, m.finalized_transactions),
        finalized_transactions: m.finalized_transactions,
        consensus_throughput: Ratio {
            numerator: m.finalized_transactions as u128,
            denominator: millis_between(m.start_time, clock.throughput),
        },
        key_block_ratio: quotient(m.type_counts@[0], m.finalized_blocks),
        finalized_blocks: m.finalized_blocks,
        key_block_delay: quotient(m.key_delay, m.key_totals),
        average_batch_size: quotient(m.finalized_transactions, m.finalized_blocks),
        block_delay: Ratio {
            numerator: millis_between(m.start_time, clock.block_delay),
            denominator: m.finalized_blocks as u128,
        },
        instant_e2e_delay: quotient_or_zero(
            since(m.total_e2e_delay, m.last_total_e2e_delay),
            transactions as u128,
        ),
        instant_average_delay: quotient_or_zero(
            since(m.total_delay, m.last_total_delay),
            transactions as u128,
        ),
        instant_throughput: quotient_or_zero(transactions, duration),
        instant_key_delay: quotient_or_zero(
            since(m.key_delay, m.last_key_delay),
            since(m.key_totals, m.last_key_totals) as u128,
        ),
        interval_duration_ms: duration,
        interval_transactions: transactions,
        interval_blocks: since(m.finalized_blocks, m.last_finalized_blocks),
        current_view: m.current_view,
    }
}

fn elapsed_millis(from: u128, to: u128) -> (millis: u128)
    ensures
        millis == millis_between(from, to),
{
    to.saturating_sub(from) / 1_000_000
}

fn ratio(numerator: u64, denominator: u64) -> (result: Ratio)
    ensures
        result == quotient(numerator, denominator),
{
    Ratio { numerator: numerator as u128, denominator: denominator as u128 }
}

fn ratio_or_zero(numerator: u64, denominator: u128) -> (result: Ratio)
    ensures
        result == quotient_or_zero(numerator, denominator),
{
    if denominator > 0 {
        Ratio { numerator: numerator as u128, denominator }
    } else {
        Ratio { numerator: 0, denominator: 1 }
    }
}

impl MetricsSample {
    /// The measures that the counters give.
    pub fn from_metrics(m: &Metrics, clock: &ClockReadings) -> (sample: Self)
        ensures
            sample == sample_of(*m, *clock),
            sample.e2e_delay.numerator == m.total_e2e_delay,
            sample.e2e_delay.denominator == m.finalized_transactions,
            sample.average_delay.numerator == m.total_delay,
            sample.average_delay.denominator == m.finalized_transactions,
            sample.consensus_throughput.numerator == m.finalized_transactions,
            sample.consensus_throughput.denominator == (if clock.throughput >= m.start_time {
                (clock.throughput - m.start_time) / 1_000_000
            } else {
                0
            }),
            sample.key_block_ratio.numerator == m.type_counts@[0],
            sample.key_block_ratio.denominator == m.finalized_blocks,
            sample.key_block_delay.numerator == m.key_delay,
            sample.key_block_delay.denominator == m.key_totals,
            sample.average_batch_size.numerator == m.finalized_transactions,
            sample.average_batch_size.denominator == m.finalized_blocks,
            sample.block_delay.numerator == (if clock.block_delay >= m.start_time {
                (clock.block_delay - m.start_time) / 1_000_000
            } else {
                0
            }),
            sample.block_delay.denominator == m.finalized_blocks,
    {
        let interval_transactions: u64 = m.finalized_transactions.saturating_sub(
            m.last_finalized_transactions,
        );
        let interval_blocks: u64 = m.finalized_blocks.saturating_sub(m.last_finalized_blocks);
        let interval_e2e_delay: u64 = m.total_e2e_delay.saturating_sub(m.last_total_e2e_delay);
        let interval_total_delay: u64 = m.total_delay.saturating_sub(m.last_total_delay);
        let interval_key_delay: u64 = m.key_delay.saturating_sub(m.last_key_delay);
        let interval_key_totals: u64 = m.key_totals.saturating_sub(m.last_key_totals);
        let interval_duration_ms: u128 = elapsed_millis(m.last_sample_time, clock.sampled);
        MetricsSample {
            e2e_delay: ratio(m.total_e2e_delay, m.finalized_transactions),
            average_delay: ratio(m.total_delay, m.finalized_transactions),
            finalized_transactions: m.finalized_transactions,
            consensus_throughput: Ratio {
                numerator: m.finalized_transactions as u128,
                denominator: elapsed_millis(m.start_time, clock.throughput),
            },
            key_block_ratio: ratio(m.type_counts[0], m.finalized_blocks),
            finalized_blocks: m.finalized_blocks,
            key_block_delay: ratio(m.key_delay, m.key_totals),
            average_batch_size: ratio(m.finalized_transactions, m.finalized_blocks),
            block_delay: Ratio {
                numerator: elapsed_millis(m.start_time, clock.block_delay),
                denominator: m.finalized_blocks as u128,
            },
            instant_e2e_delay: ratio_or_zero(interval_e2e_delay, interval_transactions as u128),
            instant_average_delay: ratio_or_zero(
                interval_total_delay,
                interval_transactions as u128,
            ),
            instant_throughput: ratio_or_zero(interval_transactions, interval_duration_ms),
            instant_key_delay: ratio_or_zero(interval_key_delay, interval_key_totals as u128),
            interval_duration_ms,
            interval_transactions,
            interval_blocks,
            current_view: m.current_view,
        }
    }
}

/// The latency of a block times its transactions.
pub open spec fn delay(block: Block, finalized_time: u64) -> int {
    (finalized_time - block.timestamp) * block.payloads@.len()
}

/// The time since the first transaction of a block was created, times its transactions.
pub open spec fn e2e_delay(block: Block, finalized_time: u64) -> int {
    if block.payloads@.len() == 0 {
        0
    } else {
        (finalized_time - block.payloads@[0].created_time) * block.payloads@.len()
    }
}

/// Whether a block was finalized no earlier than it and its first transaction came about,
/// and the counters have room for it.
pub open spec fn has_room(
    m: Metrics,
    block: Block,
    block_type: BlockType,
    finalized_time: u64,
) -> bool {
    let transactions = block.payloads@.len();
    &&& block.timestamp <= finalized_time
    &&& transactions > 0 ==> block.payloads@[0].created_time <= finalized_time
    &&& m.finalized_blocks < u64::MAX
    &&& m.finalized_transactions + transactions <= u64::MAX
    &&& m.total_delay + delay(block, finalized_time) <= u64::MAX
    &&& m.total_e2e_delay + e2e_delay(block, finalized_time) <= u64::MAX
    &&& match block_type {
        BlockType::Key => {
            &&& m.type_counts@[0] < u64::MAX
            &&& m.key_totals + transactions <= u64::MAX
            &&& m.key_delay + delay(block, finalized_time) <= u64::MAX
        },
        BlockType::InBetween => m.type_counts@[1] < u64::MAX,
    }
}

/// Whether the counters of `after` are those of `before` with a block taken in.
pub open spec fn takes_in(
    before: Metrics,
    after: Metrics,
    block: Block,
    block_type: BlockType,
    finalized_time: u64,
    view: u64,
) -> bool {
    let transactions = block.payloads@.len();
    let key: int = if block_type == BlockType::Key {
        1
    } else {
        0
    };
    &&& after.current_view == view
    &&& after.finalized_blocks == before.finalized_blocks + 1
    &&& after.finalized_transactions == before.finalized_transactions + transactions
    &&& after.total_delay == before.total_delay + delay(block, finalized_time)
    &&& after.total_e2e_delay == before.total_e2e_delay + e2e_delay(block, finalized_time)
    &&& after.type_counts@[0] == before.type_counts@[0] + key
    &&& after.type_counts@[1] == before.type_counts@[1] + 1 - key
    &&& block_type == BlockType::Key ==> {
        &&& after.key_totals == before.key_totals + transactions
        &&& after.key_delay == before.key_delay + delay(block, finalized_time)
    }
    &&& block_type == BlockType::InBetween ==> {
        &&& after.key_totals == before.key_totals
        &&& after.key_delay == before.key_delay
    }
}

/// Whether two states agree in all that a block does not change.
pub open spec fn same_samples(before: Metrics, after: Metrics) -> bool {
    &&& after.config == before.config
    &&& after.start_time == before.start_time
    &&& after.sample_window == before.sample_window
    &&& after.next_sample_index == before.next_sample_index
    &&& after.last_sample_time == before.last_sample_time
    &&& after.last_total_e2e_delay == before.last_total_e2e_delay
    &&& after.last_total_delay == before.last_total_delay
    &&& after.last_finalized_transactions == before.last_finalized_transactions
    &&& after.last_finalized_blocks == before.last_finalized_blocks
    &&& after.last_key_delay == before.last_key_delay
    &&& after.last_key_totals == before.last_key_totals
}

/// The nanoseconds after the start at which the next sample is due. The index of the
/// sample counts modulo `2^32`.
pub open spec fn next_sample_after(m: Metrics) -> int {
    m.config.sampling_interval * 1_000_000 * (m.next_sample_index as int % 0x1_0000_0000)
}

/// Whether the next sample is reported.
pub open spec fn reports(m: Metrics) -> bool {
    match m.config.report_every_n_samples {
        Some(n) => m.next_sample_index % n == 0,
        None => false,
    }
}

/// The samples that are kept once another has come: the latest first, the oldest dropped
/// where there are too many.
pub open spec fn slide(
    window: Seq<MetricsSample>,
    sample: MetricsSample,
    size: nat,
) -> Seq<MetricsSample> {
    let all = seq![sample] + window;
    if all.len() > size {
        all.drop_last()
    } else {
        all
    }
}

impl Metrics {
    /// Counters at zero, no samples.
    pub fn new(config: MetricsConfig, start_time: u128, last_sample_time: u128) -> (metrics: Self)
        ensures
            metrics.config == config,
            metrics.start_time == start_time,
            metrics.last_sample_time == last_sample_time,
            metrics.total_e2e_delay == 0,
            metrics.total_delay == 0,
            metrics.finalized_transactions == 0,
            metrics.finalized_blocks == 0,
            metrics.type_counts@ == seq![0u64, 0u64],
            metrics.key_delay == 0,
            metrics.key_totals == 0,
            metrics.sample_window@ == Seq::<MetricsSample>::empty(),
            metrics.next_sample_index == 1,
            metrics.last_total_e2e_delay == 0,
            metrics.last_total_delay == 0,
            metrics.last_finalized_transactions == 0,
            metrics.last_finalized_blocks == 0,
            metrics.last_key_delay == 0,
            metrics.last_key_totals == 0,
            metrics.current_view == 1,
            metrics.consistent(),
    {
        Self {
            config,
            total_e2e_delay: 0,
            total_delay: 0,
            finalized_transactions: 0,
            finalized_blocks: 0,
            start_time,
            type_counts: [0, 0],
            key_delay: 0,
            key_totals: 0,
            sample_window: VecDeque::new(),
            next_sample_index: 1,
            last_sample_time,
            last_total_e2e_delay: 0,
            last_total_delay: 0,
            last_finalized_transactions: 0,
            last_finalized_blocks: 0,
            last_key_delay: 0,
            last_key_totals: 0,
            current_view: 1,
        }
    }

    /// Whether the counters fit each other: every block is of one type, what is counted of
    /// key blocks is counted of all blocks, no counter has gone back since the last report,
    /// no more samples are kept than asked for, and no more have been taken than blocks have
    /// come in.
    pub open spec fn consistent(self) -> bool {
        &&& self.type_counts@[0] + self.type_counts@[1] == self.finalized_blocks
        &&& self.key_totals <= self.finalized_transactions
        &&& self.key_delay <= self.total_delay
        &&& self.last_total_e2e_delay <= self.total_e2e_delay
        &&& self.last_total_delay <= self.total_delay
        &&& self.last_finalized_transactions <= self.finalized_transactions
        &&& self.last_finalized_blocks <= self.finalized_blocks
        &&& self.last_key_delay <= self.key_delay
        &&& self.last_key_totals <= self.key_totals
        &&& self.sample_window@.len() <= self.config.sampling_window
        &&& 1 <= self.next_sample_index
        &&& self.next_sample_index - 1 <= self.finalized_blocks
    }

    /// Counts a finalized block.
    pub fn record_block(
        &mut self,
        block: &Block,
        block_type: BlockType,
        finalized_time: u64,
        view: u64,
    )
        requires
            has_room(*old(self), *block, block_type, finalized_time),
        ensures
            takes_in(*old(self), *final(self), *block, block_type, finalized_time, view),
            same_samples(*old(self), *final(self)),
            old(self).consistent() ==> final(self).consistent(),
    {
        let transactions: u64 = block.payloads.len() as u64;
        proof {
            let d = finalized_time - block.timestamp;
            assert(d * transactions >= 0) by (nonlinear_arith)
                requires
                    d >= 0,
                    transactions >= 0,
            ;
            if transactions > 0 {
                let e = finalized_time - block.payloads@[0].created_time;
                assert(e * transactions >= 0) by (nonlinear_arith)
                    requires
                        e >= 0,
                        transactions >= 0,
                ;
            }
        }
        self.current_view = view;
        self.finalized_blocks = self.finalized_blocks + 1;
        self.finalized_transactions = self.finalized_transactions + transactions;
        let block_delay: u64 = (finalized_time - block.timestamp) * transactions;
        match block_type {
            BlockType::Key => {
                self.type_counts[0] = self.type_counts[0] + 1;
                self.key_totals = self.key_totals + transactions;
                self.key_delay = self.key_delay + block_delay;
            },
            BlockType::InBetween => {
                self.type_counts[1] = self.type_counts[1] + 1;
            },
        }
        self.total_delay = self.total_delay + block_delay;
        if block.payloads.len() > 0 {
            self.total_e2e_delay = self.total_e2e_delay + (finalized_time
                - block.payloads[0].created_time) * transactions;
        }
    }

    /// Whether the next sample is due.
    pub fn sample_due(&self, now: u128) -> (due: bool)
        requires
            next_sample_after(*self) / 1_000_000_000 <= u64::MAX,
        ensures
            due == (now - self.start_time > next_sample_after(*self)),
    {
        let index: u128 = (self.next_sample_index as u64 % 0x1_0000_0000) as u128;
        let interval: u128 = self.config.sampling_interval as u128 * 1_000_000;
        assert(0 <= interval * index <= 0x1_0000_0000_0000_0000 * 1_000_000 * 0x1_0000_0000)
            by (nonlinear_arith)
            requires
                0 <= interval <= 0x1_0000_0000_0000_0000 * 1_000_000,
                0 <= index <= 0x1_0000_0000,
        ;
        now.saturating_sub(self.start_time) > interval * index
    }

    /// Takes a sample and gives it back where it is to be reported. A report is where the
    /// next interval starts.
    pub fn sample(&mut self, clock: &ClockReadings) -> (report: Option<MetricsSample>)
        requires
            old(self).config.report_every_n_samples != Some(0usize),
        ensures
            report == (if reports(*old(self)) {
                Some(sample_of(*old(self), *clock))
            } else {
                None
            }),
            is_sampled(*old(self), *final(self), *clock),
            final(self).next_sample_index == old(self).next_sample_index,
            old(self).consistent() ==> final(self).consistent(),
    {
        let sample: MetricsSample = MetricsSample::from_metrics(self, clock);
        let mut report: Option<MetricsSample> = None;
        if let Some(report_interval) = self.config.report_every_n_samples {
            if self.next_sample_index % report_interval == 0 {
                report = Some(sample);
                self.last_sample_time = clock.sampled;
                self.last_total_e2e_delay = self.total_e2e_delay;
                self.last_total_delay = self.total_delay;
                self.last_finalized_transactions = self.finalized_transactions;
                self.last_finalized_blocks = self.finalized_blocks;
                self.last_key_delay = self.key_delay;
                self.last_key_totals = self.key_totals;
            }
        }
        self.sample_window.push_front(sample);
        if self.sample_window.len() > self.config.sampling_window {
            self.sample_window.pop_back();
        }
        report
    }

    /// Takes in a finalized block and, where one is due, a sample. What comes back is to
    /// be logged.
    pub fn dispatch(
        &mut self,
        block: &Block,
        block_type: BlockType,
        finalized_time: u64,
        view: u64,
        clock: &ClockReadings,
    ) -> (action: DispatchAction)
        requires
            has_room(*old(self), *block, block_type, finalized_time),
            next_sample_after(*old(self)) / 1_000_000_000 <= u64::MAX,
            is_due(*old(self), clock.checked) ==> old(self).next_sample_index < usize::MAX
                && old(self).config.report_every_n_samples != Some(0usize),
        ensures
            takes_in(*old(self), *final(self), *block, block_type, finalized_time, view),
            is_due(*old(self), clock.checked) ==> {
                &&& is_sampled(before_sampling(*old(self), *final(self)), *final(self), *clock)
                &&& final(self).next_sample_index == old(self).next_sample_index + 1
                &&& action.report == (if reports(*old(self)) {
                    Some(sample_of(before_sampling(*old(self), *final(self)), *clock))
                } else {
                    None
                })
            },
            !is_due(*old(self), clock.checked) ==> same_samples(*old(self), *final(self))
                && action.report is None,
            action.trace == (if old(self).config.trace_finalization {
                Some(
                    FinalizationTrace {
                        height: block.height,
                        transactions: block.payloads@.len() as usize,
                        latency: (finalized_time - block.timestamp) as u64,
                        start: block.timestamp,
                        view,
                    },
                )
            } else {
                None
            }),
            old(self).consistent() ==> final(self).consistent(),
    {
        self.record_block(block, block_type, finalized_time, view);
        let ghost recorded = *self;
        proof {
            assert(recorded == before_sampling(*old(self), recorded));
        }
        let trace: Option<FinalizationTrace> = if self.config.trace_finalization {
            Some(
                FinalizationTrace {
                    height: block.height,
                    transactions: block.payloads.len(),
                    latency: finalized_time - block.timestamp,
                    start: block.timestamp,
                    view,
                },
            )
        } else {
            None
        };
        let mut report: Option<MetricsSample> = None;
        if self.sample_due(clock.checked) {
            report = self.sample(clock);
            self.next_sample_index = self.next_sample_index + 1;
        }
        assert(before_sampling(*old(self), *self) == recorded);
        DispatchAction { trace, report }
    }

    /// Whether more blocks have been finalized than asked for.
    pub fn high_enough(&self) -> (stop: bool)
        ensures
            stop == (match self.config.stop_after {
                Some(height) => self.finalized_blocks > height,
                None => false,
            }),
    {
        match self.config.stop_after {
            Some(height) => self.finalized_blocks > height,
            None => false,
        }
    }

    /// Whether as many samples are kept as asked for, so that their spread means something.
    pub fn window_is_full(&self) -> (full: bool)
        ensures
            full == (self.sample_window@.len() >= self.config.sampling_window),
    {
        self.sample_window.len() >= self.config.sampling_window
    }

    /// Whether more samples have been taken than asked for.
    pub fn stop_after_n_samples(&self) -> (stop: bool)
        ensures
            stop == (match self.config.stop_after_n_samples {
                Some(n) => self.next_sample_index > n,
                None => false,
            }),
    {
        match self.config.stop_after_n_samples {
            Some(n) => self.next_sample_index > n,
            None => false,
        }
    }

    /// Whether to stop, given whether the samples have become stable.
    pub fn try_exit(&self, stable: bool) -> (stop: bool)
        ensures
            stop == (stable || (match self.config.stop_after {
                Some(height) => self.finalized_blocks > height,
                None => false,
            }) || (match self.config.stop_after_n_samples {
                Some(n) => self.next_sample_index > n,
                None => false,
            })),
    {
        self.high_enough() || stable || self.stop_after_n_samples()
    }

    /// Takes the latest sample out of those that are kept.
    pub fn take_latest(&mut self) -> (sample: Option<MetricsSample>)
        ensures
            old(self).sample_window@.len() == 0 ==> sample is None && final(self).sample_window@
                == old(self).sample_window@,
            old(self).sample_window@.len() > 0 ==> sample == Some(old(self).sample_window@[0])
                && final(self).sample_window@ == old(self).sample_window@.drop_first(),
            *final(self) == (Metrics { sample_window: final(self).sample_window, ..*old(self) }),
    {
        self.sample_window.pop_front()
    }
}

/// Whether the next sample is due.
pub open spec fn is_due(m: Metrics, now: u128) -> bool {
    now - m.start_time > next_sample_after(m)
}

/// The counters of `after` with the samples and the interval of `before`.
pub open spec fn before_sampling(before: Metrics, after: Metrics) -> Metrics {
    Metrics {
        total_e2e_delay: after.total_e2e_delay,
        total_delay: after.total_delay,
        finalized_transactions: after.finalized_transactions,
        finalized_blocks: after.finalized_blocks,
        type_counts: after.type_counts,
        key_delay: after.key_delay,
        key_totals: after.key_totals,
        current_view: after.current_view,
        ..before
    }
}

/// Whether `after` is `before` with a sample taken; which sample comes next is left open.
pub open spec fn is_sampled(before: Metrics, after: Metrics, clock: ClockReadings) -> bool {
    &&& after.sample_window@ == slide(
        before.sample_window@,
        sample_of(before, clock),
        before.config.sampling_window as nat,
    )
    &&& reports(before) ==> after == Metrics {
        sample_window: after.sample_window,
        next_sample_index: after.next_sample_index,
        last_sample_time: clock.sampled,
        last_total_e2e_delay: before.total_e2e_delay,
        last_total_delay: before.total_delay,
        last_finalized_transactions: before.finalized_transactions,
        last_finalized_blocks: before.finalized_blocks,
        last_key_delay: before.key_delay,
        last_key_totals: before.key_totals,
        ..before
    }
    &&& !reports(before) ==> after == Metrics {
        sample_window: after.sample_window,
        next_sample_index: after.next_sample_index,
        ..before
    }
}

} // verus!
