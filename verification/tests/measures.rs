use swle::metrics::Block;
use swle::metrics::BlockType;
use swle::metrics::ClockReadings;
use swle::metrics::Command;
use swle::metrics::FinalizationTrace;
use swle::metrics::Metrics;
use swle::metrics::MetricsConfig;
use swle::metrics::MetricsSample;
use swle::metrics::Ratio;

const MS: u128 = 1_000_000;

fn config() -> MetricsConfig {
    MetricsConfig {
        trace_finalization: true,
        sampling_interval: 100,
        report_every_n_samples: Some(2),
        sampling_window: 2,
        stop_after: Some(3),
        stop_after_n_samples: Some(2),
    }
}

fn block(height: u64, timestamp: u64, created: &[u64]) -> Block {
    Block {
        height,
        timestamp,
        payloads: created.iter().map(|t| Command { created_time: *t }).collect(),
    }
}

fn at(time: u128) -> ClockReadings {
    ClockReadings { checked: time, sampled: time, throughput: time, block_delay: time }
}

fn ratio(numerator: u128, denominator: u128) -> Ratio {
    Ratio { numerator, denominator }
}

#[test]
fn blocks_are_counted() {
    let mut m = Metrics::new(config(), 0, 0);
    let action = m.dispatch(&block(7, 1000, &[900, 950]), BlockType::Key, 1010, 5, &at(MS));
    assert_eq!(
        action.trace,
        Some(FinalizationTrace { height: 7, transactions: 2, latency: 10, start: 1000, view: 5 })
    );
    assert_eq!(action.report, None);
    assert_eq!(m.current_view, 5);
    assert_eq!(m.finalized_blocks, 1);
    assert_eq!(m.finalized_transactions, 2);
    assert_eq!(m.type_counts, [1, 0]);
    assert_eq!(m.key_totals, 2);
    assert_eq!(m.key_delay, 20);
    assert_eq!(m.total_delay, 20);
    assert_eq!(m.total_e2e_delay, 220);

    m.dispatch(&block(8, 1010, &[1000, 1, 2]), BlockType::InBetween, 1030, 6, &at(2 * MS));
    assert_eq!(m.type_counts, [1, 1]);
    assert_eq!(m.key_totals, 2);
    assert_eq!(m.key_delay, 20);
    assert_eq!(m.finalized_transactions, 5);
    assert_eq!(m.total_delay, 80);
    assert_eq!(m.total_e2e_delay, 310);
    assert_eq!(m.sample_window.len(), 0);
    assert_eq!(m.next_sample_index, 1);
}

#[test]
fn an_empty_block_counts_no_transaction() {
    let mut m = Metrics::new(config(), 0, 0);
    m.record_block(&block(1, 10, &[]), BlockType::Key, 30, 2);
    assert_eq!(m.finalized_blocks, 1);
    assert_eq!(m.finalized_transactions, 0);
    assert_eq!(m.total_delay, 0);
    assert_eq!(m.total_e2e_delay, 0);
}

#[test]
fn no_trace_comes_unless_asked_for() {
    let mut silent = config();
    silent.trace_finalization = false;
    let mut m = Metrics::new(silent, 0, 0);
    let action = m.dispatch(&block(1, 1, &[1]), BlockType::Key, 2, 1, &at(0));
    assert_eq!(action.trace, None);
}

#[test]
fn samples_are_due_after_whole_intervals() {
    let mut m = Metrics::new(config(), 5, 5);
    assert!(!m.sample_due(0));
    assert!(!m.sample_due(5 + 100 * MS));
    assert!(m.sample_due(6 + 100 * MS));
    m.next_sample_index = 3;
    assert!(!m.sample_due(5 + 300 * MS));
    assert!(m.sample_due(6 + 300 * MS));
}

#[test]
fn a_sample_holds_the_averages() {
    let mut m = Metrics::new(config(), 0, 0);
    m.record_block(&block(1, 10, &[0, 0]), BlockType::Key, 20, 2);
    m.record_block(&block(2, 20, &[10, 0]), BlockType::InBetween, 50, 3);
    let clock = ClockReadings {
        checked: 0,
        sampled: 250 * MS,
        throughput: 251 * MS + 999_999,
        block_delay: 252 * MS,
    };
    let sample = MetricsSample::from_metrics(&m, &clock);
    assert_eq!(sample.e2e_delay, ratio(120, 4));
    assert_eq!(sample.average_delay, ratio(80, 4));
    assert_eq!(sample.finalized_transactions, 4);
    assert_eq!(sample.consensus_throughput, ratio(4, 251));
    assert_eq!(sample.key_block_ratio, ratio(1, 2));
    assert_eq!(sample.finalized_blocks, 2);
    assert_eq!(sample.key_block_delay, ratio(20, 2));
    assert_eq!(sample.average_batch_size, ratio(4, 2));
    assert_eq!(sample.block_delay, ratio(252, 2));
    assert_eq!(sample.instant_e2e_delay, ratio(120, 4));
    assert_eq!(sample.instant_average_delay, ratio(80, 4));
    assert_eq!(sample.instant_throughput, ratio(4, 250));
    assert_eq!(sample.instant_key_delay, ratio(20, 2));
    assert_eq!(sample.interval_duration_ms, 250);
    assert_eq!(sample.interval_transactions, 4);
    assert_eq!(sample.interval_blocks, 2);
    assert_eq!(sample.current_view, 3);
}

#[test]
fn empty_intervals_have_zero_rates() {
    let m = Metrics::new(config(), 0, 7);
    let sample = MetricsSample::from_metrics(&m, &at(3));
    assert_eq!(sample.instant_e2e_delay, ratio(0, 1));
    assert_eq!(sample.instant_average_delay, ratio(0, 1));
    assert_eq!(sample.instant_throughput, ratio(0, 1));
    assert_eq!(sample.instant_key_delay, ratio(0, 1));
    assert_eq!(sample.interval_duration_ms, 0);
    assert_eq!(sample.e2e_delay, ratio(0, 0));
}

#[test]
fn every_second_sample_is_reported_and_starts_an_interval() {
    let mut m = Metrics::new(config(), 0, 0);
    let b = block(1, 10, &[0]);
    let first = m.dispatch(&b, BlockType::Key, 20, 1, &at(101 * MS));
    assert_eq!(first.report, None);
    assert_eq!(m.sample_window.len(), 1);
    assert_eq!(m.next_sample_index, 2);
    assert_eq!(m.last_finalized_blocks, 0);

    let second = m.dispatch(&b, BlockType::Key, 20, 2, &at(201 * MS));
    let report = second.report.unwrap();
    assert_eq!(report.interval_blocks, 2);
    assert_eq!(report.interval_duration_ms, 201);
    assert_eq!(m.sample_window[0], report);
    assert_eq!(m.last_finalized_blocks, 2);
    assert_eq!(m.last_finalized_transactions, 2);
    assert_eq!(m.last_total_delay, 20);
    assert_eq!(m.last_total_e2e_delay, 40);
    assert_eq!(m.last_key_delay, 20);
    assert_eq!(m.last_key_totals, 2);
    assert_eq!(m.last_sample_time, 201 * MS);

    let third = m.dispatch(&b, BlockType::Key, 20, 3, &at(301 * MS));
    assert_eq!(third.report, None);
    assert_eq!(m.sample_window.len(), 2);
    assert_eq!(m.sample_window[0].interval_blocks, 1);
    assert_eq!(m.sample_window[0].interval_duration_ms, 100);
    assert_eq!(m.sample_window[1], report);
}

#[test]
fn an_empty_window_keeps_nothing() {
    let mut none = config();
    none.sampling_window = 0;
    none.report_every_n_samples = None;
    let mut m = Metrics::new(none, 0, 0);
    assert!(m.window_is_full());
    assert_eq!(m.sample(&at(MS)), None);
    assert_eq!(m.sample_window.len(), 0);
    assert_eq!(m.take_latest(), None);
}

#[test]
fn the_latest_sample_is_taken_first() {
    let mut m = Metrics::new(config(), 0, 0);
    assert!(!m.window_is_full());
    m.current_view = 4;
    m.sample(&at(MS));
    m.current_view = 5;
    m.sample(&at(2 * MS));
    assert!(m.window_is_full());
    assert_eq!(m.take_latest().unwrap().current_view, 5);
    assert_eq!(m.take_latest().unwrap().current_view, 4);
    assert_eq!(m.take_latest(), None);
}

#[test]
fn reasons_to_stop() {
    let mut m = Metrics::new(config(), 0, 0);
    assert!(!m.try_exit(false));
    assert!(m.try_exit(true));
    m.finalized_blocks = 3;
    assert!(!m.high_enough());
    m.finalized_blocks = 4;
    assert!(m.high_enough());
    assert!(m.try_exit(false));
    m.finalized_blocks = 0;
    m.next_sample_index = 2;
    assert!(!m.stop_after_n_samples());
    m.next_sample_index = 3;
    assert!(m.stop_after_n_samples());
    assert!(m.try_exit(false));
    m.config.stop_after_n_samples = None;
    m.config.stop_after = None;
    m.finalized_blocks = u64::MAX;
    assert!(!m.try_exit(false));
}

#[test]
fn a_block_brings_at_most_one_sample() {
    let mut m = Metrics::new(config(), 0, 0);
    assert_eq!(m.next_sample_index, 1);
    for i in 1..=5u64 {
        m.dispatch(&block(i, 0, &[0]), BlockType::Key, 1, i, &at(10_000 * MS));
        assert_eq!(m.finalized_blocks, i);
        assert_eq!(m.next_sample_index as u64, i + 1);
    }
    m.dispatch(&block(6, 0, &[0]), BlockType::Key, 1, 6, &at(0));
    assert_eq!(m.finalized_blocks, 6);
    assert_eq!(m.next_sample_index, 6);
}
