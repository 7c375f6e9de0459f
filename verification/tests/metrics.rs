use matchmaker::metrics::{Metrics, WaitStats};

#[test]
fn the_average_of_nothing_is_zero() {
    assert_eq!(WaitStats::new().average(), 0);
}

#[test]
fn the_average_is_rounded_down() {
    let mut stats = WaitStats::new();
    stats.record(10);
    assert_eq!(stats.average(), 10);
    stats.record(15);
    assert_eq!(stats.average(), 12);
}

#[test]
fn the_average_runs_over_the_latest_hundred() {
    let mut stats = WaitStats::new();
    let mut all: Vec<u64> = Vec::new();
    for i in 0..257u64 {
        let wait = i * i % 1013;
        stats.record(wait);
        all.push(wait);
        let recent = &all[all.len().saturating_sub(100)..];
        assert_eq!(stats.average(), recent.iter().sum::<u64>() / recent.len() as u64);
    }
}

#[test]
fn the_sum_of_waits_saturates() {
    let mut stats = WaitStats::new();
    stats.record(u64::MAX);
    stats.record(u64::MAX);
    assert_eq!(stats.average(), u64::MAX / 2);
}

#[test]
fn a_snapshot_reports_the_counters() {
    let mut metrics = Metrics::new();
    let empty = metrics.snapshot();
    assert_eq!(
        (empty.total_matches_formed, empty.total_players_queued, empty.avg_wait_ms, empty.queue_depth),
        (0, 0, 0, 0)
    );
    metrics.record_wait_ms(4);
    metrics.record_wait_ms(8);
    metrics.total_matches_formed = 3;
    metrics.total_players_queued = 40;
    metrics.queue_depth = 10;
    let snapshot = metrics.snapshot();
    assert_eq!(snapshot.total_matches_formed, 3);
    assert_eq!(snapshot.total_players_queued, 40);
    assert_eq!(snapshot.avg_wait_ms, 6);
    assert_eq!(snapshot.queue_depth, 10);
}
