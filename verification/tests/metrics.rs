use std::collections::BTreeMap;

use loadforge::client::{CheckFailure, ConnError};
use loadforge::metrics::{
    compute_percentiles, Elapsed, Metrics, Millis, Rate, SecondBucket, MAX_CHECK_FAILURES,
    PERCENTILES,
};

fn failure(n: usize) -> CheckFailure {
    CheckFailure {
        method: "GET".to_string(),
        path: "/".to_string(),
        check: "status".to_string(),
        expected: "200".to_string(),
        actual: n.to_string(),
    }
}

const AFTER: Elapsed = Elapsed { secs: 2, nanos: 500_000_000 };

#[test]
fn fresh_metrics_hold_nothing() {
    assert_eq!(Metrics::new(10).seconds.len(), 12);
    assert_eq!(Metrics::new(0).seconds.len(), 3600);
    let s = Metrics::new(10).snapshot(AFTER);
    assert_eq!((s.total, s.success, s.failed, s.bytes), (0, 0, 0, 0));
    assert_eq!(s.min_ms, Millis { sum_us: 0, count: 0 });
    assert_eq!(s.max_ms, Millis { sum_us: 0, count: 0 });
    assert_eq!(s.avg_ms, Millis { sum_us: 0, count: 0 });
    assert!(s.status_codes.is_empty() && s.errors.is_empty());
    assert_eq!(s.percentiles.values().copied().collect::<Vec<u64>>(), [0; 5]);
    assert_eq!(s.time_series.len(), 3);
    let b = SecondBucket::new();
    assert_eq!((b.requests, b.success, b.failed, b.bytes), (0, 0, 0, 0));
    assert_eq!((b.sum_latency_us, b.latency_count), (0, 0));
}

#[test]
fn requests_are_counted() {
    let mut m = Metrics::new(10);
    m.record(0, 5_000, 200, 7, true, None);
    m.record(0, 7_500, 200, 3, true, None);
    m.record(1, 1_000, 500, 0, false, None);
    m.record(1, 9_999, 0, 0, false, Some(ConnError::Timeout));
    let s = m.snapshot(AFTER);
    assert_eq!((s.total, s.success, s.failed, s.bytes), (4, 2, 2, 10));
    assert_eq!(s.success + s.failed, s.total);
    assert_eq!(s.status_codes, BTreeMap::from([(0, 1), (200, 2), (500, 1)]));
    assert_eq!(s.status_codes.values().sum::<u64>(), s.total);
    assert_eq!(s.errors.iter().map(|e| e.1).sum::<u64>(), 1);
    assert_eq!(s.min_ms, Millis { sum_us: 1_000, count: 1 });
    assert_eq!(s.max_ms, Millis { sum_us: 9_999, count: 1 });
    assert_eq!(s.avg_ms, Millis { sum_us: 23_499, count: 4 });
    assert_eq!(s.rps, Rate { events: 4, over: AFTER });
    assert_eq!(s.elapsed_secs, AFTER);
    assert_eq!(s.errors, vec![("timeout".to_string(), 1)]);
    assert_eq!(s.percentiles, BTreeMap::from([(50, 5), (75, 7), (90, 7), (95, 7), (99, 7)]));
    assert_eq!((s.p50_ms, s.p95_ms, s.p99_ms), (5, 7, 7));
}

#[test]
fn seconds_share_out_the_requests() {
    let mut m = Metrics::new(3);
    m.record(0, 10, 200, 1, true, None);
    m.record(2, 30, 404, 2, false, None);
    m.record(2, 50, 200, 4, true, None);
    m.record_conn_error(1, ConnError::Refused);
    m.record(99, 70, 200, 8, true, None);
    let s = m.snapshot(Elapsed { secs: 200, nanos: 0 });
    assert_eq!(s.time_series.len(), 5);
    let third = s.time_series[2];
    assert_eq!((third.t, third.requests, third.bytes), (2, 2, 6));
    assert_eq!((third.success, third.failed), (1, 1));
    assert_eq!(third.avg_ms, Millis { sum_us: 80, count: 2 });
    assert_eq!((s.time_series[1].requests, s.time_series[1].success), (0, 0));
    assert_eq!(s.time_series[1].failed, 1);
    assert_eq!(s.time_series[4].requests, 1);
    assert_eq!(s.time_series.iter().map(|p| p.requests).sum::<u64>(), s.total);
    assert_eq!(s.time_series.iter().map(|p| p.failed).sum::<u64>(), s.failed);
    assert_eq!(s.time_series.iter().map(|p| p.success).sum::<u64>(), s.success);
    assert_eq!(s.time_series.iter().map(|p| p.bytes).sum::<u64>(), s.bytes);
    assert_eq!(s.time_series.iter().map(|p| p.t).collect::<Vec<u64>>(), [0, 1, 2, 3, 4]);
    assert_eq!(m.snapshot(Elapsed { secs: 0, nanos: 1 }).time_series.len(), 1);
}

#[test]
fn events_have_no_latency() {
    let mut m = Metrics::new(10);
    m.record_event(0, 5);
    m.record_event(1, 6);
    m.record_conn_error(1, ConnError::Protocol);
    let s = m.snapshot(AFTER);
    assert_eq!((s.total, s.success, s.failed, s.bytes), (2, 2, 1, 11));
    assert_eq!(s.success + s.failed, s.total + 1);
    assert_eq!(s.min_ms, Millis { sum_us: 0, count: 0 });
    assert_eq!(s.max_ms.sum_us, 0);
    assert_eq!(s.avg_ms.sum_us, 0);
    assert_eq!(s.status_codes, BTreeMap::from([(0, 1)]));
    assert_eq!(s.errors, vec![("protocol".to_string(), 1)]);
    assert_eq!(s.p99_ms, 0);
    let second = s.time_series[1];
    assert_eq!((second.requests, second.success, second.failed), (1, 1, 1));
}

#[test]
fn messages_succeed_with_their_reply() {
    let mut m = Metrics::new(10);
    m.record_sent(0);
    m.record_sent(0);
    m.record_reply(1, 40_000, 101, 8);
    let s = m.snapshot(AFTER);
    assert_eq!((s.total, s.success, s.failed, s.bytes), (2, 1, 0, 8));
    assert_eq!(s.status_codes, BTreeMap::from([(101, 1)]));
    assert_eq!(s.min_ms, Millis { sum_us: 40_000, count: 1 });
    assert_eq!(s.max_ms, Millis { sum_us: 40_000, count: 1 });
    assert_eq!(s.avg_ms, Millis { sum_us: 40_000, count: 1 });
    assert_eq!((s.p50_ms, s.p99_ms), (40, 40));
    let (first, second) = (s.time_series[0], s.time_series[1]);
    assert_eq!((first.requests, first.success, first.bytes), (2, 0, 0));
    assert_eq!(first.avg_ms, Millis { sum_us: 0, count: 0 });
    assert_eq!((second.requests, second.success, second.bytes), (0, 1, 8));
    assert_eq!(second.avg_ms, Millis { sum_us: 40_000, count: 1 });
}

#[test]
fn failures_are_those_of_the_status_0() {
    let mut m = Metrics::new(10);
    m.record(0, 10, 500, 1, true, None);
    m.record(0, 10, 0, 0, false, Some(ConnError::Timeout));
    m.record_conn_error(1, ConnError::Dns);
    m.record_reply(1, 5, 101, 1);
    let s = m.snapshot(AFTER);
    assert_eq!(s.failed, 2);
    assert_eq!(s.status_codes.get(&0), Some(&s.failed));
}

#[test]
fn errors_are_listed_by_name() {
    let mut m = Metrics::new(1);
    for e in [ConnError::Tls, ConnError::Dns, ConnError::Tls, ConnError::Other, ConnError::Reset] {
        m.record_conn_error(0, e);
    }
    let names: Vec<(String, u64)> = m.snapshot(AFTER).errors;
    let expected: Vec<(String, u64)> = [("dns", 1), ("other", 1), ("reset", 1), ("tls", 2)]
        .iter()
        .map(|e| (e.0.to_string(), e.1))
        .collect();
    assert_eq!(names, expected);
}

#[test]
fn first_failures_are_kept() {
    let mut m = Metrics::new(1);
    let first: Vec<CheckFailure> = (0..60).map(failure).collect();
    let second: Vec<CheckFailure> = (60..150).map(failure).collect();
    m.record_checks(2, &first);
    m.record_checks(3, &second);
    m.record_checks(1, &vec![]);
    let s = m.snapshot(AFTER);
    assert_eq!((s.checks_passed, s.checks_failed), (6, 150));
    assert_eq!(s.check_failures.len(), MAX_CHECK_FAILURES);
    let kept: Vec<String> = s.check_failures.iter().map(|f| f.actual.clone()).collect();
    assert_eq!(kept, (0..100).map(|n| n.to_string()).collect::<Vec<String>>());
}

#[test]
fn percentiles_of_latencies() {
    let buckets: BTreeMap<u64, u64> = (1..=100).map(|ms| (ms, 1)).collect();
    assert_eq!(compute_percentiles(&buckets, 100, &PERCENTILES), [50, 75, 90, 95, 99]);
    assert_eq!(compute_percentiles(&buckets, 0, &PERCENTILES), [0; 5]);
    assert_eq!(compute_percentiles(&BTreeMap::new(), 10, &PERCENTILES), [0; 5]);
    let one = BTreeMap::from([(42, 1)]);
    assert_eq!(compute_percentiles(&one, 1, &[50, 99, 100]), [42, 42, 42]);
    let few = BTreeMap::from([(3, 1), (9, 2)]);
    assert_eq!(compute_percentiles(&few, 10, &[10, 30, 40]), [3, 9, 0]);
}

#[test]
fn counters_start_over() {
    let mut m = Metrics::new(1);
    m.bytes = u64::MAX;
    m.record(0, 0, 200, 3, true, None);
    assert_eq!(m.bytes, 2);
}
