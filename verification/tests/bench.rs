//! Tests of the benchmark bookkeeping types.

use lucid::args::connection_in_range;
use lucid::results::{requests_for_connection, BenchmarkResults, ConnectionSummary};

#[test]
fn new_summary_starts_empty() {
    let s = ConnectionSummary::new(7, 100);
    assert_eq!(s.connection_id, 7);
    assert_eq!(s.successful_requests, 0);
    assert_eq!(s.failed_requests, 0);
    assert_eq!(s.duration, 0);
    assert!(s.requests.is_empty());
}

#[test]
fn record_request_classifies_by_status() {
    let mut s = ConnectionSummary::new(0, 4);
    s.record_request(200, 150);
    s.record_request(404, 90);
    s.record_request(407, 20);
    s.record_request(500, 700);
    assert_eq!(s.successful_requests, 3); // 200, 404 and 407 are below 408
    assert_eq!(s.failed_requests, 1);
    assert_eq!(s.requests.len(), 4);
    assert_eq!(s.requests[1].statuscode, 404);
    assert_eq!(s.requests[3].duration, 700);
}

#[test]
fn totals_sum_over_connections() {
    let mut a = ConnectionSummary::new(0, 2);
    a.record_request(200, 10);
    a.record_request(500, 10);
    let mut b = ConnectionSummary::new(1, 2);
    b.record_request(200, 10);
    b.record_request(200, 10);
    let results = BenchmarkResults { summaries: vec![a, b], total_duration_ms: 25 };
    assert_eq!(results.total_successful(), 3);
    assert_eq!(results.total_failed(), 1);
}

#[test]
fn totals_of_empty_run_are_zero() {
    let results = BenchmarkResults { summaries: Vec::new(), total_duration_ms: 0 };
    assert_eq!(results.total_successful(), 0);
    assert_eq!(results.total_failed(), 0);
}

#[test]
fn request_distribution_covers_every_request() {
    let total = 10u64;
    let connections = 4u64;
    let shares: Vec<u64> =
        (0..connections).map(|id| requests_for_connection(id, total, connections)).collect();
    assert_eq!(shares, vec![3, 3, 2, 2]);
    assert_eq!(shares.iter().sum::<u64>(), total);
}

#[test]
fn request_distribution_even_split() {
    for id in 0..5 {
        assert_eq!(requests_for_connection(id, 100, 5), 20);
    }
}

#[test]
fn connection_count_in_range_accepted() {
    assert_eq!(connection_in_range("128"), Ok(128));
    assert_eq!(connection_in_range("1"), Ok(1));
    assert_eq!(connection_in_range("+65526"), Ok(65526));
}

#[test]
fn connection_count_out_of_range_rejected() {
    assert!(connection_in_range("0").is_err());
    assert!(connection_in_range("65527").is_err());
    assert!(connection_in_range("999999999999").is_err());
}

#[test]
fn connection_count_non_numeric_rejected() {
    assert!(connection_in_range("").is_err());
    assert!(connection_in_range("+").is_err());
    assert!(connection_in_range("12a").is_err());
    assert!(connection_in_range("-5").is_err());
    assert!(connection_in_range(" 5").is_err());
}
