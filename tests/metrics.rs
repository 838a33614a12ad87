use beegfs_exporter::{FeedError, MetricTotals, ParsedSample};

fn totals(m: &MetricTotals) -> (u128, u128, u128, u64, u64, u64) {
    (
        m.written(),
        m.read(),
        m.requests(),
        m.queue_length(),
        m.busy_percent(),
        m.samples(),
    )
}

#[test]
fn new_totals_are_zero() {
    assert_eq!(totals(&MetricTotals::new()), (0, 0, 0, 0, 0, 0));
}

#[test]
fn feed_sample_line_updates_all_metrics() {
    let mut m = MetricTotals::new();
    let r = m.feed_line("  3   100   200   5   7   42\n");
    assert_eq!(
        r,
        Ok(Some(ParsedSample {
            bytes_written: 100,
            bytes_read: 200,
            request_count: 5,
            queue_length: 7,
            busy_percent: 42,
        }))
    );
    assert_eq!(totals(&m), (100, 200, 5, 7, 42, 1));
}

#[test]
fn feed_garbage_changes_nothing() {
    let mut m = MetricTotals::new();
    assert_eq!(m.feed_line("garbage line"), Ok(None));
    assert_eq!(totals(&m), (0, 0, 0, 0, 0, 0));
}

#[test]
fn feed_lines_sums_counters_and_keeps_last_gauges() {
    let lines = [
        "  nodeID  write  read  reqs  qlen  bsy",
        "  1   10   20   3   4   50",
        "",
        "  2   5   6   7   8   9",
        "-----",
    ];
    let mut m = MetricTotals::new();
    for l in lines.iter() {
        assert!(m.feed_line(l).is_ok());
    }
    assert_eq!(totals(&m), (15, 26, 10, 8, 9, 2));

    let mut again = MetricTotals::new();
    for l in lines.iter() {
        assert!(again.feed_line(l).is_ok());
    }
    assert_eq!(totals(&again), totals(&m));
}

#[test]
fn gauges_stay_when_no_later_sample() {
    let mut m = MetricTotals::new();
    assert!(m.feed_line(" 1 1 1 1 6 70").is_ok());
    assert!(m.feed_line("header").is_ok());
    assert_eq!(m.queue_length(), 6);
    assert_eq!(m.busy_percent(), 70);
}

#[test]
fn feed_out_of_range_changes_nothing() {
    let mut m = MetricTotals::new();
    assert!(m.feed_line(" 1 1 1 1 1 1").is_ok());
    assert_eq!(
        m.feed_line(" 1 1 1 1 1 99999999999999999999"),
        Err(FeedError::FieldOutOfRange)
    );
    assert_eq!(totals(&m), (1, 1, 1, 1, 1, 1));
}

#[test]
fn counters_add_beyond_64_bits() {
    let mut m = MetricTotals::new();
    let s = ParsedSample {
        bytes_written: u64::MAX,
        bytes_read: u64::MAX,
        request_count: 1,
        queue_length: 2,
        busy_percent: 3,
    };
    assert_eq!(m.record(s), Ok(()));
    assert_eq!(m.record(s), Ok(()));
    assert_eq!(m.written(), 2 * (u64::MAX as u128));
    assert_eq!(m.read(), 2 * (u64::MAX as u128));
    assert_eq!(m.requests(), 2);
    assert_eq!(m.samples(), 2);
}

#[test]
fn feed_lines_forwards_each_sample_once() {
    let lines: Vec<String> = vec![
        "  nodeID  write  read  reqs  qlen  bsy".to_string(),
        "3 100 200   5 7 42".to_string(),
        "garbage line".to_string(),
        "  4   1   2   3   4   5".to_string(),
        " 1 2 3 4 5".to_string(),
    ];
    let mut m = MetricTotals::new();
    assert_eq!(m.feed_lines(&lines), Ok(2));
    assert_eq!(totals(&m), (101, 202, 8, 4, 5, 2));

    let mut again = MetricTotals::new();
    assert_eq!(again.feed_lines(&lines), Ok(2));
    assert_eq!(totals(&again), totals(&m));
}

#[test]
fn feed_lines_stops_at_bad_line() {
    let lines: Vec<String> = vec![
        " 1 10 20 30 40 50".to_string(),
        " 1 1 1 1 1 99999999999999999999".to_string(),
        " 1 10 20 30 40 50".to_string(),
    ];
    let mut m = MetricTotals::new();
    assert_eq!(m.feed_lines(&lines), Err((1, FeedError::FieldOutOfRange)));
    assert_eq!(totals(&m), (10, 20, 30, 40, 50, 1));
}

#[test]
fn feed_lines_empty_changes_nothing() {
    let mut m = MetricTotals::new();
    assert_eq!(m.feed_lines(&Vec::new()), Ok(0));
    assert_eq!(totals(&m), (0, 0, 0, 0, 0, 0));
}
