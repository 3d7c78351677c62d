use nimbus_core::events::{EventData, EventQueryType, EventStore, EventStoreError, Interval,
    IntervalData, LAST_SEEN_SENTINEL};

const DAY: u64 = 86400;

#[test]
fn count_covers_all_recorded() {
    let mut store = EventStore::new();
    store.record_event("click", DAY * 1 + 10).unwrap();
    store.record_event("click", DAY * 2 + 20).unwrap();
    store.record_event("click", DAY * 3 + 30).unwrap();
    let n = store.query("click", Interval::Day, 7, 0, EventQueryType::Count, DAY * 3 + 40);
    assert_eq!(n, 3);
}

#[test]
fn zero_window_returns_zero() {
    let mut store = EventStore::new();
    store.record_event("click", DAY).unwrap();
    let n = store.query("click", Interval::Day, 0, 0, EventQueryType::Count, DAY);
    assert_eq!(n, 0);
    let n = store.query("click", Interval::Day, 0, 5, EventQueryType::Sum, DAY);
    assert_eq!(n, 0);
    let n = store.query("click", Interval::Day, 0, 0, EventQueryType::Average, DAY);
    assert_eq!(n, 0);
    let n = store.query("click", Interval::Day, 0, 0, EventQueryType::LastSeen, DAY);
    assert_eq!(n, LAST_SEEN_SENTINEL);
}

#[test]
fn unknown_event_is_all_zero() {
    let store = EventStore::new();
    let n = store.query("never", Interval::Week, 4, 0, EventQueryType::Count, DAY * 30);
    assert_eq!(n, 0);
    let n = store.query("never", Interval::Week, 4, 0, EventQueryType::LastSeen, DAY * 30);
    assert_eq!(n, LAST_SEEN_SENTINEL);
}

#[test]
fn trailing_window_boundary_convention() {
    // Events on days 1, 2, 3 and 8; the trailing seven day-buckets at day 8
    // cover days 2 through 8, so day 1 falls outside the window.
    let mut store = EventStore::new();
    store.record_event("login", DAY * 1 + 100).unwrap();
    store.record_event("login", DAY * 2 + 100).unwrap();
    store.record_event("login", DAY * 3 + 100).unwrap();
    store.record_event("login", DAY * 8 + 100).unwrap();
    let n = store.query("login", Interval::Day, 7, 0, EventQueryType::Count, DAY * 8 + 200);
    assert_eq!(n, 3);
    // The eight-bucket window reaches day 1 as well.
    let n = store.query("login", Interval::Day, 8, 0, EventQueryType::Count, DAY * 8 + 200);
    assert_eq!(n, 4);
}

#[test]
fn starting_bucket_shifts_window() {
    let mut store = EventStore::new();
    store.record_event("e", DAY * 5).unwrap();
    store.record_event("e", DAY * 8).unwrap();
    // Window of three buckets starting two buckets back from day 8: days 4-6.
    let n = store.query("e", Interval::Day, 3, 2, EventQueryType::Count, DAY * 8);
    assert_eq!(n, 1);
}

#[test]
fn average_divides_by_bucket_count() {
    let mut store = EventStore::new();
    for _ in 0..6 {
        store.record_event("e", DAY * 4).unwrap();
    }
    let n = store.query("e", Interval::Day, 3, 0, EventQueryType::Average, DAY * 4);
    assert_eq!(n, 2);
}

#[test]
fn last_seen_counts_elapsed_buckets() {
    let mut store = EventStore::new();
    store.record_event("e", DAY * 5 + 7).unwrap();
    let n = store.query("e", Interval::Day, 28, 0, EventQueryType::LastSeen, DAY * 8 + 7);
    assert_eq!(n, 3);
    let n = store.query("e", Interval::Day, 28, 0, EventQueryType::LastSeen, DAY * 5 + 8);
    assert_eq!(n, 0);
}

#[test]
fn events_age_out_beyond_retention() {
    let mut store = EventStore::new();
    store.record_event("e", DAY * 1).unwrap();
    // 40 days later the day series (28 buckets) no longer holds day 1.
    let n = store.query("e", Interval::Day, 28, 0, EventQueryType::Count, DAY * 41);
    assert_eq!(n, 0);
    // The week series still does.
    let n = store.query("e", Interval::Week, 52, 0, EventQueryType::Count, DAY * 41);
    assert_eq!(n, 1);
}

#[test]
fn record_at_date_parses_rfc3339() {
    let mut store = EventStore::new();
    store.record_event_at_date("login", "1970-01-02T00:00:00Z").unwrap();
    store.record_event_at_date("login", "1970-01-02T06:00:00+00:00").unwrap();
    let n = store.query("login", Interval::Day, 2, 0, EventQueryType::Count, DAY * 2);
    assert_eq!(n, 2);
}

#[test]
fn record_at_date_rejects_bad_dates() {
    let mut store = EventStore::new();
    assert_eq!(
        store.record_event_at_date("login", "not-a-date"),
        Err(EventStoreError::InvalidDate)
    );
    assert_eq!(
        store.record_event_at_date("login", "1969-12-31T00:00:00Z"),
        Err(EventStoreError::InvalidDate)
    );
    let n = store.query("login", Interval::Day, 28, 0, EventQueryType::Count, DAY);
    assert_eq!(n, 0);
}

#[test]
fn saturated_counter_is_an_error() {
    let mut days = Vec::new();
    days.push(u64::MAX);
    for _ in 1..28 {
        days.push(0u64);
    }
    let data = EventData {
        days: IntervalData { counts: days, latest: 0, total: u64::MAX, cap: 28 },
        weeks: IntervalData { counts: vec![0u64; 52], latest: 0, total: 0, cap: 52 },
        months: IntervalData { counts: vec![0u64; 12], latest: 0, total: 0, cap: 12 },
    };
    let mut store = EventStore { events: vec![("e".to_string(), data)] };
    assert_eq!(store.record_event("e", 10), Err(EventStoreError::CounterSaturated));
    // Another event id is unaffected.
    assert_eq!(store.record_event("other", 10), Ok(()));
}
