use ares_features::precompute::{filter, Tally};

#[test]
fn kept_positions() {
    assert!(filter(16, false, 0, true, true));
    assert!(filter(200, false, 10000, true, true));
    assert!(filter(16, false, -10000, true, true));
    assert!(!filter(15, false, 0, true, true));
    assert!(!filter(16, true, 0, true, true));
    assert!(!filter(16, false, 10001, true, true));
    assert!(!filter(16, false, -10001, true, true));
    assert!(!filter(16, false, i16::MIN, true, true));
    assert!(!filter(16, false, 0, false, true));
    assert!(!filter(16, false, 0, true, false));
}

#[test]
fn records_up_to_the_limit() {
    let mut tally = Tally::new();
    assert_eq!(tally, Tally { written: 0, clamped: 0, done: false });
    assert!(tally.count_record(false, 2));
    assert!(tally.count_record(true, 2));
    assert_eq!(tally, Tally { written: 2, clamped: 1, done: false });
    assert!(!tally.count_record(true, 2));
    assert_eq!(tally, Tally { written: 2, clamped: 1, done: true });
}

#[test]
fn no_record_with_limit_zero() {
    let mut tally = Tally::new();
    assert!(!tally.count_record(false, 0));
    assert_eq!(tally, Tally { written: 0, clamped: 0, done: true });
}
