//! Tests of the gas tracker: limits, consumption, exhaustion, and the
//! limitless tracker.

use memdb::gas::{GasTracker, OutOfGasError};

#[test]
fn limited_tracker_consumes_within_limit() {
    let mut tracker = GasTracker::new_limited(100);
    assert_eq!(tracker.limit(), Some(100));
    assert_eq!(tracker.used(), 0);
    assert_eq!(tracker.remaining(), Some(100));

    assert_eq!(tracker.consume(50, "first half"), Ok(()));
    assert_eq!(tracker.used(), 50);
    assert_eq!(tracker.remaining(), Some(50));
}

#[test]
fn failed_consumption_is_not_applied() {
    let mut tracker = GasTracker::new_limited(100);
    assert_eq!(tracker.consume(50, "ok"), Ok(()));
    let err = tracker.consume(60, "too much").unwrap_err();
    assert_eq!(err, OutOfGasError { limit: 100, used: 110 });
    // The failed attempt left the counter unchanged.
    assert_eq!(tracker.used(), 50);
    assert_eq!(tracker.remaining(), Some(50));
    // A smaller consumption still fits afterwards.
    assert_eq!(tracker.consume(50, "exact fit"), Ok(()));
    assert_eq!(tracker.used(), 100);
    assert_eq!(tracker.remaining(), Some(0));
}

#[test]
fn consuming_exactly_the_limit_succeeds() {
    let mut tracker = GasTracker::new_limited(7);
    assert_eq!(tracker.consume(7, "all of it"), Ok(()));
    assert_eq!(tracker.used(), 7);
    assert_eq!(tracker.remaining(), Some(0));
    let err = tracker.consume(1, "one over").unwrap_err();
    assert_eq!(err, OutOfGasError { limit: 7, used: 8 });
}

#[test]
fn limitless_tracker_never_fails() {
    let mut tracker = GasTracker::new_limitless();
    assert_eq!(tracker.limit(), None);
    assert_eq!(tracker.remaining(), None);
    assert_eq!(tracker.consume(1_000_000_000, "a lot"), Ok(()));
    assert_eq!(tracker.consume(123, "more"), Ok(()));
    assert_eq!(tracker.used(), 1_000_000_123);
    assert_eq!(tracker.remaining(), None);
}

#[test]
fn new_takes_an_optional_limit() {
    let mut with_limit = GasTracker::new(Some(10));
    assert_eq!(with_limit.limit(), Some(10));
    assert_eq!(with_limit.consume(10, "fits"), Ok(()));
    assert_eq!(with_limit.consume(1, "does not").unwrap_err(), OutOfGasError {
        limit: 10,
        used: 11
    });

    let mut without = GasTracker::new(None);
    assert_eq!(without.limit(), None);
    assert_eq!(without.consume(99, "fine"), Ok(()));
    assert_eq!(without.used(), 99);
}

#[test]
fn zero_consumption_is_allowed() {
    let mut tracker = GasTracker::new_limited(0);
    assert_eq!(tracker.consume(0, "nothing"), Ok(()));
    assert_eq!(tracker.used(), 0);
    assert_eq!(tracker.consume(1, "anything").unwrap_err(), OutOfGasError {
        limit: 0,
        used: 1
    });
}
