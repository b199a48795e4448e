use rate_limiter::{RateLimiter, SlidingWindow};
use std::time::Duration;

fn secs(s: u64) -> u128 {
    Duration::from_secs(s).as_millis()
}

#[test]
fn test_window_allow() {
    let limiter = SlidingWindow::new(secs(1), 5);
    assert!(limiter.allow());
}

#[test]
fn test_window_requests_allow() {
    let limiter = SlidingWindow::new(secs(1), 5);
    for _ in 0..5 {
        assert!(limiter.allow());
    }
    assert!(!limiter.allow());
}

#[test]
fn test_window_requests_deny() {
    let limiter = SlidingWindow::new(secs(1), 2);
    assert!(limiter.allow());
    assert!(limiter.allow());
    assert!(!limiter.allow());
}

#[test]
fn test_window_deny() {
    let limiter = SlidingWindow::new(secs(1), 2);

    // Fill the current window (window 0)
    assert!(limiter.admit_at(0).is_ok());
    assert!(limiter.admit_at(0).is_ok());

    // At 900 ms we are still in window 0.
    assert!(limiter.admit_at(900).is_err());

    // At 1050 ms we are in window 1: prev count 2 weighs 0.95, 1.9 < 2.
    assert!(limiter.admit_at(1050).is_ok());
}

#[test]
fn sliding_pack_unpack_round_trip() {
    let state = SlidingWindow::pack(9, 3, 65535);
    assert_eq!(state, (9u64 << 32) | (3u64 << 16) | 65535);
    assert_eq!(SlidingWindow::unpack(state), (9, 3, 65535));
}

#[test]
fn sliding_weighs_previous_window() {
    let limiter = SlidingWindow::new(1000, 10);
    // window 4 counted 10, window 5 nothing yet
    let state = SlidingWindow::pack(4, 0, 10);
    // at 5500 ms: 10 * 0.5 + 0 = 5 < 10, admitted; window 4's count becomes prev
    assert_eq!(limiter.next_state(state, 5500), Some(SlidingWindow::pack(5, 10, 1)));
    // at 5000 ms: 10 * 1.0 = 10, refused
    assert_eq!(limiter.next_state(state, 5000), None);
    // window 5 with prev 10 and 4 counted: at 5600 ms, 10 * 0.4 + 4 = 8 < 10
    let busy = SlidingWindow::pack(5, 10, 4);
    assert_eq!(limiter.next_state(busy, 5600), Some(SlidingWindow::pack(5, 10, 5)));
    // window 5 with 6 counted: at 5599 ms, 10 * 0.401 + 6 = 10.01, refused
    let busier = SlidingWindow::pack(5, 10, 6);
    assert_eq!(limiter.next_state(busier, 5599), None);
    // at 5600 ms exactly: 10 * 0.4 + 6 = 10, refused
    assert_eq!(limiter.next_state(busier, 5600), None);
    // at 5601 ms: 10 * 0.399 + 6 = 9.99, admitted
    assert_eq!(limiter.next_state(busier, 5601), Some(SlidingWindow::pack(5, 10, 7)));
}

#[test]
fn sliding_idle_window_forgets() {
    let limiter = SlidingWindow::new(1000, 1);
    let state = SlidingWindow::pack(4, 1, 1);
    assert_eq!(limiter.next_state(state, 6000), Some(SlidingWindow::pack(6, 0, 1)));
}

#[test]
fn sliding_zero_limit_refuses() {
    let limiter = SlidingWindow::new(1000, 0);
    assert!(!limiter.allow());
}

#[test]
fn sliding_later_requests_fare_no_worse() {
    let limiter = SlidingWindow::new(1000, 10);
    // window 5 with prev 10 and 6 counted: refused at 5600 ms, admitted later
    let state = SlidingWindow::pack(5, 10, 6);
    assert_eq!(limiter.next_state(state, 5600), None);
    assert!(limiter.next_state(state, 5601).is_some());
    assert!(limiter.next_state(state, 5999).is_some());
    // next window: only the 6 carry over, weighted
    assert_eq!(limiter.next_state(state, 6000), Some(SlidingWindow::pack(6, 6, 1)));
    assert_eq!(limiter.next_state(state, 9000), Some(SlidingWindow::pack(9, 0, 1)));
}
