use rate_limiter::{FixedWindow, RateLimiter};
use std::time::Duration;

#[test]
fn allows_requests_under_limit() {
    let limiter = FixedWindow::new(Duration::from_secs(10).as_millis(), 3);

    assert!(limiter.allow(), "First request should be allowed");
    assert!(limiter.allow(), "Second request should be allowed");
    assert!(limiter.allow(), "Third request should be allowed");
}

#[test]
fn blocks_requests_over_limit() {
    let limiter = FixedWindow::new(Duration::from_secs(10).as_millis(), 2);

    assert!(limiter.allow(), "First request should be allowed");
    assert!(limiter.allow(), "Second request should be allowed");

    assert!(!limiter.allow(), "Third request should be blocked");
    assert!(!limiter.allow(), "Fourth request should be blocked");
}

#[test]
fn resets_counter_after_window_expires() {
    let window = Duration::from_millis(50);
    let limiter = FixedWindow::new(window.as_millis(), 1);

    assert!(limiter.admit_at(0).is_ok(), "First request should be allowed");
    assert!(limiter.admit_at(1).is_err(), "Second request should be blocked");

    // 60 ms later the window has expired
    assert!(limiter.admit_at(60).is_ok(), "Request in new window should be allowed");
}

#[test]
fn handles_zero_capacity() {
    let limiter = FixedWindow::new(Duration::from_secs(10).as_millis(), 0);

    assert!(
        !limiter.allow(),
        "Request should be blocked immediately with zero capacity"
    );
}

#[test]
fn fixed_pack_unpack_round_trip() {
    let state = FixedWindow::pack(7, 42);
    assert_eq!(state, (7u64 << 32) | 42);
    assert_eq!(FixedWindow::unpack(state), (7, 42));
    assert_eq!(FixedWindow::unpack(u64::MAX), (u32::MAX, u32::MAX));
}

#[test]
fn fixed_next_state_counts_within_a_window() {
    let limiter = FixedWindow::new(1000, 2);
    let s0 = FixedWindow::pack(0, 0);
    let s1 = limiter.next_state(s0, 10).unwrap();
    assert_eq!(FixedWindow::unpack(s1), (0, 1));
    let s2 = limiter.next_state(s1, 999).unwrap();
    assert_eq!(FixedWindow::unpack(s2), (0, 2));
    assert_eq!(limiter.next_state(s2, 500), None);
    // window 3 starts at 3000 ms: the count starts over
    assert_eq!(limiter.next_state(s2, 3000), Some(FixedWindow::pack(3, 1)));
}

#[test]
fn fixed_zero_length_window_resets_every_request() {
    let limiter = FixedWindow::new(0, 1);
    for t in 0..5u128 {
        assert!(limiter.admit_at(t).is_ok());
    }
    let refusing = FixedWindow::new(0, 0);
    assert!(refusing.admit_at(0).is_err());
    let always = FixedWindow::new(0, 1);
    for _ in 0..5 {
        assert!(always.allow());
    }
}

#[test]
fn fixed_admit_reports_previous_state() {
    let limiter = FixedWindow::new(100, 1);
    assert_eq!(limiter.admit_at(5), Ok(FixedWindow::pack(0, 0)));
    assert_eq!(limiter.admit_at(6), Err(FixedWindow::pack(0, 1)));
    assert_eq!(limiter.admit_at(250), Ok(FixedWindow::pack(0, 1)));
    assert_eq!(limiter.admit_at(251), Err(FixedWindow::pack(2, 1)));
}

#[test]
fn fixed_span_across_boundary_admits_twice_max() {
    // the documented burst: 2 at the end of window 0, 2 at the start of window 1
    let limiter = FixedWindow::new(100, 2);
    let admitted: Vec<bool> = [98u128, 99, 99, 100, 101, 150]
        .iter()
        .map(|t| limiter.admit_at(*t).is_ok())
        .collect();
    assert_eq!(admitted, vec![true, true, false, true, true, false]);
}
