use rate_limiter::{LeakyBucket, RateLimiter};

#[test]
fn allows_requests_under_capacity() {
    let limiter = LeakyBucket::new(3, 1);

    assert!(limiter.allow());
    assert!(limiter.allow());
    assert!(limiter.allow());
}

#[test]
fn blocks_when_bucket_is_full() {
    let limiter = LeakyBucket::new(2, 1);

    assert!(limiter.allow());
    assert!(limiter.allow());

    assert!(!limiter.allow());
}

#[test]
fn leaks_over_time_allowing_new_requests() {
    let limiter = LeakyBucket::new(1, 10);

    assert!(limiter.admit_at(0).is_ok());
    assert!(limiter.admit_at(0).is_err());

    // 150 ms later the bucket has drained
    assert!(limiter.admit_at(150).is_ok());
}

#[test]
fn leaky_pack_unpack_round_trip() {
    let state = LeakyBucket::pack(123_456, 789);
    assert_eq!(state, (123_456u64 << 32) | 789);
    assert_eq!(LeakyBucket::unpack(state), (123_456, 789));
}

#[test]
fn leaky_next_state_drains_by_rate_times_elapsed() {
    // capacity 5 requests, draining 2 requests per second (one per 500 ms)
    let bucket = LeakyBucket::new(5, 2);
    // 4 requests with the leak counted up to 100 ms
    let state = LeakyBucket::pack(100, 4);
    // at 101 ms nothing whole has leaked: the stamp stays, one more fits
    assert_eq!(bucket.next_state(state, 101), Some(LeakyBucket::pack(100, 5)));
    // at 600 ms one request has leaked, which took 500 ms
    assert_eq!(bucket.next_state(state, 600), Some(LeakyBucket::pack(600, 4)));
    // at 700 ms still one whole request: the 0.2 leaking since 600 ms is kept
    assert_eq!(bucket.next_state(state, 700), Some(LeakyBucket::pack(600, 4)));
    // full bucket, no time passed
    let full = LeakyBucket::pack(100, 5);
    assert_eq!(bucket.next_state(full, 100), None);
    // drained far below zero: floors at empty, then holds one request
    assert_eq!(bucket.next_state(full, 10_000), Some(LeakyBucket::pack(10_000, 1)));
    // the millisecond clock wraps around: u32::MAX to 1 is 2 ms, too little
    let late = LeakyBucket::pack(u32::MAX, 5);
    assert_eq!(bucket.next_state(late, 1), None);
    // u32::MAX to 500 is 501 ms: one request leaked in the first 500
    assert_eq!(bucket.next_state(late, 500), Some(LeakyBucket::pack(499, 5)));
}

#[test]
fn leaky_stamp_moves_by_whole_leak_time() {
    // 3 requests per second: one request takes 333.3 ms, counted as 334 ms
    let bucket = LeakyBucket::new(5, 3);
    let state = LeakyBucket::pack(100, 4);
    assert_eq!(bucket.next_state(state, 500), Some(LeakyBucket::pack(434, 4)));
}

#[test]
fn leaky_accepts_the_largest_capacity() {
    let bucket = LeakyBucket::new(u32::MAX, 0);
    assert_eq!(bucket.next_state(LeakyBucket::pack(0, u32::MAX - 1), 7), Some(LeakyBucket::pack(0, u32::MAX)));
    assert_eq!(bucket.next_state(LeakyBucket::pack(0, u32::MAX), 7), None);
    assert!(bucket.allow());
}

#[test]
fn leaky_rate_is_per_second() {
    let bucket = LeakyBucket::new(1, 1);
    assert!(bucket.admit_at(0).is_ok());
    // after 1 ms only a thousandth of a request has drained
    assert!(bucket.admit_at(1).is_err());
    assert!(bucket.admit_at(999).is_err());
    // after a whole second the bucket is empty again
    assert!(bucket.admit_at(1000).is_ok());
}

#[test]
fn leaky_no_drain_admits_capacity() {
    let bucket = LeakyBucket::new(3, 0);
    let admitted: Vec<bool> = [0u32, 10, 5000, 70_000, 1_000_000]
        .iter()
        .map(|t| bucket.admit_at(*t).is_ok())
        .collect();
    assert_eq!(admitted, vec![true, true, true, false, false]);
}

#[test]
fn leaky_zero_capacity_refuses() {
    let bucket = LeakyBucket::new(0, 1000);
    assert!(!bucket.allow());
    assert!(bucket.admit_at(5000).is_err());
}
