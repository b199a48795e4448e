use rate_limiter::{RateLimiter, TokenBucket};

#[test]
fn test_initial_capacity() {
    let bucket = TokenBucket::new(10, 3);

    assert!(bucket.allow(), "First request should pass");
    assert!(bucket.allow(), "Second request should pass");
    assert!(bucket.allow(), "Third request should pass");
    assert!(!bucket.allow(), "Fourth request should be blocked");
}

#[test]
fn test_empty_capacity() {
    let bucket = TokenBucket::new(10, 0);
    assert!(
        !bucket.allow(),
        "A bucket with 0 capacity should not allow any requests"
    );
}

#[test]
fn test_token_refill_over_time() {
    // Rate: 10 tokens per second. That is 1 token every 100 ms.
    let bucket = TokenBucket::new(10, 2);

    assert!(bucket.admit_at(0).is_ok());
    assert!(bucket.admit_at(0).is_ok());
    assert!(bucket.admit_at(0).is_err());

    // 150 ms later 1.5 tokens are back
    assert!(
        bucket.admit_at(150).is_ok(),
        "After 150 ms, at least 1 token should be available"
    );
    assert!(
        bucket.admit_at(150).is_err(),
        "The second token should not have had time to restore yet (needs 200 ms)"
    );
}

#[test]
fn test_capacity_is_never_exceeded() {
    let bucket = TokenBucket::new(100, 2);

    // 50 ms at rate 100 would yield 5 tokens, but the capacity is 2.
    assert!(bucket.admit_at(50).is_ok());
    assert!(bucket.admit_at(50).is_ok());
    assert!(
        bucket.admit_at(50).is_err(),
        "The number of tokens must not exceed the maximum capacity (2)"
    );
}

#[test]
fn token_pack_unpack_round_trip() {
    let state = TokenBucket::pack(1, 2000);
    assert_eq!(state, (1u64 << 32) | 2000);
    assert_eq!(TokenBucket::unpack(state), (1, 2000));
}

#[test]
fn token_next_state_refills_in_milli_tokens() {
    let bucket = TokenBucket::new(10, 2);
    // empty at 0 ms; 10 milli-tokens per ms
    let empty = TokenBucket::pack(0, 0);
    assert_eq!(bucket.next_state(empty, 99), None);
    assert_eq!(bucket.next_state(empty, 100), Some(TokenBucket::pack(100, 0)));
    assert_eq!(bucket.next_state(empty, 150), Some(TokenBucket::pack(150, 500)));
    // capped at 2000 milli-tokens however long it waits
    assert_eq!(bucket.next_state(empty, 1_000_000), Some(TokenBucket::pack(1_000_000, 1000)));
}

#[test]
fn token_largest_capacity() {
    let bucket = TokenBucket::new(0, 4_294_967);
    assert_eq!(bucket.admit_at(0), Ok(TokenBucket::pack(0, 4_294_967_000)));
}

#[test]
fn token_admissions_bounded_by_refill() {
    // 2 tokens to start, 10 tokens per second: within 1000 ms at most 2 + 10
    let bucket = TokenBucket::new(10, 2);
    let admitted = (0..=1000u32)
        .step_by(10)
        .filter(|t| bucket.admit_at(*t).is_ok())
        .count();
    assert_eq!(admitted, 12);
}
