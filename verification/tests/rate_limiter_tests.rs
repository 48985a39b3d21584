use routeproxy::consts::{DEFAULT_BURST_BYTES, DEFAULT_BYTES_PER_SEC};
use routeproxy::proto::rate_limiter::RateLimiter;

#[test]
fn bucket_starts_full() {
    let mut bucket = RateLimiter::new(DEFAULT_BYTES_PER_SEC, DEFAULT_BURST_BYTES);
    assert!(bucket.allow_after(0, 128 * 1024));
    assert!(!bucket.allow_after(0, 1));
}

#[test]
fn bucket_refuses_more_than_it_holds_without_debit() {
    let mut bucket = RateLimiter::new(DEFAULT_BYTES_PER_SEC, DEFAULT_BURST_BYTES);
    assert!(!bucket.allow_after(0, 128 * 1024 + 1));
    assert!(bucket.allow_after(0, 128 * 1024));
}

#[test]
fn bucket_refills_by_rate_times_time() {
    let mut bucket = RateLimiter::new(DEFAULT_BYTES_PER_SEC, DEFAULT_BURST_BYTES);
    assert!(bucket.allow_after(0, 128 * 1024));
    assert!(!bucket.allow_after(500_000_000, 32 * 1024 + 1));
    assert!(bucket.allow_after(0, 32 * 1024));
    assert!(!bucket.allow_after(0, 1));
    assert!(bucket.allow_after(1_000_000_000, 64 * 1024));
    assert!(!bucket.allow_after(0, 1));
}

#[test]
fn bucket_refill_is_exact_to_the_nanosecond() {
    let mut bucket = RateLimiter::new(DEFAULT_BYTES_PER_SEC, DEFAULT_BURST_BYTES);
    assert!(bucket.allow_after(0, 128 * 1024));
    assert!(!bucket.allow_after(15_258, 1));
    assert!(bucket.allow_after(1, 1));
    assert!(!bucket.allow_after(0, 1));
}

#[test]
fn bucket_never_holds_more_than_its_capacity() {
    let mut bucket = RateLimiter::new(DEFAULT_BYTES_PER_SEC, DEFAULT_BURST_BYTES);
    assert!(!bucket.allow_after(3_600_000_000_000, 128 * 1024 + 1));
    assert!(!bucket.allow_after(u128::MAX, 128 * 1024 + 1));
    assert!(bucket.allow_after(u128::MAX, 128 * 1024));
    assert!(!bucket.allow_after(0, 1));
}

#[test]
fn bucket_without_refill_only_drains() {
    let mut bucket = RateLimiter::new(0, 10);
    assert!(bucket.allow_after(1_000_000_000, 4));
    assert!(bucket.allow_after(1_000_000_000, 6));
    assert!(!bucket.allow_after(u128::MAX, 1));
    assert!(bucket.allow_after(0, 0));
}

#[test]
fn bucket_asked_now_gives_its_burst_once() {
    let mut bucket = RateLimiter::new(1, 1000);
    assert!(bucket.allow(600));
    assert!(!bucket.allow(600));
    assert!(bucket.allow(300));
}
