use wings_core::ioflow::{counted_chunk, BoundedReader, ByteCounter, RateLimiter};

#[test]
fn counting_passes_bytes_through() {
    let mut c = ByteCounter::new();
    let out = counted_chunk(&mut c, vec![1, 2, 3]);
    assert_eq!(out, vec![1, 2, 3]);
    let out2 = counted_chunk(&mut c, vec![4, 5]);
    assert_eq!(out2, vec![4, 5]);
    assert_eq!(c.count, 5);
}

#[test]
fn bounded_reader_never_passes_its_size() {
    let mut r = BoundedReader::new_with_bytes_written(100, 10);
    let mut c = ByteCounter::new();
    assert_eq!(r.grant(8192), 10);
    r.advance(10, &mut c);
    assert_eq!(r.grant(8192), 0);
    assert_eq!(c.count, 10);
    assert_eq!(r.position, 10);
}

#[test]
fn bounded_reader_partial_reads() {
    let mut r = BoundedReader::new_with_bytes_written(0, 10);
    let mut c = ByteCounter::new();
    assert_eq!(r.grant(4), 4);
    r.advance(3, &mut c);
    assert_eq!(r.grant(4), 4);
    r.advance(4, &mut c);
    assert_eq!(r.grant(100), 3);
    assert_eq!(c.count, 7);
}

#[test]
fn rate_limiter_burst_and_refill() {
    let mut l = RateLimiter::new(1000);
    // one second's burst is available at once
    assert!(l.try_take(1000));
    assert!(!l.try_take(1));
    // half a second refills half the cap
    l.refill(500);
    assert!(l.try_take(500));
    assert!(!l.try_take(1));
    assert_eq!(l.delivered, 1500);
    // over the 0.5 s window, delivered bytes stayed within cap/2 + burst
    assert!(l.delivered <= 1000 / 2 + 1000 + 1000);
}

#[test]
fn rate_limiter_zero_cap_is_unlimited() {
    let mut l = RateLimiter::new(0);
    assert!(l.try_take(u64::MAX / 2));
    assert!(l.try_take(12345));
}

#[test]
fn wait_hint_bounded_by_cap() {
    let mut l = RateLimiter::new(100);
    assert!(l.try_take(100));
    // 50 bytes need half a second at 100 bytes per second
    let w = l.wait_hint_ms(50);
    assert_eq!(w, 500);
    // the wait never exceeds ceil(bytes / cap) seconds
    assert!(w <= (50 * 1000 + 99) / 100);
    l.refill(w);
    assert!(l.try_take(50));
}
