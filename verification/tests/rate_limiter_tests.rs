use pumpkin_voice::rate_limiter::{PacketRateLimiter, RateLimiter, TIME_WINDOW_NANOS};

#[test]
fn fresh_bucket_lets_threshold_through_at_once() {
    let mut rl = RateLimiter::new(3, TIME_WINDOW_NANOS, 100);
    assert_eq!(rl.time_per_token_ns, 333_333_333);
    assert!(rl.try_acquire(100));
    assert!(rl.try_acquire(100));
    assert!(rl.try_acquire(100));
    assert!(!rl.try_acquire(100));
    assert!(!rl.try_acquire(100));
    assert_eq!(rl.amount, 3);
}

#[test]
fn tokens_leak_over_time() {
    let mut rl = RateLimiter::new(2, 1000, 0);
    assert_eq!(rl.time_per_token_ns, 500);
    assert!(rl.try_acquire(0));
    assert!(rl.try_acquire(0));
    assert!(!rl.try_acquire(499));
    // One token leaked after 500 ns; the leak clock advances by one token.
    assert!(rl.try_acquire(700));
    assert_eq!(rl.last_leak, 500);
    assert_eq!(rl.amount, 2);
    assert!(!rl.try_acquire(999));
    // Everything leaked: the clock restarts at the current time.
    assert!(rl.try_acquire(5000));
    assert_eq!(rl.last_leak, 5000);
    assert_eq!(rl.amount, 1);
}

#[test]
fn zero_threshold_refuses_everything() {
    let mut rl = RateLimiter::new(0, TIME_WINDOW_NANOS, 0);
    assert_eq!(rl.time_per_token_ns, TIME_WINDOW_NANOS);
    assert!(!rl.try_acquire(0));
    assert!(!rl.try_acquire(10 * TIME_WINDOW_NANOS));
}

#[test]
fn no_positive_limit_allows_all() {
    let mut p = PacketRateLimiter::new(0, 0);
    for _ in 0..1000 {
        assert!(p.allow_at(1, 0));
    }
    let mut q = PacketRateLimiter::new(-5, 100);
    assert!(q.allow_at(1, 0));
}

#[test]
fn per_player_buckets() {
    let mut p = PacketRateLimiter::new(2, 2);
    assert!(p.allow_at(1, 10));
    assert!(p.allow_at(1, 10));
    assert!(!p.allow_at(1, 10));
    assert!(p.allow_at(2, 10));
    p.on_player_logged_out(1);
    assert!(p.allow_at(1, 10));
}

#[test]
fn clocked_allow_counts_packets() {
    let mut p = PacketRateLimiter::new(500, 500);
    let mut passed = 0;
    for _ in 0..100 {
        if p.allow(42) {
            passed += 1;
        }
    }
    assert_eq!(passed, 100);
    let mut tight = PacketRateLimiter::new(1, 1);
    assert!(tight.allow(1));
    assert!(!tight.allow(1));
}

#[test]
fn burst_within_one_token_time_passes_threshold_only() {
    // Threshold 3 over 300 ns: a token leaks every 100 ns.
    let mut rl = RateLimiter::new(3, 300, 1000);
    let results: Vec<bool> = [1000u64, 1010, 1050, 1050, 1099].iter().map(|t| rl.try_acquire(*t)).collect();
    assert_eq!(results, vec![true, true, true, false, false]);
}

#[test]
fn passes_over_an_interval_are_bounded() {
    // Threshold 2, a token every 10 ns; one call per nanosecond over 30 ns.
    let mut rl = RateLimiter::new(2, 20, 0);
    let passed = (0u64..=30).filter(|t| rl.try_acquire(*t)).count();
    assert!(passed <= 2 + 1 + 30 / 10);
    assert_eq!(passed, 5);
    assert!(rl.amount <= rl.threshold);
}

#[test]
fn a_full_bucket_passes_after_one_token_time() {
    let mut rl = RateLimiter::new(1, 100, 0);
    assert!(rl.try_acquire(0));
    assert!(!rl.try_acquire(99));
    assert!(rl.try_acquire(100));
    assert!(rl.last_leak <= 100);
}

#[test]
fn limiters_keep_players_apart() {
    let mut l = PacketRateLimiter::new(1, 1);
    assert!(l.allow_at(1, 0));
    assert!(!l.allow_at(1, 1));
    assert!(l.allow_at(2, 1));
    l.on_player_logged_out(1);
    assert!(l.allow_at(1, 2));
}
