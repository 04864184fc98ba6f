//! Per-player packet rate limiting with a leaky token bucket.
use std::collections::HashMap;
use std::time::{Duration, Instant};
use vstd::prelude::*;

verus! {

broadcast use vstd::std_specs::hash::group_hash_axioms;

/// The window over which `max_packets_per_second` packets are allowed.
pub const TIME_WINDOW_NANOS: u64 = 1_000_000_000;

/// A leaky token bucket: `amount` tokens are held, at most `threshold`;
/// one token leaks away every `time_per_token_ns` nanoseconds, counted from
/// `last_leak`.
#[derive(Debug, Clone, Copy, PartialEq, Eq, Structural)]
pub struct RateLimiter {
    pub threshold: u64,
    pub time_per_token_ns: u64,
    pub last_leak: u64,
    pub amount: u64,
}

/// The bucket at `now` after the tokens that leaked since `last_leak` are
/// gone. When it empties, the leak clock restarts at `now`; otherwise it
/// advances by the whole tokens that leaked.
pub open spec fn leaked(rl: RateLimiter, now: u64) -> RateLimiter
    recommends
        rl.time_per_token_ns > 0,
{
    let elapsed: nat = if now >= rl.last_leak {
        (now - rl.last_leak) as nat
    } else {
        0
    };
    let tokens = elapsed / rl.time_per_token_ns as nat;
    if tokens > 0 {
        let amount: nat = if rl.amount >= tokens {
            (rl.amount - tokens) as nat
        } else {
            0
        };
        RateLimiter {
            amount: amount as u64,
            last_leak: if amount == 0 {
                now
            } else {
                (rl.last_leak + tokens * rl.time_per_token_ns) as u64
            },
            ..rl
        }
    } else {
        rl
    }
}

/// One acquisition at `now`: after the leak, a token is taken when fewer
/// than `threshold` are held, and refused otherwise.
pub open spec fn acquired(rl: RateLimiter, now: u64) -> (RateLimiter, bool)
    recommends
        rl.time_per_token_ns > 0,
{
    let l = leaked(rl, now);
    if l.amount >= l.threshold {
        (l, false)
    } else {
        (RateLimiter { amount: (l.amount + 1) as u64, ..l }, true)
    }
}

/// The time per token of a bucket that lets `threshold` tokens leak away
/// over `window_ns`.
pub open spec fn time_per_token(threshold: u64, window_ns: u64) -> u64 {
    (window_ns as nat / (if threshold >= 1 {
        threshold as nat
    } else {
        1
    })) as u64
}

impl RateLimiter {
    /// An empty bucket whose leak clock starts at `now_ns`.
    pub fn new(threshold: u64, window_ns: u64, now_ns: u64) -> (r: RateLimiter)
        ensures
            r == (RateLimiter {
                threshold,
                time_per_token_ns: time_per_token(threshold, window_ns),
                last_leak: now_ns,
                amount: 0,
            }),
    {
        let divisor: u64 = if threshold >= 1 {
            threshold
        } else {
            1
        };
        RateLimiter { threshold, time_per_token_ns: window_ns / divisor, last_leak: now_ns, amount: 0 }
    }

    /// Takes a token at `now_ns` if the bucket, after leaking, is not full.
    pub fn try_acquire(&mut self, now_ns: u64) -> (r: bool)
        requires
            old(self).time_per_token_ns > 0,
        ensures
            (*final(self), r) == acquired(*old(self), now_ns),
    {
        let elapsed: u64 = if now_ns >= self.last_leak {
            now_ns - self.last_leak
        } else {
            0
        };
        let tokens = elapsed / self.time_per_token_ns;
        if tokens > 0 {
            self.amount = if self.amount >= tokens {
                self.amount - tokens
            } else {
                0
            };
            if self.amount == 0 {
                self.last_leak = now_ns;
            } else {
                let t = self.time_per_token_ns;
                assert(tokens * t <= elapsed) by (nonlinear_arith)
                    requires
                        tokens == elapsed / t,
                        t > 0,
                ;
                self.last_leak = self.last_leak + tokens * t;
            }
        }
        if self.amount >= self.threshold {
            return false;
        }
        self.amount = self.amount + 1;
        true
    }
}

/// A bucket never holds more than its threshold, once it does not.
pub proof fn lemma_amount_bounded(rl: RateLimiter, now: u64)
    requires
        rl.amount <= rl.threshold,
        rl.time_per_token_ns > 0,
    ensures
        acquired(rl, now).0.amount <= rl.threshold,
        acquired(rl, now).0.threshold == rl.threshold,
        acquired(rl, now).0.time_per_token_ns == rl.time_per_token_ns,
{
}

/// The state of a bucket after `k` acquisitions, all at `now`.
pub open spec fn acquired_times(rl: RateLimiter, now: u64, k: nat) -> RateLimiter
    decreases k,
{
    if k == 0 {
        rl
    } else {
        acquired(acquired_times(rl, now, (k - 1) as nat), now).0
    }
}

/// A bucket created at `now` lets exactly `threshold` packets through at
/// `now`: the `k`-th acquisition at that instant succeeds iff `k < threshold`.
pub proof fn lemma_fresh_burst(threshold: u64, window_ns: u64, now: u64, k: nat)
    requires
        time_per_token(threshold, window_ns) > 0,
    ensures
        ({
            let fresh = RateLimiter {
                threshold,
                time_per_token_ns: time_per_token(threshold, window_ns),
                last_leak: now,
                amount: 0,
            };
            let before = acquired_times(fresh, now, k);
            &&& before.last_leak == now
            &&& before.threshold == threshold
            &&& before.time_per_token_ns == fresh.time_per_token_ns
            &&& before.amount == if k < threshold {
                k
            } else {
                threshold as nat
            }
            &&& acquired(before, now).1 == (k < threshold)
        }),
    decreases k,
{
    if k > 0 {
        lemma_fresh_burst(threshold, window_ns, now, (k - 1) as nat);
    }
}

/// At an unchanged clock a refused acquisition stays refused.
pub proof fn lemma_refusal_persists(rl: RateLimiter, now: u64)
    requires
        rl.time_per_token_ns > 0,
        acquired(rl, now).1 == false,
    ensures
        acquired(acquired(rl, now).0, now).1 == false,
{
    let l = leaked(rl, now);
    let t = rl.time_per_token_ns as nat;
    let elapsed: nat = if now >= rl.last_leak {
        (now - rl.last_leak) as nat
    } else {
        0
    };
    let tokens = elapsed / t;
    if tokens > 0 && l.amount != 0 {
        assert(tokens * t <= elapsed) by (nonlinear_arith)
            requires
                tokens == elapsed / t,
                t > 0,
        ;
        assert(l.last_leak == rl.last_leak + tokens * t);
        let e2 = (now - l.last_leak) as nat;
        assert(e2 / t == 0) by (nonlinear_arith)
            requires
                e2 == elapsed - tokens * t,
                tokens == elapsed / t,
                t > 0,
        ;
    }
}

/// When the bucket will have drained: the last leak plus one token time
/// per token held.
pub open spec fn drain_time(rl: RateLimiter) -> int {
    rl.last_leak + rl.amount * rl.time_per_token_ns
}

/// One acquisition at a time not before the last leak: the bucket stays
/// within its threshold and its leak clock stays between the old one and
/// `now`; the drain time never goes back, moves on by one token time for a
/// token taken, is at least `now` less one token time (plus the token
/// taken), and at most `now` plus a full bucket; a bucket that had at least
/// one token time to leak, and a threshold of at least one, lets the
/// packet through.
pub proof fn lemma_acquire_step(rl: RateLimiter, now: u64)
    requires
        rl.time_per_token_ns > 0,
        rl.amount <= rl.threshold,
        rl.last_leak <= now,
    ensures
        ({
            let (r2, ok) = acquired(rl, now);
            let t = rl.time_per_token_ns as int;
            let step = if ok {
                t
            } else {
                0
            };
            &&& r2.threshold == rl.threshold
            &&& r2.time_per_token_ns == rl.time_per_token_ns
            &&& r2.amount <= rl.threshold
            &&& rl.last_leak <= r2.last_leak <= now
            &&& drain_time(r2) >= drain_time(rl) + step
            &&& drain_time(r2) >= now - t + step
            &&& drain_time(r2) <= now + rl.threshold * t
            &&& (rl.threshold >= 1 && now - rl.last_leak >= t) ==> ok
        }),
{
    let t = rl.time_per_token_ns as int;
    let l = leaked(rl, now);
    let elapsed: int = now - rl.last_leak;
    let tokens: int = elapsed / t;
    assert(tokens * t <= elapsed && elapsed < (tokens + 1) * t) by (nonlinear_arith)
        requires
            tokens == elapsed / t,
            t > 0,
            elapsed >= 0,
    ;
    assert(l.amount <= rl.amount);
    assert(l.threshold == rl.threshold && l.time_per_token_ns == rl.time_per_token_ns);
    if tokens > 0 {
        if rl.amount >= tokens && rl.amount - tokens > 0 {
            // Not emptied: the clock moves by the tokens leaked.
            assert(l.last_leak == rl.last_leak + tokens * t);
            assert(l.amount == rl.amount - tokens);
            assert(drain_time(l) == drain_time(rl)) by (nonlinear_arith)
                requires
                    drain_time(l) == l.last_leak + l.amount * t,
                    drain_time(rl) == rl.last_leak + rl.amount * t,
                    l.last_leak == rl.last_leak + tokens * t,
                    l.amount == rl.amount - tokens,
            ;
            assert(drain_time(l) > now) by (nonlinear_arith)
                requires
                    drain_time(rl) == rl.last_leak + rl.amount * t,
                    drain_time(l) == drain_time(rl),
                    rl.amount >= tokens + 1,
                    elapsed < (tokens + 1) * t,
                    elapsed == now - rl.last_leak,
                    t > 0,
            ;
        } else {
            // Emptied: the clock restarts at `now`.
            assert(l.amount == 0);
            assert(l.last_leak == now);
            assert(drain_time(l) == now);
            assert(drain_time(rl) <= now) by (nonlinear_arith)
                requires
                    drain_time(rl) == rl.last_leak + rl.amount * t,
                    rl.amount <= tokens,
                    tokens * t <= elapsed,
                    elapsed == now - rl.last_leak,
                    t > 0,
            ;
        }
    } else {
        assert(l == rl);
        assert(drain_time(rl) >= rl.last_leak) by (nonlinear_arith)
            requires
                drain_time(rl) == rl.last_leak + rl.amount * t,
                t > 0,
        ;
    }
    assert(drain_time(l) >= now - t);
    assert(drain_time(l) <= now + rl.threshold * t) by (nonlinear_arith)
        requires
            drain_time(l) == l.last_leak + l.amount * t,
            l.last_leak <= now,
            l.amount <= rl.threshold,
            t > 0,
    ;
    let (r2, ok) = acquired(rl, now);
    if ok {
        assert(drain_time(r2) == drain_time(l) + t) by (nonlinear_arith)
            requires
                drain_time(r2) == r2.last_leak + r2.amount * t,
                drain_time(l) == l.last_leak + l.amount * t,
                r2.last_leak == l.last_leak,
                r2.amount == l.amount + 1,
        ;
        assert(drain_time(r2) <= now + rl.threshold * t) by (nonlinear_arith)
            requires
                drain_time(r2) == r2.last_leak + r2.amount * t,
                r2.last_leak <= now,
                r2.amount <= rl.threshold,
                t > 0,
        ;
    }
}

/// A leak takes off exactly the whole tokens that elapsed since the last
/// leak. When that leaves tokens in the bucket, the leak clock moves on by
/// exactly those tokens' time, so the drain time is unchanged, and the
/// packet passes exactly when the remaining tokens are below the
/// threshold; when it empties the bucket, the leak clock restarts at `now`.
pub proof fn lemma_leak_takes_whole_tokens(rl: RateLimiter, now: u64)
    requires
        rl.time_per_token_ns > 0,
        rl.last_leak <= now,
    ensures
        ({
            let k = (now - rl.last_leak) as nat / rl.time_per_token_ns as nat;
            let l = leaked(rl, now);
            let (r2, ok) = acquired(rl, now);
            &&& rl.amount > k ==> {
                &&& l.amount == rl.amount - k
                &&& l.last_leak == rl.last_leak + k * rl.time_per_token_ns
                &&& drain_time(l) == drain_time(rl)
                &&& ok == (rl.amount - k < rl.threshold)
                &&& r2.amount == rl.amount - k + (if ok {
                    1int
                } else {
                    0
                })
            }
            &&& (k >= 1 && rl.amount <= k) ==> l.amount == 0 && l.last_leak == now
        }),
{
    let t = rl.time_per_token_ns as int;
    let k = (now - rl.last_leak) as nat / rl.time_per_token_ns as nat;
    let l = leaked(rl, now);
    let elapsed: int = now - rl.last_leak;
    assert(k * t <= elapsed) by (nonlinear_arith)
        requires
            k == elapsed / t,
            t > 0,
            elapsed >= 0,
    ;
    if k == 0 {
        assert(l == rl);
        assert(k * t == 0) by (nonlinear_arith)
            requires
                k == 0,
        ;
    }
    if rl.amount > k && k > 0 {
        assert(l.amount == rl.amount - k);
        assert(l.last_leak == rl.last_leak + k * t);
        assert(drain_time(l) == drain_time(rl)) by (nonlinear_arith)
            requires
                drain_time(l) == l.last_leak + l.amount * t,
                drain_time(rl) == rl.last_leak + rl.amount * t,
                l.last_leak == rl.last_leak + k * t,
                l.amount == rl.amount - k,
        ;
    }
}

/// The bucket after acquisitions at each of `times` in turn, and how many
/// of them passed.
pub open spec fn acquired_run(rl: RateLimiter, times: Seq<u64>) -> (RateLimiter, nat)
    decreases times.len(),
{
    if times.len() == 0 {
        (rl, 0)
    } else {
        let (r, n) = acquired_run(rl, times.drop_last());
        let (r2, ok) = acquired(r, times.last());
        (r2, if ok {
            n + 1
        } else {
            n
        })
    }
}

/// The times never go back.
pub open spec fn nondecreasing(times: Seq<u64>) -> bool {
    forall|i: int, j: int| 0 <= i <= j < times.len() ==> times[i] <= times[j]
}

/// Through a run of acquisitions the bucket stays within its threshold,
/// and its drain time stays ahead of the tokens taken and within a full
/// bucket of the last time.
proof fn lemma_run_drain(rl: RateLimiter, times: Seq<u64>)
    requires
        rl.time_per_token_ns > 0,
        rl.amount <= rl.threshold,
        times.len() >= 1,
        nondecreasing(times),
        rl.last_leak <= times[0],
    ensures
        acquired_run(rl, times).0.threshold == rl.threshold,
        acquired_run(rl, times).0.time_per_token_ns == rl.time_per_token_ns,
        acquired_run(rl, times).0.amount <= rl.threshold,
        acquired_run(rl, times).0.last_leak <= times.last(),
        acquired_run(rl, times).1 * (rl.time_per_token_ns as int) + times[0]
            - rl.time_per_token_ns <= drain_time(acquired_run(rl, times).0),
        drain_time(acquired_run(rl, times).0) <= times.last() + rl.threshold
            * rl.time_per_token_ns,
    decreases times.len(),
{
    let t = rl.time_per_token_ns as int;
    let prev = times.drop_last();
    if times.len() == 1 {
        assert(prev.len() == 0);
        assert(acquired_run(rl, prev) == (rl, 0nat));
        lemma_acquire_step(rl, times[0]);
        let (r2, ok) = acquired(rl, times[0]);
        let n1: nat = if ok {
            1nat
        } else {
            0nat
        };
        assert(acquired_run(rl, times) == (r2, n1));
        assert(n1 * t == (if ok {
            t
        } else {
            0
        })) by (nonlinear_arith)
            requires
                ok ==> n1 == 1,
                !ok ==> n1 == 0,
        ;
        assert(n1 * t + times[0] - t <= drain_time(r2));
    } else {
        assert(nondecreasing(prev));
        lemma_run_drain(rl, prev);
        let (r, n) = acquired_run(rl, prev);
        assert(times[times.len() - 2] <= times.last());
        lemma_acquire_step(r, times.last());
        let (r2, ok) = acquired(r, times.last());
        let ni: int = n as int;
        let n2: int = if ok {
            ni + 1
        } else {
            ni
        };
        let step: int = if ok {
            t
        } else {
            0
        };
        assert(n2 * t == ni * t + step) by (nonlinear_arith)
            requires
                ok ==> n2 == ni + 1 && step == t,
                !ok ==> n2 == ni && step == 0,
        ;
        let n2n: nat = if ok {
            n + 1
        } else {
            n
        };
        assert(acquired_run(rl, times) == (r2, n2n));
        assert(n2n * t + times[0] - t <= drain_time(r2));
    }
}

/// Over any run of acquisitions at times that never go back, spread over
/// `D` nanoseconds, on a bucket within its threshold whose leak clock is
/// not after the first of them: at most `threshold + 1 + D / time per
/// token` pass.
pub proof fn lemma_passes_bounded(rl: RateLimiter, times: Seq<u64>)
    requires
        rl.time_per_token_ns > 0,
        rl.amount <= rl.threshold,
        times.len() >= 1,
        nondecreasing(times),
        rl.last_leak <= times[0],
    ensures
        acquired_run(rl, times).1 <= rl.threshold + 1 + (times.last() - times[0]) as nat
            / rl.time_per_token_ns as nat,
{
    lemma_run_drain(rl, times);
    let (r, n) = acquired_run(rl, times);
    let t = rl.time_per_token_ns as int;
    let d: int = times.last() - times[0];
    let thr = rl.threshold as int;
    assert((thr + 1) * t == thr * t + t) by (nonlinear_arith);
    assert(n <= thr + 1 + d / t) by (nonlinear_arith)
        requires
            n * t <= d + (thr + 1) * t,
            t > 0,
            d >= 0,
            n >= 0,
    ;
}

/// A bucket created empty at the first of a run of times that never go
/// back and all lie within one token time of the first: the `i`-th
/// acquisition passes exactly when `i < threshold`, so `min(k, threshold)`
/// of `k` pass.
pub proof fn lemma_burst_within_token_time(threshold: u64, window_ns: u64, times: Seq<u64>)
    requires
        time_per_token(threshold, window_ns) > 0,
        times.len() >= 1,
        nondecreasing(times),
        times.last() < times[0] + time_per_token(threshold, window_ns),
    ensures
        ({
            let fresh = RateLimiter {
                threshold,
                time_per_token_ns: time_per_token(threshold, window_ns),
                last_leak: times[0],
                amount: 0,
            };
            &&& forall|i: int|
                0 <= i < times.len() ==> #[trigger] acquired(
                    acquired_run(fresh, times.take(i)).0,
                    times[i],
                ).1 == (i < threshold)
            &&& acquired_run(fresh, times).1 == if times.len() < threshold {
                times.len()
            } else {
                threshold as nat
            }
        }),
{
    let fresh = RateLimiter {
        threshold,
        time_per_token_ns: time_per_token(threshold, window_ns),
        last_leak: times[0],
        amount: 0,
    };
    assert forall|i: int| 0 <= i < times.len() implies #[trigger] acquired(
        acquired_run(fresh, times.take(i)).0,
        times[i],
    ).1 == (i < threshold) by {
        lemma_burst_prefix(fresh, times, i as nat);
        lemma_burst_prefix(fresh, times, (i + 1) as nat);
        assert(times.take(i + 1).drop_last() =~= times.take(i));
    }
    lemma_burst_prefix(fresh, times, times.len());
    assert(times.take(times.len() as int) =~= times);
}

/// The bucket and count after the first `n` acquisitions of a burst within
/// one token time of a fresh bucket's creation.
proof fn lemma_burst_prefix(fresh: RateLimiter, times: Seq<u64>, n: nat)
    requires
        fresh.time_per_token_ns > 0,
        fresh.amount == 0,
        n <= times.len(),
        times.len() >= 1,
        fresh.last_leak == times[0],
        nondecreasing(times),
        times.last() < times[0] + fresh.time_per_token_ns,
    ensures
        ({
            let (r, k) = acquired_run(fresh, times.take(n as int));
            let m: nat = if n < fresh.threshold {
                n
            } else {
                fresh.threshold as nat
            };
            &&& r == RateLimiter { amount: m as u64, ..fresh }
            &&& k == m
        }),
    decreases n,
{
    if n > 0 {
        lemma_burst_prefix(fresh, times, (n - 1) as nat);
        let pre = times.take(n as int);
        assert(pre.drop_last() =~= times.take(n - 1));
        assert(pre.last() == times[n - 1]);
        assert(times[0] <= times[n - 1] <= times.last());
        let (r, k) = acquired_run(fresh, times.take(n - 1));
        let elapsed: int = times[n - 1] - r.last_leak;
        let t = fresh.time_per_token_ns as int;
        assert(elapsed / t == 0) by (nonlinear_arith)
            requires
                0 <= elapsed < t,
        ;
        assert(leaked(r, times[n - 1]) == r);
    }
}

/// A packet of `player` touches only that player's bucket; with a positive
/// limit, a player without a bucket is given a fresh one at `now`, which
/// then takes the packet.
pub proof fn lemma_allow_outcome_scoped(
    max_packets_per_second: i32,
    threshold: u64,
    window_ns: u64,
    buckets: Map<u128, RateLimiter>,
    player: u128,
    now: u64,
    other: u128,
)
    requires
        other != player,
    ensures
        ({
            let (b2, ok) = allow_outcome(max_packets_per_second, threshold, window_ns, buckets, player, now);
            &&& b2.contains_key(other) == buckets.contains_key(other)
            &&& buckets.contains_key(other) ==> b2[other] == buckets[other]
            &&& (max_packets_per_second > 0 && !buckets.contains_key(player)) ==> (b2[player], ok)
                == acquired(
                RateLimiter {
                    threshold,
                    time_per_token_ns: time_per_token(threshold, window_ns),
                    last_leak: now,
                    amount: 0,
                },
                now,
            )
        }),
{
}

#[verifier::external_type_specification]
#[verifier::external_body]
pub struct ExInstant(Instant);

/// Wraps `Instant::now` of std: the current instant of a monotonic clock.
#[verifier::external_body]
fn instant_now() -> (r: Instant) {
    Instant::now()
}

/// Wraps `Instant::elapsed` of std: the time gone by since `origin`.
#[verifier::external_body]
fn instant_elapsed(origin: &Instant) -> (r: Duration) {
    origin.elapsed()
}

/// Wraps `Duration::as_nanos` of std: nothing is stated of the number, as
/// nothing is stated of the duration.
#[verifier::external_body]
fn duration_as_nanos(d: &Duration) -> (r: u128) {
    d.as_nanos()
}

/// A count of nanoseconds as a `u64`, saturating at `u64::MAX`.
fn saturate_nanos(n: u128) -> (r: u64)
    ensures
        r == (if n > u64::MAX as u128 {
            u64::MAX as u128
        } else {
            n
        }),
{
    if n > u64::MAX as u128 {
        u64::MAX
    } else {
        n as u64
    }
}

/// The per-player buckets of the UDP server.
pub struct PacketRateLimiter {
    rate_limiters: HashMap<u128, RateLimiter>,
    max_packets_per_second: i32,
    threshold: u64,
    time_window_ns: u64,
    origin: Instant,
}

/// What one packet of `player` at `now` does to the buckets, and whether it
/// passes: with no positive limit every packet passes and nothing changes;
/// otherwise the player's bucket, created empty at `now` if missing, takes a
/// token.
pub open spec fn allow_outcome(
    max_packets_per_second: i32,
    threshold: u64,
    window_ns: u64,
    buckets: Map<u128, RateLimiter>,
    player: u128,
    now: u64,
) -> (Map<u128, RateLimiter>, bool) {
    if max_packets_per_second <= 0 {
        (buckets, true)
    } else {
        let rl = if buckets.contains_key(player) {
            buckets[player]
        } else {
            RateLimiter {
                threshold,
                time_per_token_ns: time_per_token(threshold, window_ns),
                last_leak: now,
                amount: 0,
            }
        };
        let (next, ok) = acquired(rl, now);
        (buckets.insert(player, next), ok)
    }
}

impl PacketRateLimiter {
    pub closed spec fn buckets(&self) -> Map<u128, RateLimiter> {
        self.rate_limiters@
    }

    pub closed spec fn max_packets_per_second(&self) -> i32 {
        self.max_packets_per_second
    }

    /// The packets let through per window.
    pub closed spec fn threshold(&self) -> u64 {
        self.threshold
    }

    pub closed spec fn window_ns(&self) -> u64 {
        self.time_window_ns
    }

    /// Every bucket was made by this limiter, and leaks.
    pub closed spec fn wf(&self) -> bool {
        forall|p: u128| #[trigger]
            self.rate_limiters@.contains_key(p) ==> self.rate_limiters@[p].threshold
                == self.threshold && self.rate_limiters@[p].time_per_token_ns == time_per_token(
                self.threshold,
                self.time_window_ns,
            )
    }

    /// The limits may be used: no positive limit, or buckets that leak
    /// (at most one token per nanosecond).
    pub open spec fn usable(&self) -> bool {
        self.max_packets_per_second() <= 0 || (1 <= self.threshold() <= self.window_ns())
            || (self.threshold() == 0 && self.window_ns() >= 1)
    }

    /// Whether the limits can be applied: no positive limit, or buckets that
    /// leak.
    pub fn limits_usable(&self) -> (r: bool)
        ensures
            r == self.usable(),
    {
        self.max_packets_per_second <= 0 || (1 <= self.threshold && self.threshold
            <= self.time_window_ns) || (self.threshold == 0 && self.time_window_ns >= 1)
    }

    /// A limiter of `max_packets_per_second`; `threshold` is the number of
    /// packets that many per second come to over one window (`0` when the
    /// limit is not positive).
    pub fn new(max_packets_per_second: i32, threshold: u64) -> (r: PacketRateLimiter)
        ensures
            r.buckets() == Map::<u128, RateLimiter>::empty(),
            r.max_packets_per_second() == max_packets_per_second,
            r.threshold() == (if max_packets_per_second > 0 {
                threshold
            } else {
                0
            }),
            r.window_ns() == TIME_WINDOW_NANOS,
            r.wf(),
    {
        let t = if max_packets_per_second > 0 {
            threshold
        } else {
            0
        };
        PacketRateLimiter {
            rate_limiters: HashMap::new(),
            max_packets_per_second,
            threshold: t,
            time_window_ns: TIME_WINDOW_NANOS,
            origin: instant_now(),
        }
    }

    /// Whether a packet of `player` arriving at `now_ns` passes.
    pub fn allow_at(&mut self, player: u128, now_ns: u64) -> (r: bool)
        requires
            old(self).wf(),
            old(self).usable(),
        ensures
            final(self).wf(),
            (final(self).buckets(), r) == allow_outcome(
                old(self).max_packets_per_second(),
                old(self).threshold(),
                old(self).window_ns(),
                old(self).buckets(),
                player,
                now_ns,
            ),
            final(self).max_packets_per_second() == old(self).max_packets_per_second(),
            final(self).threshold() == old(self).threshold(),
            final(self).window_ns() == old(self).window_ns(),
    {
        if self.max_packets_per_second <= 0 {
            return true;
        }
        let mut rl = match self.rate_limiters.get(&player) {
            Some(found) => *found,
            None => RateLimiter::new(self.threshold, self.time_window_ns, now_ns),
        };
        proof {
            let d: nat = if self.threshold >= 1 {
                self.threshold as nat
            } else {
                1
            };
            assert(self.time_window_ns as nat / d >= 1) by (nonlinear_arith)
                requires
                    d <= self.time_window_ns,
                    d >= 1,
            ;
        }
        let ok = rl.try_acquire(now_ns);
        self.rate_limiters.insert(player, rl);
        ok
    }

    /// The nanoseconds since this limiter was made, by a monotonic clock
    /// (saturating at `u64::MAX`). The reading rests on the clock, so any
    /// `u64` may come back; the saturation is `saturate_nanos`.
    fn now_nanos(&self) -> u64 {
        let d = instant_elapsed(&self.origin);
        let n = duration_as_nanos(&d);
        saturate_nanos(n)
    }

    /// Whether a packet of `player` arriving now passes; the clock is read
    /// once, and the outcome is that of `allow_at` at that reading.
    pub fn allow(&mut self, player: u128) -> (r: bool)
        requires
            old(self).wf(),
            old(self).usable(),
        ensures
            final(self).wf(),
            exists|now: u64|
                (final(self).buckets(), r) == #[trigger] allow_outcome(
                    old(self).max_packets_per_second(),
                    old(self).threshold(),
                    old(self).window_ns(),
                    old(self).buckets(),
                    player,
                    now,
                ),
            old(self).max_packets_per_second() <= 0 ==> r && final(self).buckets() == old(
                self,
            ).buckets(),
            final(self).max_packets_per_second() == old(self).max_packets_per_second(),
            final(self).threshold() == old(self).threshold(),
            final(self).window_ns() == old(self).window_ns(),
    {
        let now = self.now_nanos();
        self.allow_at(player, now)
    }

    /// Forgets the bucket of a player who left.
    pub fn on_player_logged_out(&mut self, player: u128)
        requires
            old(self).wf(),
        ensures
            final(self).wf(),
            final(self).buckets() == old(self).buckets().remove(player),
            final(self).max_packets_per_second() == old(self).max_packets_per_second(),
            final(self).threshold() == old(self).threshold(),
            final(self).window_ns() == old(self).window_ns(),
    {
        self.rate_limiters.remove(&player);
    }
}

} // verus!
