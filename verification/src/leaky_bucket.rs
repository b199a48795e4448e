use std::sync::atomic::AtomicU64;
use std::time::Instant;
use vstd::prelude::*;

use crate::clock::{clock_now, elapsed_since, fetch_update_word, whole_millis};
use crate::common::{lemma_pair_word_halves, wrapped_add, wrapped_elapsed, lower_half, pack_halves, pair_word, unpack_halves, upper_half, RateLimiter};

verus! {

/// Milliseconds in a second: a bucket leaking `leak_rate` requests per second
/// leaks `leak_rate` thousandths of a request every millisecond.
pub open spec fn millis_per_second() -> int {
    1000
}

/// The whole requests that leak in `elapsed_ms` milliseconds at `leak_rate`
/// requests per second.
pub open spec fn leaked_requests(leak_rate: u32, elapsed_ms: int) -> int {
    (elapsed_ms * leak_rate) / millis_per_second()
}

/// The least whole number of milliseconds in which `whole` requests leak at
/// `leak_rate` requests per second.
pub open spec fn leak_time(leak_rate: u32, whole: int) -> int {
    (whole * millis_per_second() + leak_rate - 1) / (leak_rate as int)
}

/// A bucket that held `size` whole requests, with its leak counted up to
/// `last_ms`, drained until `now_ms`: the time up to which its leak is now
/// counted and the requests left. The leak goes in whole requests; the clock
/// stamp moves on only by the time those whole requests took to leak, so the
/// part of a request that is leaking meanwhile is kept for later. An emptied
/// bucket keeps nothing, and is stamped `now_ms`.
pub open spec fn leak_drain(leak_rate: u32, last_ms: u32, size: u32, now_ms: u32) -> (u32, int) {
    let whole = leaked_requests(leak_rate, wrapped_elapsed(now_ms, last_ms));
    if whole >= size {
        (now_ms, 0)
    } else if whole == 0 {
        (last_ms, size as int)
    } else {
        (wrapped_add(last_ms, leak_time(leak_rate, whole)), size - whole)
    }
}

/// What a leaky bucket of `capacity` requests, leaking `leak_rate` requests
/// per second, holding `size` requests with its leak counted up to `last_ms`,
/// does with a request at `now_ms`: `Some((stamp, new_size))` when, after
/// draining, one more request fits, `None` when it does not.
pub open spec fn leak_step(capacity: u32, leak_rate: u32, last_ms: u32, size: u32, now_ms: u32) -> Option<(u32, u32)> {
    let (stamp, drained) = leak_drain(leak_rate, last_ms, size, now_ms);
    if drained < capacity {
        Some((stamp, (drained + 1) as u32))
    } else {
        None
    }
}

/// `leak_step` on a packed state
/// `[32 bits: leak counted up to, in ms] | [32 bits: bucket_size]`.
pub open spec fn leak_next(capacity: u32, leak_rate: u32, state: u64, now_ms: u32) -> Option<u64> {
    match leak_step(capacity, leak_rate, upper_half(state), lower_half(state), now_ms) {
        Some((t, s)) => Some(pair_word(t, s)),
        None => None,
    }
}

/// Offers one request at each of `times`, in order, to a bucket in `state`:
/// the state it ends in and how many of the requests it admitted.
pub open spec fn leak_run(capacity: u32, leak_rate: u32, state: u64, times: Seq<u32>) -> (u64, nat)
    decreases times.len(),
{
    if times.len() == 0 {
        (state, 0)
    } else {
        match leak_next(capacity, leak_rate, state, times[0]) {
            Some(next) => {
                let (end, admitted) = leak_run(capacity, leak_rate, next, times.drop_first());
                (end, admitted + 1)
            },
            None => leak_run(capacity, leak_rate, state, times.drop_first()),
        }
    }
}

/// The leaked whole requests are never negative and never more than the
/// elapsed time accounts for; when some leaked, the rate is positive and the
/// time they took is at most the elapsed time, the least whole number of
/// milliseconds in which they leak.
pub proof fn lemma_leak_time_bounds(leak_rate: u32, elapsed_ms: int)
    requires
        elapsed_ms >= 0,
    ensures
        leaked_requests(leak_rate, elapsed_ms) >= 0,
        leaked_requests(leak_rate, elapsed_ms) * millis_per_second() <= elapsed_ms * leak_rate,
        leaked_requests(leak_rate, elapsed_ms) > 0 ==> {
            let whole = leaked_requests(leak_rate, elapsed_ms);
            let d = leak_time(leak_rate, whole);
            &&& leak_rate > 0
            &&& 0 < d <= elapsed_ms
            &&& d * leak_rate >= whole * millis_per_second()
            &&& (d - 1) * leak_rate < whole * millis_per_second()
        },
{
    let x = elapsed_ms * leak_rate;
    assert(x >= 0) by (nonlinear_arith)
        requires
            elapsed_ms >= 0,
            leak_rate >= 0,
            x == elapsed_ms * leak_rate,
    ;
    let whole = x / 1000;
    assert(whole >= 0 && whole * 1000 <= x && x < whole * 1000 + 1000) by (nonlinear_arith)
        requires
            x >= 0,
            whole == x / 1000,
    ;
    if whole > 0 {
        assert(leak_rate > 0) by (nonlinear_arith)
            requires
                x == elapsed_ms * leak_rate,
                x >= 1000,
                leak_rate >= 0,
        ;
        let r = leak_rate as int;
        let y = whole * 1000 + r - 1;
        let d = y / r;
        assert(d * r <= y && y < d * r + r) by (nonlinear_arith)
            requires
                r > 0,
                y >= 0,
                d == y / r,
        ;
        assert(d <= elapsed_ms) by (nonlinear_arith)
            requires
                d * r <= y,
                y == whole * 1000 + r - 1,
                whole * 1000 <= elapsed_ms * r,
                r > 0,
        ;
        assert(d * r >= whole * 1000 && (d - 1) * r < whole * 1000) by (nonlinear_arith)
            requires
                d * r <= y,
                y < d * r + r,
                y == whole * 1000 + r - 1,
        ;
        assert(d > 0) by (nonlinear_arith)
            requires
                y < d * r + r,
                y == whole * 1000 + r - 1,
                whole > 0,
                r > 0,
        ;
    }
}

/// A request the bucket admits leaves it holding between 1 and `capacity`
/// requests: a bucket never overflows, whatever its capacity.
pub proof fn lemma_leak_admitted_fits(capacity: u32, leak_rate: u32, state: u64, now_ms: u32)
    ensures
        leak_next(capacity, leak_rate, state, now_ms) matches Some(next) ==>
            1 <= lower_half(next) <= capacity,
{
    if let Some((t, s)) = leak_step(capacity, leak_rate, upper_half(state), lower_half(state), now_ms) {
        lemma_pair_word_halves(t, s);
    }
}

/// Whatever requests arrive, whenever, a bucket that does not overflow at the
/// start never does.
pub proof fn lemma_leak_run_within_capacity(capacity: u32, leak_rate: u32, state: u64, times: Seq<u32>)
    requires
        lower_half(state) <= capacity,
    ensures
        lower_half(leak_run(capacity, leak_rate, state, times).0) <= capacity,
    decreases times.len(),
{
    if times.len() > 0 {
        lemma_leak_admitted_fits(capacity, leak_rate, state, times[0]);
        match leak_next(capacity, leak_rate, state, times[0]) {
            Some(next) => lemma_leak_run_within_capacity(capacity, leak_rate, next, times.drop_first()),
            None => lemma_leak_run_within_capacity(capacity, leak_rate, state, times.drop_first()),
        }
    }
}

/// The clock stamp of a bucket that still holds requests after draining moves
/// on by exactly the least whole number of milliseconds in which the leaked
/// requests leak, never past `now_ms`: no leak is counted twice, and less
/// than a millisecond's worth is left uncounted.
pub proof fn lemma_leak_stamp_keeps_partial_leak(leak_rate: u32, last_ms: u32, size: u32, now_ms: u32)
    ensures ({
        let elapsed = wrapped_elapsed(now_ms, last_ms);
        let whole = leaked_requests(leak_rate, elapsed);
        let (stamp, drained) = leak_drain(leak_rate, last_ms, size, now_ms);
        0 < whole < size ==> {
            &&& drained == size - whole
            &&& wrapped_elapsed(stamp, last_ms) == leak_time(leak_rate, whole)
            &&& leak_time(leak_rate, whole) <= elapsed
            &&& leak_time(leak_rate, whole) * leak_rate >= whole * millis_per_second()
            &&& (leak_time(leak_rate, whole) - 1) * leak_rate < whole * millis_per_second()
        }
    }),
{
    let elapsed = wrapped_elapsed(now_ms, last_ms);
    lemma_leak_time_bounds(leak_rate, elapsed);
}

/// Once the time since the stamp has leaked the whole bucket, a bucket of
/// capacity at least one admits the request and then holds just it, stamped
/// `now_ms`.
pub proof fn lemma_leak_drained_admits(capacity: u32, leak_rate: u32, state: u64, now_ms: u32)
    requires
        capacity >= 1,
        wrapped_elapsed(now_ms, upper_half(state)) * leak_rate >= lower_half(state) * millis_per_second(),
    ensures
        leak_next(capacity, leak_rate, state, now_ms) == Some(pair_word(now_ms, 1)),
{
    let x = wrapped_elapsed(now_ms, upper_half(state)) * leak_rate;
    let size = lower_half(state) as int;
    assert(x / 1000 >= size) by (nonlinear_arith)
        requires
            x >= size * 1000,
            size >= 0,
    ;
}

/// A full bucket admits a request exactly when at least one whole request has
/// leaked since its stamp: `elapsed * leak_rate` reaches a thousand
/// thousandths, that is `1000 / leak_rate` milliseconds have passed.
pub proof fn lemma_leak_full_bucket_admits_after_one_leak(capacity: u32, leak_rate: u32, state: u64, now_ms: u32)
    requires
        capacity >= 1,
        lower_half(state) == capacity,
    ensures
        leak_next(capacity, leak_rate, state, now_ms) is Some
            <==> wrapped_elapsed(now_ms, upper_half(state)) * leak_rate >= millis_per_second(),
{
    let e = wrapped_elapsed(now_ms, upper_half(state));
    lemma_leak_time_bounds(leak_rate, e);
    let x = e * leak_rate;
    assert(x / 1000 >= 1 <==> x >= 1000) by (nonlinear_arith)
        requires
            x >= 0,
    ;
}

/// More time since the stamp never leaves the bucket fuller: a request
/// admitted after a shorter wait is admitted after a longer one too, and
/// leaves the bucket no fuller.
pub proof fn lemma_leak_longer_wait_drains_more(capacity: u32, leak_rate: u32, state: u64, t1: u32, t2: u32)
    requires
        wrapped_elapsed(t1, upper_half(state)) <= wrapped_elapsed(t2, upper_half(state)),
    ensures
        leak_drain(leak_rate, upper_half(state), lower_half(state), t2).1
            <= leak_drain(leak_rate, upper_half(state), lower_half(state), t1).1,
        leak_next(capacity, leak_rate, state, t1) is Some ==> {
            &&& leak_next(capacity, leak_rate, state, t2) is Some
            &&& lower_half(leak_next(capacity, leak_rate, state, t2)->0)
                <= lower_half(leak_next(capacity, leak_rate, state, t1)->0)
        },
{
    let last = upper_half(state);
    let e1 = wrapped_elapsed(t1, last);
    let e2 = wrapped_elapsed(t2, last);
    assert(e1 * leak_rate <= e2 * leak_rate) by (nonlinear_arith)
        requires
            e1 <= e2,
            leak_rate >= 0,
    ;
    let x1 = e1 * leak_rate;
    let x2 = e2 * leak_rate;
    assert(x1 / 1000 <= x2 / 1000) by (nonlinear_arith)
        requires
            x1 <= x2,
    ;
    if let Some((s1, l1)) = leak_step(capacity, leak_rate, last, lower_half(state), t1) {
        lemma_pair_word_halves(s1, l1);
        let (s2, l2) = leak_step(capacity, leak_rate, last, lower_half(state), t2)->0;
        lemma_pair_word_halves(s2, l2);
    }
}

/// A bucket that does not leak admits, out of any run of requests at any
/// times, exactly as many as it has room for: `min(n, capacity - size)`.
pub proof fn lemma_leak_no_drain_admits_room(capacity: u32, state: u64, times: Seq<u32>)
    requires
        lower_half(state) <= capacity,
    ensures
        leak_run(capacity, 0, state, times).1 == if times.len() <= capacity - lower_half(state) {
            times.len() as int
        } else {
            capacity - lower_half(state)
        },
    decreases times.len(),
{
    if times.len() > 0 {
        let size = lower_half(state);
        let last = upper_half(state);
        assert(wrapped_elapsed(times[0], last) * 0 == 0);
        if size < capacity {
            let stamp = if size == 0 { times[0] } else { last };
            let next = pair_word(stamp, (size + 1) as u32);
            lemma_pair_word_halves(stamp, (size + 1) as u32);
            lemma_leak_no_drain_admits_room(capacity, next, times.drop_first());
        } else {
            lemma_leak_no_drain_admits_room(capacity, state, times.drop_first());
        }
    }
}

/// A new bucket that does not leak admits the first `capacity` requests and
/// refuses every later one, however many arrive and whenever they arrive:
/// each prefix of `m` requests has `min(m, capacity)` admitted.
pub proof fn lemma_leak_no_drain_from_empty(capacity: u32, times: Seq<u32>)
    ensures
        forall|m: int| 0 <= m <= times.len() ==>
            #[trigger] leak_run(capacity, 0, LeakyBucket::initial_state(), times.take(m)).1
                == if m <= capacity { m } else { capacity as int },
{
    lemma_pair_word_halves(0, 0);
    assert forall|m: int| 0 <= m <= times.len() implies
        #[trigger] leak_run(capacity, 0, LeakyBucket::initial_state(), times.take(m)).1
            == if m <= capacity { m } else { capacity as int } by {
        lemma_leak_no_drain_admits_room(capacity, LeakyBucket::initial_state(), times.take(m));
    }
}

/// A leaky bucket: requests fill the bucket, which drains at a constant rate;
/// a request that finds the bucket full is refused.
#[derive(Debug)]
pub struct LeakyBucket {
    capacity: u32,
    leak_rate: u32,
    start_time: Instant,
    // [32 bits: leak counted up to, in ms] | [32 bits: bucket_size]
    state: AtomicU64,
}

impl LeakyBucket {
    /// The number of requests the bucket holds.
    pub closed spec fn capacity(&self) -> u32 {
        self.capacity
    }

    /// The requests that drain out of the bucket per second.
    pub closed spec fn leak_rate(&self) -> u32 {
        self.leak_rate
    }

    /// The state a new bucket starts in: empty, last changed at time 0.
    pub open spec fn initial_state() -> u64 {
        pair_word(0, 0)
    }

    /// Creates an empty bucket holding `capacity` requests and draining
    /// `leak_rate` requests per second.
    pub fn new(capacity: u32, leak_rate: u32) -> (bucket: Self)
        ensures
            bucket.capacity() == capacity,
            bucket.leak_rate() == leak_rate,
    {
        // Initial bucket size is 0
        let init_state = Self::pack(0, 0);
        LeakyBucket {
            capacity,
            leak_rate,
            start_time: clock_now(),
            state: AtomicU64::new(init_state),
        }
    }

    /// Packs the time the leak is counted up to and the bucket size into one
    /// word.
    pub fn pack(time: u32, size: u32) -> (state: u64)
        ensures
            state == pair_word(time, size),
    {
        pack_halves(time, size)
    }

    /// Splits a packed word into the time the leak is counted up to and the
    /// size.
    pub fn unpack(state: u64) -> (parts: (u32, u32))
        ensures
            parts == (upper_half(state), lower_half(state)),
    {
        unpack_halves(state)
    }

    /// The state after a request at `now_ms` arrives in `state`, or `None`
    /// when the bucket refuses it.
    pub fn next_state(&self, state: u64, now_ms: u32) -> (next: Option<u64>)
        ensures
            next == leak_next(self.capacity(), self.leak_rate(), state, now_ms),
    {
        let (last_time_ms, current_size) = Self::unpack(state);
        // Safely calculate elapsed time, even after u32 overflow
        let elapsed_ms = now_ms.wrapping_sub(last_time_ms);
        assert(elapsed_ms == wrapped_elapsed(now_ms, last_time_ms));
        proof {
            lemma_leak_time_bounds(self.leak_rate, elapsed_ms as int);
        }
        // `leak_rate` requests per second leak `leak_rate` thousandths of a
        // request per millisecond; calculate in u64 to prevent overflow
        assert(elapsed_ms as int * self.leak_rate as int <= u32::MAX * u32::MAX) by (nonlinear_arith)
            requires
                elapsed_ms <= u32::MAX,
                self.leak_rate <= u32::MAX,
        ;
        let leaked_milli = (elapsed_ms as u64) * (self.leak_rate as u64);
        let whole = leaked_milli / 1000;
        let (stamp, drained) = if whole >= current_size as u64 {
            // Everything has leaked: the bucket is empty as of now
            (now_ms, 0u32)
        } else if whole == 0 {
            // Nothing whole has leaked yet: keep counting from the same stamp
            (last_time_ms, current_size)
        } else {
            // Move the stamp on by the time the whole requests took to leak
            let rate = self.leak_rate as u64;
            let took = (whole * 1000 + rate - 1) / rate;
            (last_time_ms.wrapping_add(took as u32), current_size - whole as u32)
        };
        // Check if the bucket has room for 1 more request
        if drained < self.capacity {
            Some(Self::pack(stamp, drained + 1))
        } else {
            None
        }
    }

    /// Offers one request at `now_ms` (milliseconds since the bucket was
    /// made): `Ok(prev)` when it was admitted in the state `prev`, `Err(prev)`
    /// when it was refused in it. The update stores `leak_next(.., prev, now_ms)`
    /// on admission and nothing on refusal, but the word inside the atomic is
    /// opaque to the verifier, so no clause states what is stored: only the
    /// outcome is stated.
    pub fn admit_at(&self, now_ms: u32) -> (r: Result<u64, u64>)
        ensures
            r matches Ok(prev) ==> leak_next(self.capacity(), self.leak_rate(), prev, now_ms) is Some,
            r matches Err(prev) ==> leak_next(self.capacity(), self.leak_rate(), prev, now_ms) is None,
    {
        let step = |s: u64| -> (n: Option<u64>)
            ensures
                n == leak_next(self.capacity(), self.leak_rate(), s, now_ms),
            { self.next_state(s, now_ms) };
        fetch_update_word(&self.state, step)
    }
}

impl RateLimiter for LeakyBucket {
    /// Admits the request when the bucket, drained for the time since its last
    /// update, has room for one more.
    fn allow(&self) -> (allowed: bool)
        ensures
            allowed ==> exists|prev: u64, now_ms: u32|
                leak_next(self.capacity(), self.leak_rate(), prev, now_ms) is Some,
            self.capacity() == 0 ==> !allowed,
    {
        let elapsed = elapsed_since(&self.start_time);
        let now_ms = whole_millis(&elapsed) as u32;
        self.admit_at(now_ms).is_ok()
    }
}

} // verus!
