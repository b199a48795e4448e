use std::sync::atomic::AtomicU64;
use std::time::Instant;
use vstd::prelude::*;

use crate::clock::{clock_now, elapsed_since, fetch_update_word, whole_millis};
use crate::common::{
    ascending_ms32, lemma_pair_word_halves, lower_half, pack_halves, pair_word, unpack_halves, upper_half,
    wrapped_elapsed, RateLimiter,
};

verus! {

/// Milli-tokens in one token: a request costs one token.
pub open spec fn milli_per_token() -> int {
    1000
}

/// What a token bucket that refills `rate` tokens per second (that is, `rate`
/// milli-tokens per millisecond) up to `capacity` tokens, and that last changed
/// at `last_ms` holding `milli` milli-tokens, does with a request at `now_ms`:
/// `Some((now_ms, left))` when it admits it and `left` milli-tokens remain,
/// `None` when fewer than one whole token is available.
pub open spec fn token_step(rate: u32, capacity: u32, last_ms: u32, milli: u32, now_ms: u32) -> Option<(u32, u32)> {
    let refilled = milli + wrapped_elapsed(now_ms, last_ms) * rate;
    let cap_milli = capacity * milli_per_token();
    let total = if refilled > cap_milli { cap_milli } else { refilled };
    if total >= milli_per_token() {
        Some((now_ms, (total - milli_per_token()) as u32))
    } else {
        None
    }
}

/// `token_step` on a packed state
/// `[32 bits: last refill in ms] | [32 bits: available milli-tokens]`.
pub open spec fn token_next(rate: u32, capacity: u32, state: u64, now_ms: u32) -> Option<u64> {
    match token_step(rate, capacity, upper_half(state), lower_half(state), now_ms) {
        Some((t, m)) => Some(pair_word(t, m)),
        None => None,
    }
}

/// A capacity whose milli-tokens fit in the 32 bits of the packed state.
pub open spec fn token_capacity_fits(capacity: u32) -> bool {
    capacity * milli_per_token() <= u32::MAX
}

/// Offers one request at each of `times`, in order, to a bucket in `state`:
/// the state it ends in and how many of the requests it admitted.
pub open spec fn token_run(rate: u32, capacity: u32, state: u64, times: Seq<u32>) -> (u64, nat)
    decreases times.len(),
{
    if times.len() == 0 {
        (state, 0)
    } else {
        match token_next(rate, capacity, state, times[0]) {
            Some(next) => {
                let (end, admitted) = token_run(rate, capacity, next, times.drop_first());
                (end, admitted + 1)
            },
            None => token_run(rate, capacity, state, times.drop_first()),
        }
    }
}

/// A token bucket: tokens flow in at a constant rate up to a capacity, and
/// each admitted request takes one token.
#[derive(Debug)]
pub struct TokenBucket {
    rate: u32,
    capacity: u32,
    start_time: Instant,
    // [32 bits: last refill in ms] | [32 bits: available milli-tokens]
    state: AtomicU64,
}

impl TokenBucket {
    #[verifier::type_invariant]
    spec fn capacity_fits(&self) -> bool {
        token_capacity_fits(self.capacity)
    }

    /// Tokens added per second.
    pub closed spec fn rate(&self) -> u32 {
        self.rate
    }

    /// The largest number of tokens the bucket holds.
    pub closed spec fn capacity(&self) -> u32 {
        self.capacity
    }

    /// The state a new bucket starts in: full, last refilled at time 0.
    pub open spec fn initial_state(capacity: u32) -> u64 {
        pair_word(0, (capacity * milli_per_token()) as u32)
    }

    /// Creates a full bucket. The capacity in milli-tokens must fit in 32 bits.
    pub fn new(rate: u32, capacity: u32) -> (bucket: TokenBucket)
        requires
            token_capacity_fits(capacity),
        ensures
            bucket.rate() == rate,
            bucket.capacity() == capacity,
    {
        // Store the initial capacity in milli-tokens (multiply by 1000)
        let init_state = Self::pack(0, capacity * 1000);
        TokenBucket {
            rate,
            capacity,
            start_time: clock_now(),
            state: AtomicU64::new(init_state),
        }
    }

    /// Packs the time of the last refill and the milli-tokens into one word.
    pub fn pack(time: u32, tokens: u32) -> (state: u64)
        ensures
            state == pair_word(time, tokens),
    {
        pack_halves(time, tokens)
    }

    /// Splits a packed word into the time of the last refill and the
    /// milli-tokens.
    pub fn unpack(state: u64) -> (parts: (u32, u32))
        ensures
            parts == (upper_half(state), lower_half(state)),
    {
        unpack_halves(state)
    }

    /// The state after a request at `now_ms` arrives in `state`, or `None`
    /// when the bucket refuses it.
    pub fn next_state(&self, state: u64, now_ms: u32) -> (next: Option<u64>)
        ensures
            next == token_next(self.rate(), self.capacity(), state, now_ms),
    {
        proof {
            use_type_invariant(self);
        }
        let (last_time_ms, available_tokens) = Self::unpack(state);
        // Safe subtraction even after u32 overflow (after ~49 days)
        let elapsed_ms = now_ms.wrapping_sub(last_time_ms);
        assert(elapsed_ms == wrapped_elapsed(now_ms, last_time_ms));
        // Calculate in u64 to prevent overflow during multiplication
        assert(elapsed_ms as int * self.rate as int <= u32::MAX * u32::MAX) by (nonlinear_arith)
            requires
                elapsed_ms <= u32::MAX,
                self.rate <= u32::MAX,
        ;
        let added_milli = (elapsed_ms as u64) * (self.rate as u64);
        let mut total_milli = (available_tokens as u64) + added_milli;
        let cap_milli = (self.capacity as u64) * 1000;
        if total_milli > cap_milli {
            total_milli = cap_milli;
        }
        let mut current_milli = total_milli as u32;
        // 1 token = 1000 milli-tokens
        if current_milli >= 1000 {
            current_milli -= 1000;
            Some(Self::pack(now_ms, current_milli))
        } else {
            None
        }
    }

    /// Offers one request at `now_ms` (milliseconds since the bucket was
    /// made): `Ok(prev)` when it was admitted in the state `prev`, `Err(prev)`
    /// when it was refused in it. The update stores `token_next(.., prev, now_ms)`
    /// on admission and nothing on refusal, but the word inside the atomic is
    /// opaque to the verifier, so no clause states what is stored: only the
    /// outcome is stated.
    pub fn admit_at(&self, now_ms: u32) -> (r: Result<u64, u64>)
        ensures
            r matches Ok(prev) ==> token_next(self.rate(), self.capacity(), prev, now_ms) is Some,
            r matches Err(prev) ==> token_next(self.rate(), self.capacity(), prev, now_ms) is None,
    {
        let step = |s: u64| -> (n: Option<u64>)
            ensures
                n == token_next(self.rate(), self.capacity(), s, now_ms),
            { self.next_state(s, now_ms) };
        fetch_update_word(&self.state, step)
    }
}

impl RateLimiter for TokenBucket {
    /// Admits the request when, after the refill for the time since the last
    /// update, at least one whole token is in the bucket.
    fn allow(&self) -> (allowed: bool)
        ensures
            allowed ==> exists|prev: u64, now_ms: u32|
                token_next(self.rate(), self.capacity(), prev, now_ms) is Some,
            self.capacity() == 0 ==> !allowed,
    {
        let elapsed = elapsed_since(&self.start_time);
        let now_ms = whole_millis(&elapsed) as u32;
        self.admit_at(now_ms).is_ok()
    }
}

/// A request the bucket admits leaves it at most `capacity - 1` tokens,
/// stamped with the time of the request: the bucket never holds more than its
/// capacity.
pub proof fn lemma_token_admitted_within_capacity(rate: u32, capacity: u32, state: u64, now_ms: u32)
    ensures
        token_next(rate, capacity, state, now_ms) matches Some(next) ==> {
            &&& lower_half(next) + milli_per_token() <= capacity * milli_per_token()
            &&& upper_half(next) == now_ms
        },
{
    if let Some((t, m)) = token_step(rate, capacity, upper_half(state), lower_half(state), now_ms) {
        lemma_pair_word_halves(t, m);
    }
}

/// Once `elapsed * rate` milli-tokens make up a whole token, a bucket of
/// capacity at least one admits the request, however empty it was.
pub proof fn lemma_token_refill_admits(rate: u32, capacity: u32, state: u64, now_ms: u32)
    requires
        capacity >= 1,
        wrapped_elapsed(now_ms, upper_half(state)) * rate >= milli_per_token(),
    ensures
        token_next(rate, capacity, state, now_ms) is Some,
{
    assert(wrapped_elapsed(now_ms, upper_half(state)) * rate >= 0) by (nonlinear_arith)
        requires
            wrapped_elapsed(now_ms, upper_half(state)) >= 0,
            rate >= 0,
    ;
}

/// A bucket within its capacity (of at least one token) admits a request
/// exactly when the milli-tokens it held plus those that flowed in since its
/// last refill, `elapsed * rate`, make up a whole token.
pub proof fn lemma_token_refill_decides(rate: u32, capacity: u32, state: u64, now_ms: u32)
    requires
        capacity >= 1,
        lower_half(state) <= capacity * milli_per_token(),
    ensures
        token_next(rate, capacity, state, now_ms) is Some
            <==> lower_half(state) + wrapped_elapsed(now_ms, upper_half(state)) * rate >= milli_per_token(),
{
    assert(capacity * milli_per_token() >= milli_per_token()) by (nonlinear_arith)
        requires
            capacity >= 1,
            milli_per_token() == 1000,
    ;
    assert(wrapped_elapsed(now_ms, upper_half(state)) * rate >= 0) by (nonlinear_arith)
        requires
            wrapped_elapsed(now_ms, upper_half(state)) >= 0,
            rate >= 0,
    ;
}

/// Requests that arrive while no tokens flow in (at the instant of the last
/// refill, or with a rate of zero) are admitted while whole tokens last:
/// exactly `min(n, tokens)` of them.
pub proof fn lemma_token_no_refill_admits_tokens(rate: u32, capacity: u32, state: u64, times: Seq<u32>)
    requires
        lower_half(state) <= capacity * milli_per_token(),
        rate == 0 || forall|i: int| 0 <= i < times.len() ==> times[i] == upper_half(state),
    ensures
        token_run(rate, capacity, state, times).1 == if times.len() <= lower_half(state) as int / milli_per_token() {
            times.len() as int
        } else {
            lower_half(state) as int / milli_per_token()
        },
    decreases times.len(),
{
    if times.len() > 0 {
        let milli = lower_half(state);
        let now = times[0];
        assert(wrapped_elapsed(now, upper_half(state)) * rate == 0) by (nonlinear_arith)
            requires
                rate == 0 || wrapped_elapsed(now, upper_half(state)) == 0,
        ;
        let rest = times.drop_first();
        if milli >= milli_per_token() {
            let left = (milli - milli_per_token()) as u32;
            lemma_pair_word_halves(now, left);
            let next = pair_word(now, left);
            assert(left as int / milli_per_token() == milli as int / milli_per_token() - 1);
            if rate != 0 {
                assert forall|i: int| 0 <= i < rest.len() implies rest[i] == upper_half(next) by {
                    assert(rest[i] == times[i + 1]);
                }
            }
            lemma_token_no_refill_admits_tokens(rate, capacity, next, rest);
        } else {
            assert(milli as int / milli_per_token() == 0);
            if rate != 0 {
                assert forall|i: int| 0 <= i < rest.len() implies rest[i] == upper_half(state) by {
                    assert(rest[i] == times[i + 1]);
                }
            }
            lemma_token_no_refill_admits_tokens(rate, capacity, state, rest);
        }
    }
}

/// A new bucket admits exactly `capacity` of the requests that arrive at
/// the instant it was made, however many arrive.
pub proof fn lemma_token_full_bucket_admits_capacity(rate: u32, capacity: u32, n: nat)
    requires
        token_capacity_fits(capacity),
    ensures
        token_run(rate, capacity, TokenBucket::initial_state(capacity), Seq::new(n, |i: int| 0u32)).1
            == if n <= capacity { n as int } else { capacity as int },
{
    let start = TokenBucket::initial_state(capacity);
    lemma_pair_word_halves(0, (capacity * milli_per_token()) as u32);
    let times = Seq::new(n, |i: int| 0u32);
    assert((capacity * milli_per_token()) / milli_per_token() == capacity);
    lemma_token_no_refill_admits_tokens(rate, capacity, start, times);
}

/// Whatever requests arrive, whenever, a bucket that starts within its
/// capacity never holds more than its capacity.
pub proof fn lemma_token_run_within_capacity(rate: u32, capacity: u32, state: u64, times: Seq<u32>)
    requires
        lower_half(state) <= capacity * milli_per_token(),
    ensures
        lower_half(token_run(rate, capacity, state, times).0) <= capacity * milli_per_token(),
    decreases times.len(),
{
    if times.len() > 0 {
        lemma_token_admitted_within_capacity(rate, capacity, state, times[0]);
        match token_next(rate, capacity, state, times[0]) {
            Some(next) => lemma_token_run_within_capacity(rate, capacity, next, times.drop_first()),
            None => lemma_token_run_within_capacity(rate, capacity, state, times.drop_first()),
        }
    }
}

/// A bucket holding whole tokens for `n` requests admits all `n`, whenever
/// they arrive: refilling never takes tokens away.
pub proof fn lemma_token_stocked_admits_all(rate: u32, capacity: u32, state: u64, times: Seq<u32>)
    requires
        token_capacity_fits(capacity),
        lower_half(state) <= capacity * milli_per_token(),
        times.len() * milli_per_token() <= lower_half(state),
    ensures
        token_run(rate, capacity, state, times).1 == times.len(),
    decreases times.len(),
{
    if times.len() > 0 {
        let now = times[0];
        let milli = lower_half(state) as int;
        let added = wrapped_elapsed(now, upper_half(state)) * rate;
        assert(added >= 0) by (nonlinear_arith)
            requires
                wrapped_elapsed(now, upper_half(state)) >= 0,
                rate >= 0,
                added == wrapped_elapsed(now, upper_half(state)) * rate,
        ;
        let cap = capacity * milli_per_token();
        let total = if milli + added > cap { cap } else { milli + added };
        assert(total >= milli);
        let left = (total - milli_per_token()) as u32;
        lemma_pair_word_halves(now, left);
        lemma_token_stocked_admits_all(rate, capacity, pair_word(now, left), times.drop_first());
    }
}

/// A new bucket admits the first `capacity` requests, whenever they arrive:
/// every prefix of at most `capacity` requests is admitted whole.
pub proof fn lemma_token_new_bucket_admits_first_capacity(rate: u32, capacity: u32, times: Seq<u32>)
    requires
        token_capacity_fits(capacity),
    ensures
        forall|m: int| 0 <= m <= times.len() && m <= capacity ==>
            #[trigger] token_run(rate, capacity, TokenBucket::initial_state(capacity), times.take(m)).1 == m,
{
    lemma_pair_word_halves(0, (capacity * milli_per_token()) as u32);
    assert forall|m: int| 0 <= m <= times.len() && m <= capacity implies
        #[trigger] token_run(rate, capacity, TokenBucket::initial_state(capacity), times.take(m)).1 == m by {
        assert(m * milli_per_token() <= capacity * milli_per_token()) by (nonlinear_arith)
            requires
                m <= capacity,
                milli_per_token() == 1000,
        ;
        lemma_token_stocked_admits_all(rate, capacity, TokenBucket::initial_state(capacity), times.take(m));
    }
}

/// Over requests at times that never go backwards, from the last refill up to
/// `horizon` (no wrap of the millisecond clock), the admitted requests are
/// paid for by the tokens held at the start and those that flow in until
/// `horizon`: `1000 * admitted <= milli + rate * (horizon - last)`.
pub proof fn lemma_token_run_paid_by_refill(rate: u32, capacity: u32, state: u64, times: Seq<u32>, horizon: u32)
    requires
        token_capacity_fits(capacity),
        ascending_ms32(times),
        upper_half(state) <= horizon,
        forall|i: int| 0 <= i < times.len() ==> upper_half(state) <= #[trigger] times[i] <= horizon,
    ensures
        token_run(rate, capacity, state, times).1 * milli_per_token()
            <= lower_half(state) + rate * (horizon - upper_half(state)),
    decreases times.len(),
{
    let last = upper_half(state) as int;
    let milli = lower_half(state) as int;
    let t_end = horizon as int;
    if times.len() == 0 {
        assert(rate * (t_end - last) >= 0) by (nonlinear_arith)
            requires
                rate >= 0,
                t_end - last >= 0,
        ;
    } else {
        let now = times[0];
        let rest = times.drop_first();
        assert(now <= horizon);
        assert(upper_half(state) <= now);
        assert(wrapped_elapsed(now, upper_half(state)) == now - last);
        assert(ascending_ms32(rest)) by {
            assert forall|a: int, b: int| 0 <= a <= b < rest.len() implies rest[a] <= rest[b] by {
                assert(rest[a] == times[a + 1] && rest[b] == times[b + 1]);
            }
        }
        match token_next(rate, capacity, state, now) {
            Some(next) => {
                let added = (now - last) * rate;
                let cap = capacity * milli_per_token();
                let total = if milli + added > cap { cap } else { milli + added };
                let left = (total - milli_per_token()) as u32;
                lemma_pair_word_halves(now, left);
                assert forall|i: int| 0 <= i < rest.len() implies now <= #[trigger] rest[i] <= horizon by {
                    assert(rest[i] == times[i + 1]);
                }
                lemma_token_run_paid_by_refill(rate, capacity, next, rest, horizon);
                assert(rate * (t_end - now) + (now - last) * rate == rate * (t_end - last)) by (nonlinear_arith);
            },
            None => {
                assert forall|i: int| 0 <= i < rest.len() implies upper_half(state) <= #[trigger] rest[i] <= horizon by {
                    assert(rest[i] == times[i + 1]);
                }
                lemma_token_run_paid_by_refill(rate, capacity, state, rest, horizon);
            },
        }
    }
}

/// A new bucket admits at most `capacity + rate * horizon / 1000` of the
/// requests that arrive, in order, by `horizon` milliseconds: its initial
/// tokens plus those that flow in meanwhile.
pub proof fn lemma_token_new_bucket_admits_at_most(rate: u32, capacity: u32, times: Seq<u32>, horizon: u32)
    requires
        token_capacity_fits(capacity),
        ascending_ms32(times),
        forall|i: int| 0 <= i < times.len() ==> #[trigger] times[i] <= horizon,
    ensures
        token_run(rate, capacity, TokenBucket::initial_state(capacity), times).1
            <= capacity + (rate * horizon) / milli_per_token(),
{
    let start = TokenBucket::initial_state(capacity);
    lemma_pair_word_halves(0, (capacity * milli_per_token()) as u32);
    lemma_token_run_paid_by_refill(rate, capacity, start, times, horizon);
    let n = token_run(rate, capacity, start, times).1 as int;
    let x = rate * horizon;
    assert(n * 1000 <= capacity * 1000 + x ==> n <= capacity + x / 1000) by (nonlinear_arith)
        requires
            x >= 0,
    ;
}

} // verus!
