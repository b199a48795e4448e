use std::sync::atomic::AtomicU64;
use std::time::Instant;
use vstd::prelude::*;

use crate::clock::{clock_now, elapsed_since, fetch_update_word, whole_millis};
use crate::common::{
    ascending_ms, lemma_pair_word_halves, lemma_window_of_time, lower_half, pack_halves, pair_word,
    unpack_halves, upper_half, RateLimiter,
};

verus! {

/// The id of the fixed window that `now_ms` falls in, counted modulo `2^32`.
/// An empty window ends at once, so it keeps no id of its own.
pub open spec fn fixed_window_index(window_ms: u128, saved_id: u32, now_ms: u128) -> u32 {
    if window_ms == 0 {
        saved_id
    } else {
        (now_ms / window_ms) as u32
    }
}

/// Whether the request at `now_ms` belongs to a window other than `saved_id`,
/// which resets the count. With an empty window every request does.
pub open spec fn fixed_window_moved(window_ms: u128, saved_id: u32, now_ms: u128) -> bool {
    window_ms == 0 || fixed_window_index(window_ms, saved_id, now_ms) != saved_id
}

/// The most requests one window admits: `max_requests`, as far as the 32-bit
/// counter of the packed state reaches.
pub open spec fn fixed_window_room(max_requests: usize) -> int {
    if max_requests < u32::MAX {
        max_requests as int
    } else {
        u32::MAX as int
    }
}

/// What a fixed window limiter with windows of `window_ms` milliseconds and
/// `max_requests` per window, that counted `count` requests in window
/// `saved_id`, does with a request at `now_ms`: `Some((id, count))` when it
/// admits it, `None` when the window is used up.
pub open spec fn fixed_step(max_requests: usize, window_ms: u128, saved_id: u32, count: u32, now_ms: u128) -> Option<(u32, u32)> {
    let id = fixed_window_index(window_ms, saved_id, now_ms);
    let c: int = if fixed_window_moved(window_ms, saved_id, now_ms) { 0 } else { count as int };
    if c < fixed_window_room(max_requests) {
        Some((id, (c + 1) as u32))
    } else {
        None
    }
}

/// `fixed_step` on a packed state `[32 bits: window_id] | [32 bits: request_count]`.
pub open spec fn fixed_next(max_requests: usize, window_ms: u128, state: u64, now_ms: u128) -> Option<u64> {
    match fixed_step(max_requests, window_ms, upper_half(state), lower_half(state), now_ms) {
        Some((id, c)) => Some(pair_word(id, c)),
        None => None,
    }
}

/// Offers one request at each of `times`, in order, to a limiter in `state`:
/// the state it ends in and how many of the requests it admitted.
pub open spec fn fixed_run(max_requests: usize, window_ms: u128, state: u64, times: Seq<u128>) -> (u64, nat)
    decreases times.len(),
{
    if times.len() == 0 {
        (state, 0)
    } else {
        match fixed_next(max_requests, window_ms, state, times[0]) {
            Some(next) => {
                let (end, admitted) = fixed_run(max_requests, window_ms, next, times.drop_first());
                (end, admitted + 1)
            },
            None => fixed_run(max_requests, window_ms, state, times.drop_first()),
        }
    }
}

/// How many of the requests at `times`, offered in order to a limiter in
/// `state`, are admitted at a time in `[lo, hi)`.
pub open spec fn fixed_admitted_between(
    max_requests: usize,
    window_ms: u128,
    state: u64,
    times: Seq<u128>,
    lo: int,
    hi: int,
) -> nat
    decreases times.len(),
{
    if times.len() == 0 {
        0
    } else {
        let here: nat = if lo <= times[0] < hi { 1 } else { 0 };
        match fixed_next(max_requests, window_ms, state, times[0]) {
            Some(next) => here + fixed_admitted_between(max_requests, window_ms, next, times.drop_first(), lo, hi),
            None => fixed_admitted_between(max_requests, window_ms, state, times.drop_first(), lo, hi),
        }
    }
}

/// A fixed window limiter: time is cut into windows of equal length, and each
/// window admits at most `max_requests` requests.
pub struct FixedWindow {
    window_ms: u128,
    max_requests: usize,
    start_time: Instant,
    // [32 bits: window_id] | [32 bits: request_count]
    state: AtomicU64,
}

impl FixedWindow {
    /// The length of a window, in milliseconds.
    pub closed spec fn window_ms(&self) -> u128 {
        self.window_ms
    }

    /// The most requests one window admits.
    pub closed spec fn max_requests(&self) -> usize {
        self.max_requests
    }

    /// Creates a limiter with windows of `window_ms` milliseconds; the first
    /// window starts now with no requests counted.
    pub fn new(window_ms: u128, max_requests: usize) -> (limiter: Self)
        ensures
            limiter.window_ms() == window_ms,
            limiter.max_requests() == max_requests,
    {
        FixedWindow {
            window_ms,
            max_requests,
            start_time: clock_now(),
            state: AtomicU64::new(Self::pack(0, 0)),
        }
    }

    /// Packs a window id and a request count into one word.
    pub fn pack(window_id: u32, requests: u32) -> (state: u64)
        ensures
            state == pair_word(window_id, requests),
    {
        pack_halves(window_id, requests)
    }

    /// Splits a packed word into the window id and the request count.
    pub fn unpack(state: u64) -> (parts: (u32, u32))
        ensures
            parts == (upper_half(state), lower_half(state)),
    {
        unpack_halves(state)
    }

    /// The state after a request at `now_ms` arrives in `state`, or `None`
    /// when the limiter refuses it.
    pub fn next_state(&self, state: u64, now_ms: u128) -> (next: Option<u64>)
        ensures
            next == fixed_next(self.max_requests(), self.window_ms(), state, now_ms),
    {
        let (mut window_id, mut requests) = Self::unpack(state);
        if self.window_ms == 0 {
            // An empty window has always expired
            requests = 0;
        } else {
            let current_window_id = (now_ms / self.window_ms) as u32;
            if current_window_id != window_id {
                window_id = current_window_id;
                requests = 0;
            }
        }
        if (requests as usize) < self.max_requests && requests < u32::MAX {
            Some(Self::pack(window_id, requests + 1))
        } else {
            None
        }
    }

    /// Offers one request at `now_ms` (milliseconds since the limiter was
    /// made): `Ok(prev)` when it was admitted in the state `prev`, `Err(prev)`
    /// when it was refused in it. The update stores `fixed_next(.., prev, now_ms)`
    /// on admission and nothing on refusal, but the word inside the atomic is
    /// opaque to the verifier, so no clause states what is stored: only the
    /// outcome is stated.
    pub fn admit_at(&self, now_ms: u128) -> (r: Result<u64, u64>)
        ensures
            r matches Ok(prev) ==> fixed_next(self.max_requests(), self.window_ms(), prev, now_ms) is Some,
            r matches Err(prev) ==> fixed_next(self.max_requests(), self.window_ms(), prev, now_ms) is None,
    {
        let step = |s: u64| -> (n: Option<u64>)
            ensures
                n == fixed_next(self.max_requests(), self.window_ms(), s, now_ms),
            { self.next_state(s, now_ms) };
        fetch_update_word(&self.state, step)
    }
}

impl RateLimiter for FixedWindow {
    /// Admits the request while its window has counted fewer than
    /// `max_requests` requests. An empty window ends at once, so with a
    /// positive limit every request is admitted.
    fn allow(&self) -> (allowed: bool)
        ensures
            allowed ==> exists|prev: u64, now_ms: u128|
                fixed_next(self.max_requests(), self.window_ms(), prev, now_ms) is Some,
            self.max_requests() == 0 ==> !allowed,
            self.window_ms() == 0 && self.max_requests() > 0 ==> allowed,
    {
        let elapsed = elapsed_since(&self.start_time);
        let now_ms = whole_millis(&elapsed);
        self.admit_at(now_ms).is_ok()
    }
}

/// A request the limiter admits is counted in the window it arrived in, and
/// no window ever counts more than `max_requests`.
pub proof fn lemma_fixed_admitted_within_limit(max_requests: usize, window_ms: u128, state: u64, now_ms: u128)
    ensures
        fixed_next(max_requests, window_ms, state, now_ms) matches Some(next) ==> {
            &&& upper_half(next) == fixed_window_index(window_ms, upper_half(state), now_ms)
            &&& 1 <= lower_half(next) <= max_requests
        },
{
    if let Some((id, c)) = fixed_step(max_requests, window_ms, upper_half(state), lower_half(state), now_ms) {
        lemma_pair_word_halves(id, c);
    }
}

/// Whatever requests arrive, whenever, a limiter whose count starts within
/// the limit keeps it there.
pub proof fn lemma_fixed_run_within_limit(max_requests: usize, window_ms: u128, state: u64, times: Seq<u128>)
    requires
        lower_half(state) <= fixed_window_room(max_requests),
    ensures
        lower_half(fixed_run(max_requests, window_ms, state, times).0) <= fixed_window_room(max_requests),
    decreases times.len(),
{
    if times.len() > 0 {
        lemma_fixed_admitted_within_limit(max_requests, window_ms, state, times[0]);
        match fixed_next(max_requests, window_ms, state, times[0]) {
            Some(next) => lemma_fixed_run_within_limit(max_requests, window_ms, next, times.drop_first()),
            None => lemma_fixed_run_within_limit(max_requests, window_ms, state, times.drop_first()),
        }
    }
}

/// With no request in `[lo, hi)` left to come, none is admitted there.
pub proof fn lemma_fixed_none_between(
    max_requests: usize,
    window_ms: u128,
    state: u64,
    times: Seq<u128>,
    lo: int,
    hi: int,
)
    requires
        forall|i: int| 0 <= i < times.len() ==> !(lo <= #[trigger] times[i] < hi),
    ensures
        fixed_admitted_between(max_requests, window_ms, state, times, lo, hi) == 0,
    decreases times.len(),
{
    if times.len() > 0 {
        let rest = times.drop_first();
        assert forall|i: int| 0 <= i < rest.len() implies !(lo <= #[trigger] rest[i] < hi) by {
            assert(rest[i] == times[i + 1]);
        }
        match fixed_next(max_requests, window_ms, state, times[0]) {
            Some(next) => lemma_fixed_none_between(max_requests, window_ms, next, rest, lo, hi),
            None => lemma_fixed_none_between(max_requests, window_ms, state, rest, lo, hi),
        }
    }
}

/// Admissions in `[lo, hi)` are at most those in `[lo1, mid)` plus those in
/// `[mid, hi2)` when the first span lies within the other two.
pub proof fn lemma_fixed_between_split(
    max_requests: usize,
    window_ms: u128,
    state: u64,
    times: Seq<u128>,
    lo: int,
    hi: int,
    lo1: int,
    mid: int,
    hi2: int,
)
    requires
        lo1 <= lo,
        hi <= hi2,
    ensures
        fixed_admitted_between(max_requests, window_ms, state, times, lo, hi)
            <= fixed_admitted_between(max_requests, window_ms, state, times, lo1, mid)
            + fixed_admitted_between(max_requests, window_ms, state, times, mid, hi2),
    decreases times.len(),
{
    if times.len() > 0 {
        match fixed_next(max_requests, window_ms, state, times[0]) {
            Some(next) => lemma_fixed_between_split(max_requests, window_ms, next, times.drop_first(), lo, hi, lo1, mid, hi2),
            None => lemma_fixed_between_split(max_requests, window_ms, state, times.drop_first(), lo, hi, lo1, mid, hi2),
        }
    }
}

/// Over any run of requests whose times never go backwards, at most
/// `max_requests` are admitted in any one window `k`, that is in
/// `[k * window_ms, (k + 1) * window_ms)`: at most that many between two
/// resets; when the run starts within that window, fewer by the count already
/// made there. (This holds across the wrap of the 32-bit window id too: a
/// count carried over from `2^32` windows before is itself within the limit.)
pub proof fn lemma_fixed_window_admits_at_most_max(
    max_requests: usize,
    window_ms: u128,
    state: u64,
    times: Seq<u128>,
    k: int,
)
    requires
        ascending_ms(times),
        lower_half(state) <= fixed_window_room(max_requests),
    ensures
        fixed_admitted_between(max_requests, window_ms, state, times, k * window_ms, k * window_ms + window_ms)
            <= fixed_window_room(max_requests),
        window_ms > 0 && times.len() > 0 && times[0] >= k * window_ms ==>
            fixed_admitted_between(max_requests, window_ms, state, times, k * window_ms, k * window_ms + window_ms)
                <= if upper_half(state) == k as u32 {
                    fixed_window_room(max_requests) - lower_half(state)
                } else {
                    fixed_window_room(max_requests)
                },
    decreases times.len(),
{
    let lo = k * window_ms;
    let hi = k * window_ms + window_ms;
    if window_ms == 0 {
        assert(lo == 0 && hi == 0);
        lemma_fixed_none_between(max_requests, window_ms, state, times, lo, hi);
    } else if times.len() > 0 {
        let now = times[0];
        let j = now / window_ms;
        let rest = times.drop_first();
        lemma_window_of_time(now as int, window_ms as int, k);
        assert(fixed_window_index(window_ms, upper_half(state), now) == j as u32);
        assert(ascending_ms(rest)) by {
            assert forall|a: int, b: int| 0 <= a <= b < rest.len() implies rest[a] <= rest[b] by {
                assert(rest[a] == times[a + 1] && rest[b] == times[b + 1]);
            }
        }
        assert forall|i: int| 0 <= i < rest.len() implies now <= #[trigger] rest[i] by {
            assert(rest[i] == times[i + 1]);
        }
        lemma_fixed_admitted_within_limit(max_requests, window_ms, state, now);
        if j > k {
            assert forall|i: int| 0 <= i < rest.len() implies !(lo <= #[trigger] rest[i] < hi) by {
                assert(now <= rest[i]);
            }
        }
        match fixed_next(max_requests, window_ms, state, now) {
            Some(next) => {
                let c: int = if (j as u32) == upper_half(state) { lower_half(state) as int } else { 0 };
                lemma_pair_word_halves(j as u32, (c + 1) as u32);
                assert(lower_half(next) == c + 1);
                assert(upper_half(next) == j as u32);
                if j > k {
                    lemma_fixed_none_between(max_requests, window_ms, next, rest, lo, hi);
                } else {
                    lemma_fixed_window_admits_at_most_max(max_requests, window_ms, next, rest, k);
                }
            },
            None => {
                if j > k {
                    lemma_fixed_none_between(max_requests, window_ms, state, rest, lo, hi);
                } else {
                    lemma_fixed_window_admits_at_most_max(max_requests, window_ms, state, rest, k);
                }
            },
        }
    }
}

/// The documented weakness of fixed windows, bounded: over any run of
/// requests whose times never go backwards, any span of one window's length,
/// `[a, a + window_ms)`, sees at most `2 * max_requests` admissions, since it
/// meets at most two windows.
pub proof fn lemma_fixed_any_span_admits_at_most_twice_max(
    max_requests: usize,
    window_ms: u128,
    state: u64,
    times: Seq<u128>,
    a: u128,
)
    requires
        ascending_ms(times),
        lower_half(state) <= fixed_window_room(max_requests),
    ensures
        fixed_admitted_between(max_requests, window_ms, state, times, a as int, a + window_ms)
            <= 2 * fixed_window_room(max_requests),
{
    if window_ms == 0 {
        lemma_fixed_none_between(max_requests, window_ms, state, times, a as int, a + window_ms);
    } else {
        let w = window_ms as int;
        let k = a / window_ms;
        lemma_window_of_time(a as int, w, k as int);
        assert((k + 1) * w == k * w + w) by (nonlinear_arith);
        assert((k + 1) * w + w == k * w + w + w) by (nonlinear_arith);
        lemma_fixed_between_split(max_requests, window_ms, state, times, a as int, a + w, k * w, k * w + w, k * w + w + w);
        lemma_fixed_window_admits_at_most_max(max_requests, window_ms, state, times, k as int);
        lemma_fixed_window_admits_at_most_max(max_requests, window_ms, state, times, k + 1);
    }
}

/// A window whose count has reached the limit refuses every further request
/// in it, and admits one exactly when it arrives in another window: the count
/// resets when the window expires.
pub proof fn lemma_fixed_full_window_reopens(max_requests: usize, window_ms: u128, state: u64, now_ms: u128)
    requires
        window_ms > 0,
        max_requests > 0,
        lower_half(state) >= fixed_window_room(max_requests),
    ensures
        fixed_next(max_requests, window_ms, state, now_ms) is Some
            <==> (now_ms / window_ms) as u32 != upper_half(state),
{
}

/// Within one window the limiter admits exactly as many requests as the
/// window still has room for: `min(n, max_requests - count)`.
pub proof fn lemma_fixed_one_window_admits_room(max_requests: usize, window_ms: u128, state: u64, times: Seq<u128>)
    requires
        window_ms > 0,
        lower_half(state) <= fixed_window_room(max_requests),
        forall|i: int| 0 <= i < times.len() ==> (#[trigger] times[i] / window_ms) as u32 == upper_half(state),
    ensures
        fixed_run(max_requests, window_ms, state, times).1 == if times.len() <= fixed_window_room(max_requests) - lower_half(state) {
            times.len() as int
        } else {
            fixed_window_room(max_requests) - lower_half(state)
        },
    decreases times.len(),
{
    if times.len() > 0 {
        let now = times[0];
        let count = lower_half(state);
        let rest = times.drop_first();
        assert((now / window_ms) as u32 == upper_half(state));
        assert forall|i: int| 0 <= i < rest.len() implies (#[trigger] rest[i] / window_ms) as u32 == upper_half(state) by {
            assert(rest[i] == times[i + 1]);
        }
        if count < fixed_window_room(max_requests) {
            let next = pair_word(upper_half(state), (count + 1) as u32);
            lemma_pair_word_halves(upper_half(state), (count + 1) as u32);
            lemma_fixed_one_window_admits_room(max_requests, window_ms, next, rest);
        } else {
            lemma_fixed_one_window_admits_room(max_requests, window_ms, state, rest);
        }
    }
}

/// A request in a window other than the last counted one finds the count
/// reset: it is admitted whenever the limit is positive, and starts its
/// window's count at one.
pub proof fn lemma_fixed_new_window_resets(max_requests: usize, window_ms: u128, state: u64, now_ms: u128)
    requires
        max_requests > 0,
        fixed_window_moved(window_ms, upper_half(state), now_ms),
    ensures
        fixed_next(max_requests, window_ms, state, now_ms)
            == Some(pair_word(fixed_window_index(window_ms, upper_half(state), now_ms), 1)),
{
}

/// A new limiter admits exactly `min(n, max_requests)` of the requests that
/// arrive during its first window.
pub proof fn lemma_fixed_first_window(max_requests: usize, window_ms: u128, times: Seq<u128>)
    requires
        window_ms > 0,
        forall|i: int| 0 <= i < times.len() ==> #[trigger] times[i] < window_ms,
    ensures
        fixed_run(max_requests, window_ms, pair_word(0, 0), times).1 == if times.len() <= fixed_window_room(max_requests) {
            times.len() as int
        } else {
            fixed_window_room(max_requests)
        },
{
    lemma_pair_word_halves(0, 0);
    assert forall|i: int| 0 <= i < times.len() implies (#[trigger] times[i] / window_ms) as u32 == upper_half(pair_word(0, 0)) by {
        assert(times[i] / window_ms == 0) by (nonlinear_arith)
            requires
                0 <= times[i] < window_ms,
        ;
    }
    lemma_fixed_one_window_admits_room(max_requests, window_ms, pair_word(0, 0), times);
}

} // verus!
