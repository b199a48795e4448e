use std::sync::atomic::AtomicU64;
use std::time::Instant;
use vstd::prelude::*;

use crate::clock::{clock_now, elapsed_since, fetch_update_word, whole_millis};
use crate::common::{ascending_ms, half_word, lemma_window_of_time, wrapped_elapsed, RateLimiter};

verus! {

/// `2^16`, the range of each of the two 16-bit counters in a packed state.
pub open spec fn counter_range() -> int {
    0x1_0000
}

/// The longest window a `Duration` can describe, in milliseconds.
pub open spec fn longest_window_ms() -> int {
    18_446_744_073_709_551_615_999
}

/// The word `[32 bits: window_id] | [16 bits: prev_count] | [16 bits: curr_count]`.
pub open spec fn window_word(window_id: u32, prev_count: u16, curr_count: u16) -> u64 {
    (window_id * half_word() + prev_count * counter_range() + curr_count) as u64
}

/// The window id held in a packed state.
pub open spec fn window_id_of(state: u64) -> u32 {
    (state as int / half_word()) as u32
}

/// The previous window's count held in a packed state.
pub open spec fn prev_count_of(state: u64) -> u16 {
    ((state as int / counter_range()) % counter_range()) as u16
}

/// The current window's count held in a packed state.
pub open spec fn curr_count_of(state: u64) -> u16 {
    (state as int % counter_range()) as u16
}

/// The id of the window of `window_ms` milliseconds that `now_ms` falls in,
/// counted modulo `2^32`.
pub open spec fn window_index(window_ms: u128, now_ms: u128) -> u32 {
    (now_ms / window_ms) as u32
}

/// What a sliding window counter with windows of `window_ms` milliseconds and
/// `max_requests` per window, that last counted `prev` requests in the window
/// before `saved_id` and `curr` in window `saved_id`, does with a request at
/// `now_ms`. Moving on by one window turns the current count into the previous
/// one; moving on by more forgets both. The estimate
/// `prev * (1 - progress) + curr`, with `progress` the elapsed fraction of the
/// current window, must stay below `max_requests`; it is compared here exactly,
/// scaled by `window_ms`. `Some((id, prev, curr))` is the state after admitting
/// the request, `None` a refusal.
pub open spec fn sliding_step(
    max_requests: u32,
    window_ms: u128,
    saved_id: u32,
    prev: u16,
    curr: u16,
    now_ms: u128,
) -> Option<(u32, u16, u16)> {
    let id = window_index(window_ms, now_ms);
    let p: int = if id == saved_id {
        prev as int
    } else if wrapped_elapsed(id, saved_id) == 1 {
        curr as int
    } else {
        0
    };
    let c: int = if id == saved_id { curr as int } else { 0 };
    let progress_ms = now_ms % window_ms;
    if p * (window_ms - progress_ms) + c * window_ms >= max_requests * window_ms {
        None
    } else {
        Some((id, p as u16, (c + 1) as u16))
    }
}

/// `sliding_step` on a packed state.
pub open spec fn sliding_next(max_requests: u32, window_ms: u128, state: u64, now_ms: u128) -> Option<u64> {
    match sliding_step(
        max_requests,
        window_ms,
        window_id_of(state),
        prev_count_of(state),
        curr_count_of(state),
        now_ms,
    ) {
        Some((id, p, c)) => Some(window_word(id, p, c)),
        None => None,
    }
}

/// Offers one request at each of `times`, in order, to a limiter in `state`:
/// the state it ends in and how many of the requests it admitted.
pub open spec fn sliding_run(max_requests: u32, window_ms: u128, state: u64, times: Seq<u128>) -> (u64, nat)
    decreases times.len(),
{
    if times.len() == 0 {
        (state, 0)
    } else {
        match sliding_next(max_requests, window_ms, state, times[0]) {
            Some(next) => {
                let (end, admitted) = sliding_run(max_requests, window_ms, next, times.drop_first());
                (end, admitted + 1)
            },
            None => sliding_run(max_requests, window_ms, state, times.drop_first()),
        }
    }
}

/// Unpacking a packed state gives back the window id and the two counts.
pub proof fn lemma_window_word_parts(window_id: u32, prev_count: u16, curr_count: u16)
    ensures
        window_id_of(window_word(window_id, prev_count, curr_count)) == window_id,
        prev_count_of(window_word(window_id, prev_count, curr_count)) == prev_count,
        curr_count_of(window_word(window_id, prev_count, curr_count)) == curr_count,
{
    let w = window_id * half_word() + prev_count * counter_range() + curr_count;
    assert(0 <= w <= u64::MAX
        && w / half_word() == window_id
        && (w / counter_range()) % counter_range() == prev_count
        && w % counter_range() == curr_count) by (nonlinear_arith)
        requires
            w == window_id * half_word() + prev_count * counter_range() + curr_count,
            0 <= window_id < half_word(),
            0 <= prev_count < counter_range(),
            0 <= curr_count < counter_range(),
            half_word() == 0x1_0000_0000,
            counter_range() == 0x1_0000,
    ;
}

/// Packing the parts of a state gives back the state.
pub proof fn lemma_window_parts_word(state: u64)
    ensures
        window_word(window_id_of(state), prev_count_of(state), curr_count_of(state)) == state,
{
    let w = state as int;
    assert(w == (w / half_word()) * half_word() + ((w / counter_range()) % counter_range()) * counter_range()
        + w % counter_range()
        && 0 <= w / half_word() < half_word()) by (nonlinear_arith)
        requires
            0 <= w <= u64::MAX,
            half_word() == 0x1_0000_0000,
            counter_range() == 0x1_0000,
    ;
}

/// A request the limiter admits is counted in the window it arrived in, and
/// that window's count never exceeds `max_requests`.
pub proof fn lemma_sliding_admitted_within_limit(max_requests: u32, window_ms: u128, state: u64, now_ms: u128)
    requires
        window_ms > 0,
        max_requests < counter_range(),
    ensures
        sliding_next(max_requests, window_ms, state, now_ms) matches Some(next) ==> {
            &&& window_id_of(next) == window_index(window_ms, now_ms)
            &&& 1 <= curr_count_of(next) <= max_requests
            &&& curr_count_of(next) == 1 + if window_index(window_ms, now_ms) == window_id_of(state) {
                curr_count_of(state) as int
            } else {
                0
            }
        },
{
    let id = window_index(window_ms, now_ms);
    let c: int = if id == window_id_of(state) { curr_count_of(state) as int } else { 0 };
    let p: int = if id == window_id_of(state) {
        prev_count_of(state) as int
    } else if wrapped_elapsed(id, window_id_of(state)) == 1 {
        curr_count_of(state) as int
    } else {
        0
    };
    let progress_ms = now_ms % window_ms;
    if p * (window_ms - progress_ms) + c * window_ms < max_requests * window_ms {
        assert(c < max_requests) by (nonlinear_arith)
            requires
                p * (window_ms - progress_ms) + c * window_ms < max_requests * window_ms,
                p >= 0,
                window_ms - progress_ms >= 0,
                window_ms > 0,
        ;
        lemma_window_word_parts(id, p as u16, (c + 1) as u16);
    }
}

/// While every request falls in the window the limiter last counted in, and
/// nothing is carried over from the window before, the limiter admits exactly
/// as many requests as the current window still has room for:
/// `min(n, max_requests - curr_count)`.
pub proof fn lemma_sliding_one_window_admits_room(max_requests: u32, window_ms: u128, state: u64, times: Seq<u128>)
    requires
        window_ms > 0,
        max_requests < counter_range(),
        prev_count_of(state) == 0,
        curr_count_of(state) <= max_requests,
        forall|i: int| 0 <= i < times.len() ==> window_index(window_ms, #[trigger] times[i]) == window_id_of(state),
    ensures
        sliding_run(max_requests, window_ms, state, times).1 == if times.len() <= max_requests - curr_count_of(state) {
            times.len() as int
        } else {
            max_requests - curr_count_of(state)
        },
    decreases times.len(),
{
    if times.len() > 0 {
        let now = times[0];
        let curr = curr_count_of(state) as int;
        let rest = times.drop_first();
        assert(window_index(window_ms, now) == window_id_of(state));
        assert(0 * (window_ms - now % window_ms) == 0);
        assert(curr * window_ms < max_requests * window_ms <==> curr < max_requests) by (nonlinear_arith)
            requires
                window_ms > 0,
        ;
        assert forall|i: int| 0 <= i < rest.len() implies window_index(window_ms, #[trigger] rest[i]) == window_id_of(state) by {
            assert(rest[i] == times[i + 1]);
        }
        if curr < max_requests {
            let next = window_word(window_id_of(state), 0, (curr + 1) as u16);
            lemma_window_word_parts(window_id_of(state), 0, (curr + 1) as u16);
            lemma_sliding_one_window_admits_room(max_requests, window_ms, next, rest);
        } else {
            lemma_sliding_one_window_admits_room(max_requests, window_ms, state, rest);
        }
    }
}

/// A new limiter admits exactly `min(n, max_requests)` of the requests that
/// arrive during its first window.
pub proof fn lemma_sliding_first_window(max_requests: u32, window_ms: u128, times: Seq<u128>)
    requires
        window_ms > 0,
        max_requests < counter_range(),
        forall|i: int| 0 <= i < times.len() ==> #[trigger] times[i] < window_ms,
    ensures
        sliding_run(max_requests, window_ms, 0, times).1 == if times.len() <= max_requests {
            times.len() as int
        } else {
            max_requests as int
        },
{
    lemma_window_word_parts(0, 0, 0);
    assert forall|i: int| 0 <= i < times.len() implies window_index(window_ms, #[trigger] times[i]) == window_id_of(0) by {
        assert(times[i] / window_ms == 0) by (nonlinear_arith)
            requires
                0 <= times[i] < window_ms,
        ;
    }
    lemma_sliding_one_window_admits_room(max_requests, window_ms, 0, times);
}

/// After a whole window without requests, the counts are forgotten: a request
/// two or more windows after the last counted one is admitted whenever the
/// limit is positive, and starts the count of its window at one.
pub proof fn lemma_sliding_idle_window_resets(max_requests: u32, window_ms: u128, state: u64, now_ms: u128)
    requires
        window_ms > 0,
        max_requests > 0,
        window_index(window_ms, now_ms) != window_id_of(state),
        wrapped_elapsed(window_index(window_ms, now_ms), window_id_of(state)) != 1,
    ensures
        sliding_next(max_requests, window_ms, state, now_ms) == Some(window_word(window_index(window_ms, now_ms), 0, 1)),
{
    assert(0 * (window_ms - now_ms % window_ms) + 0 * window_ms == 0);
    assert(max_requests * window_ms > 0) by (nonlinear_arith)
        requires
            max_requests > 0,
            window_ms > 0,
    ;
}

/// How many of the requests at `times`, offered in order to a limiter in
/// `state`, are admitted at a time in `[lo, hi)`.
pub open spec fn sliding_admitted_between(
    max_requests: u32,
    window_ms: u128,
    state: u64,
    times: Seq<u128>,
    lo: int,
    hi: int,
) -> nat
    decreases times.len(),
{
    if times.len() == 0 {
        0
    } else {
        let here: nat = if lo <= times[0] < hi { 1 } else { 0 };
        match sliding_next(max_requests, window_ms, state, times[0]) {
            Some(next) => here + sliding_admitted_between(max_requests, window_ms, next, times.drop_first(), lo, hi),
            None => sliding_admitted_between(max_requests, window_ms, state, times.drop_first(), lo, hi),
        }
    }
}

/// Both counts of a state within the limit.
pub open spec fn sliding_counts_within(max_requests: u32, state: u64) -> bool {
    prev_count_of(state) <= max_requests && curr_count_of(state) <= max_requests
}

/// Whatever requests arrive, whenever, a limiter whose counts start within the
/// limit keeps them there.
pub proof fn lemma_sliding_run_within_limit(max_requests: u32, window_ms: u128, state: u64, times: Seq<u128>)
    requires
        window_ms > 0,
        max_requests < counter_range(),
        sliding_counts_within(max_requests, state),
    ensures
        sliding_counts_within(max_requests, sliding_run(max_requests, window_ms, state, times).0),
    decreases times.len(),
{
    if times.len() > 0 {
        let now = times[0];
        lemma_sliding_admitted_within_limit(max_requests, window_ms, state, now);
        match sliding_next(max_requests, window_ms, state, now) {
            Some(next) => {
                let id = window_index(window_ms, now);
                let p: int = if id == window_id_of(state) {
                    prev_count_of(state) as int
                } else if wrapped_elapsed(id, window_id_of(state)) == 1 {
                    curr_count_of(state) as int
                } else {
                    0
                };
                let c: int = if id == window_id_of(state) { curr_count_of(state) as int } else { 0 };
                lemma_window_word_parts(id, p as u16, (c + 1) as u16);
                lemma_sliding_run_within_limit(max_requests, window_ms, next, times.drop_first());
            },
            None => lemma_sliding_run_within_limit(max_requests, window_ms, state, times.drop_first()),
        }
    }
}

/// With no request in `[lo, hi)` left to come, none is admitted there.
pub proof fn lemma_sliding_none_between(
    max_requests: u32,
    window_ms: u128,
    state: u64,
    times: Seq<u128>,
    lo: int,
    hi: int,
)
    requires
        forall|i: int| 0 <= i < times.len() ==> !(lo <= #[trigger] times[i] < hi),
    ensures
        sliding_admitted_between(max_requests, window_ms, state, times, lo, hi) == 0,
    decreases times.len(),
{
    if times.len() > 0 {
        let rest = times.drop_first();
        assert forall|i: int| 0 <= i < rest.len() implies !(lo <= #[trigger] rest[i] < hi) by {
            assert(rest[i] == times[i + 1]);
        }
        match sliding_next(max_requests, window_ms, state, times[0]) {
            Some(next) => lemma_sliding_none_between(max_requests, window_ms, next, rest, lo, hi),
            None => lemma_sliding_none_between(max_requests, window_ms, state, rest, lo, hi),
        }
    }
}

/// Over any run of requests whose times never go backwards, at most
/// `max_requests` are admitted in any one window `k`, that is in
/// `[k * window_ms, (k + 1) * window_ms)`; when the run starts within that
/// window, fewer by the count already made there. (This holds across the
/// wrap of the 32-bit window id too: a count carried over from `2^32` windows
/// before is itself within the limit.)
pub proof fn lemma_sliding_window_admits_at_most_max(
    max_requests: u32,
    window_ms: u128,
    state: u64,
    times: Seq<u128>,
    k: int,
)
    requires
        window_ms > 0,
        max_requests < counter_range(),
        ascending_ms(times),
        curr_count_of(state) <= max_requests,
    ensures
        sliding_admitted_between(max_requests, window_ms, state, times, k * window_ms, k * window_ms + window_ms)
            <= max_requests,
        times.len() > 0 && times[0] >= k * window_ms ==>
            sliding_admitted_between(max_requests, window_ms, state, times, k * window_ms, k * window_ms + window_ms)
                <= if window_id_of(state) == k as u32 {
                    max_requests - curr_count_of(state)
                } else {
                    max_requests as int
                },
    decreases times.len(),
{
    if times.len() > 0 {
        let now = times[0];
        let j = now / window_ms;
        let rest = times.drop_first();
        let lo = k * window_ms;
        let hi = k * window_ms + window_ms;
        lemma_window_of_time(now as int, window_ms as int, k);
        assert(window_index(window_ms, now) == j as u32);
        assert(ascending_ms(rest)) by {
            assert forall|a: int, b: int| 0 <= a <= b < rest.len() implies rest[a] <= rest[b] by {
                assert(rest[a] == times[a + 1] && rest[b] == times[b + 1]);
            }
        }
        assert forall|i: int| 0 <= i < rest.len() implies now <= #[trigger] rest[i] by {
            assert(rest[i] == times[i + 1]);
        }
        lemma_sliding_admitted_within_limit(max_requests, window_ms, state, now);
        if j > k {
            assert forall|i: int| 0 <= i < rest.len() implies !(lo <= #[trigger] rest[i] < hi) by {
                assert(now <= rest[i]);
            }
        }
        match sliding_next(max_requests, window_ms, state, now) {
            Some(next) => {
                if j > k {
                    lemma_sliding_none_between(max_requests, window_ms, next, rest, lo, hi);
                } else {
                    lemma_sliding_window_admits_at_most_max(max_requests, window_ms, next, rest, k);
                }
            },
            None => {
                if j > k {
                    lemma_sliding_none_between(max_requests, window_ms, state, rest, lo, hi);
                } else {
                    lemma_sliding_window_admits_at_most_max(max_requests, window_ms, state, rest, k);
                }
            },
        }
    }
}

/// The estimate never rises as time passes: a request the limiter would
/// admit at `t1` it would admit at any later `t2` too (within `2^32` windows
/// of a state no later than `t1`). Within a window the previous window's
/// weight falls; moving on a window leaves at most the current count, and
/// moving on two forgets everything.
#[verifier::spinoff_prover]
pub proof fn lemma_sliding_later_admits(max_requests: u32, window_ms: u128, state: u64, t1: u128, t2: u128)
    requires
        window_ms > 0,
        window_id_of(state) <= t1 / window_ms,
        t1 <= t2,
        t2 / window_ms < half_word(),
    ensures
        sliding_next(max_requests, window_ms, state, t1) is Some ==> sliding_next(max_requests, window_ms, state, t2) is Some,
{
    let w = window_ms as int;
    let saved = window_id_of(state) as int;
    let p = prev_count_of(state) as int;
    let c = curr_count_of(state) as int;
    let m = max_requests as int;
    let j1 = t1 / window_ms;
    let j2 = t2 / window_ms;
    let r1 = (t1 % window_ms) as int;
    let r2 = (t2 % window_ms) as int;
    assert(t1 == j1 * w + r1 && 0 <= r1 < w) by (nonlinear_arith)
        requires
            w > 0,
            j1 == t1 / window_ms,
            r1 == t1 % window_ms,
            w == window_ms,
    ;
    assert(t2 == j2 * w + r2 && 0 <= r2 < w) by (nonlinear_arith)
        requires
            w > 0,
            j2 == t2 / window_ms,
            r2 == t2 % window_ms,
            w == window_ms,
    ;
    assert(j1 <= j2) by (nonlinear_arith)
        requires
            t1 <= t2,
            w > 0,
            w == window_ms,
            j1 == t1 / window_ms,
            j2 == t2 / window_ms,
    ;
    assert(window_index(window_ms, t1) == j1);
    assert(window_index(window_ms, t2) == j2);
    assert(j1 == j2 ==> r1 <= r2) by (nonlinear_arith)
        requires
            t1 == j1 * w + r1,
            t2 == j2 * w + r2,
            t1 <= t2,
    ;
    let id1 = window_index(window_ms, t1);
    let id2 = window_index(window_ms, t2);
    let sid = window_id_of(state);
    let p1: int = if id1 == sid { p } else if wrapped_elapsed(id1, sid) == 1 { c } else { 0 };
    let c1: int = if id1 == sid { c } else { 0 };
    let p2: int = if id2 == sid { p } else if wrapped_elapsed(id2, sid) == 1 { c } else { 0 };
    let c2: int = if id2 == sid { c } else { 0 };
    let e1 = p1 * (w - r1) + c1 * w;
    let e2 = p2 * (w - r2) + c2 * w;
    assert(sliding_next(max_requests, window_ms, state, t1) is Some <==> e1 < m * w);
    assert(sliding_next(max_requests, window_ms, state, t2) is Some <==> e2 < m * w);
    if e1 < m * w {
        assert(e2 < m * w) by {
            assert(p * (w - r1) >= 0 && c * (w - r1) >= 0 && c * w >= 0) by (nonlinear_arith)
                requires
                    p >= 0,
                    c >= 0,
                    w - r1 >= 0,
                    w > 0,
            ;
            assert(r1 <= r2 ==> p * (w - r2) <= p * (w - r1) && c * (w - r2) <= c * (w - r1)) by (nonlinear_arith)
                requires
                    p >= 0,
                    c >= 0,
            ;
            assert(c * (w - r2) <= c * w) by (nonlinear_arith)
                requires
                    c >= 0,
                    r2 >= 0,
            ;
            assert(0 * (w - r2) + 0 * w == 0);
            if j1 == saved {
                assert(id1 == sid);
                assert(e1 == p * (w - r1) + c * w);
                if j2 == saved {
                    assert(id2 == sid);
                    assert(e2 == p * (w - r2) + c * w);
                } else if j2 == saved + 1 {
                    assert(id2 != sid);
                    assert(wrapped_elapsed(id2, sid) == 1);
                    assert(e2 == c * (w - r2) + 0 * w);
                } else {
                    assert(id2 != sid);
                    assert(wrapped_elapsed(id2, sid) != 1);
                    assert(e2 == 0);
                }
            } else if j1 == saved + 1 {
                assert(id1 != sid);
                assert(wrapped_elapsed(id1, sid) == 1);
                assert(e1 == c * (w - r1) + 0 * w);
                if j2 == j1 {
                    assert(e2 == c * (w - r2) + 0 * w);
                } else {
                    assert(id2 != sid);
                    assert(wrapped_elapsed(id2, sid) != 1);
                    assert(e2 == 0);
                }
            } else {
                assert(id1 != sid && wrapped_elapsed(id1, sid) != 1);
                assert(id2 != sid && wrapped_elapsed(id2, sid) != 1);
                assert(e1 == 0 && e2 == 0);
            }
        }
    }
}

/// A window filled to the limit, with nothing carried over from the window
/// before, refuses every further request in that window. In the next window
/// the full count weighs `1 - progress`, so a request there is admitted
/// exactly when some of that window has already passed.
pub proof fn lemma_sliding_full_window_reopens(max_requests: u32, window_ms: u128, state: u64, now_ms: u128)
    requires
        window_ms > 0,
        0 < max_requests < counter_range(),
        prev_count_of(state) == 0,
        curr_count_of(state) == max_requests,
    ensures
        window_index(window_ms, now_ms) == window_id_of(state) ==> sliding_next(max_requests, window_ms, state, now_ms) is None,
        window_index(window_ms, now_ms) == window_id_of(state) + 1 ==> (
            sliding_next(max_requests, window_ms, state, now_ms) is Some <==> now_ms % window_ms > 0),
{
    let w = window_ms as int;
    let m = max_requests as int;
    let r = (now_ms % window_ms) as int;
    assert(0 <= r < w) by (nonlinear_arith)
        requires
            w == window_ms,
            r == now_ms % window_ms,
            w > 0,
    ;
    let id = window_index(window_ms, now_ms);
    let sid = window_id_of(state);
    if id == sid {
        assert(0 * (w - r) + m * w == m * w);
    }
    if id == sid + 1 {
        assert(id != sid);
        assert(wrapped_elapsed(id, sid) == 1);
        assert(m * (w - r) + 0 * w == m * (w - r));
        assert(m * (w - r) < m * w <==> r > 0) by (nonlinear_arith)
            requires
                m > 0,
                0 <= r < w,
        ;
    }
}

/// A sliding window counter: the count of the current fixed window plus the
/// count of the previous one, weighted by how much of it still overlaps the
/// sliding window, must stay below the limit.
#[derive(Debug)]
pub struct SlidingWindow {
    window_ms: u128,
    max_requests: u32,
    start_time: Instant,
    // [32 bits: window_id] | [16 bits: prev_count] | [16 bits: curr_count]
    state: AtomicU64,
}

impl SlidingWindow {
    #[verifier::type_invariant]
    spec fn well_formed(&self) -> bool {
        &&& 0 < self.window_ms <= longest_window_ms()
        &&& self.max_requests < counter_range()
    }

    /// The length of a window, in milliseconds.
    pub closed spec fn window_ms(&self) -> u128 {
        self.window_ms
    }

    /// The most requests the sliding window admits.
    pub closed spec fn max_requests(&self) -> u32 {
        self.max_requests
    }

    /// Creates a limiter with windows of `window_ms` milliseconds. The counts
    /// are 16 bits wide, so `max_requests` must fit in 16 bits, and the window
    /// must not be empty.
    pub fn new(window_ms: u128, max_requests: usize) -> (limiter: Self)
        requires
            max_requests < counter_range(),
            0 < window_ms <= longest_window_ms(),
        ensures
            limiter.window_ms() == window_ms,
            limiter.max_requests() == max_requests,
    {
        SlidingWindow {
            window_ms,
            max_requests: max_requests as u32,
            start_time: clock_now(),
            state: AtomicU64::new(0),
        }
    }

    /// Packs a window id and the two counts into one word.
    pub fn pack(window_id: u32, prev_count: u16, curr_count: u16) -> (state: u64)
        ensures
            state == window_word(window_id, prev_count, curr_count),
    {
        let w = ((window_id as u64) << 32) | ((prev_count as u64) << 16) | (curr_count as u64);
        assert(((window_id as u64) << 32) | ((prev_count as u64) << 16) | (curr_count as u64)
            == (window_id as u64) * 0x1_0000_0000u64 + (prev_count as u64) * 0x1_0000u64
            + (curr_count as u64)) by (bit_vector);
        w
    }

    /// Splits a packed word into the window id and the two counts.
    pub fn unpack(state: u64) -> (parts: (u32, u16, u16))
        ensures
            parts == (window_id_of(state), prev_count_of(state), curr_count_of(state)),
    {
        let window_id = (state >> 32) as u32;
        let prev_count = ((state >> 16) & 0xFFFF) as u16;
        let curr_count = (state & 0xFFFF) as u16;
        assert((state >> 32) as u32 == state / 0x1_0000_0000u64) by (bit_vector);
        assert(((state >> 16) & 0xFFFF) as u16 == (state / 0x1_0000u64) % 0x1_0000u64) by (bit_vector);
        assert((state & 0xFFFF) as u16 == state % 0x1_0000u64) by (bit_vector);
        (window_id, prev_count, curr_count)
    }

    /// The state after a request at `now_ms` arrives in `state`, or `None`
    /// when the limiter refuses it.
    pub fn next_state(&self, state: u64, now_ms: u128) -> (next: Option<u64>)
        ensures
            next == sliding_next(self.max_requests(), self.window_ms(), state, now_ms),
    {
        proof {
            use_type_invariant(self);
        }
        let window_ms = self.window_ms;
        // Calculate which time window we are currently in
        let current_window_id = (now_ms / window_ms) as u32;
        // How far along are we in the current window
        let progress_ms = now_ms % window_ms;
        let (mut saved_window_id, mut prev_count, mut curr_count) = Self::unpack(state);
        // If time has moved to a new window, shift our counters
        if current_window_id != saved_window_id {
            let diff = current_window_id.wrapping_sub(saved_window_id);
            if diff == 1 {
                // Moved exactly to the next window
                prev_count = curr_count;
            } else {
                // Skipped one or more windows completely
                prev_count = 0;
            }
            curr_count = 0;
            saved_window_id = current_window_id;
        }
        // prev * (1 - progress / window) + curr >= max, scaled by the window
        let remaining_ms = window_ms - progress_ms;
        assert(prev_count as int * remaining_ms <= 0xFFFF * longest_window_ms()) by (nonlinear_arith)
            requires
                prev_count <= 0xFFFF,
                remaining_ms <= window_ms <= longest_window_ms(),
        ;
        assert(curr_count as int * window_ms <= 0xFFFF * longest_window_ms()) by (nonlinear_arith)
            requires
                curr_count <= 0xFFFF,
                window_ms <= longest_window_ms(),
        ;
        assert(self.max_requests as int * window_ms <= 0xFFFF * longest_window_ms()) by (nonlinear_arith)
            requires
                self.max_requests <= 0xFFFF,
                window_ms <= longest_window_ms(),
        ;
        let weighted = (prev_count as u128) * remaining_ms + (curr_count as u128) * window_ms;
        let limit = (self.max_requests as u128) * window_ms;
        if weighted >= limit {
            None
        } else {
            assert(curr_count < self.max_requests) by (nonlinear_arith)
                requires
                    (curr_count as int) * window_ms < self.max_requests * window_ms,
                    window_ms > 0,
            ;
            Some(Self::pack(saved_window_id, prev_count, curr_count + 1))
        }
    }

    /// Offers one request at `now_ms` (milliseconds since the limiter was
    /// made): `Ok(prev)` when it was admitted in the state `prev`, `Err(prev)`
    /// when it was refused in it. The update stores `sliding_next(.., prev, now_ms)`
    /// on admission and nothing on refusal, but the word inside the atomic is
    /// opaque to the verifier, so no clause states what is stored: only the
    /// outcome is stated.
    pub fn admit_at(&self, now_ms: u128) -> (r: Result<u64, u64>)
        ensures
            r matches Ok(prev) ==> sliding_next(self.max_requests(), self.window_ms(), prev, now_ms) is Some,
            r matches Err(prev) ==> sliding_next(self.max_requests(), self.window_ms(), prev, now_ms) is None,
    {
        let step = |s: u64| -> (n: Option<u64>)
            ensures
                n == sliding_next(self.max_requests(), self.window_ms(), s, now_ms),
            { self.next_state(s, now_ms) };
        fetch_update_word(&self.state, step)
    }
}

impl RateLimiter for SlidingWindow {
    /// Admits the request when the weighted estimate of the requests in the
    /// sliding window is below the limit.
    fn allow(&self) -> (allowed: bool)
        ensures
            allowed ==> exists|prev: u64, now_ms: u128|
                sliding_next(self.max_requests(), self.window_ms(), prev, now_ms) is Some,
            self.max_requests() == 0 ==> !allowed,
    {
        let elapsed = elapsed_since(&self.start_time);
        let now_ms = whole_millis(&elapsed);
        let r = self.admit_at(now_ms);
        proof {
            use_type_invariant(self);
            if let Ok(prev) = r {
                lemma_sliding_zero_limit_refuses(self.window_ms(), prev, now_ms);
            }
        }
        r.is_ok()
    }
}

/// A limit of zero refuses every request.
pub proof fn lemma_sliding_zero_limit_refuses(window_ms: u128, state: u64, now_ms: u128)
    requires
        window_ms > 0,
    ensures
        sliding_next(0, window_ms, state, now_ms) is None,
{
    let progress_ms = now_ms % window_ms;
    let prev = prev_count_of(state) as int;
    let curr = curr_count_of(state) as int;
    assert(prev * (window_ms - progress_ms) >= 0 && curr * window_ms >= 0 && prev * window_ms >= 0)
        by (nonlinear_arith)
        requires
            prev >= 0,
            curr >= 0,
            window_ms - progress_ms >= 0,
            window_ms > 0,
    ;
}

} // verus!
