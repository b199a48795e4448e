use vstd::prelude::*;

verus! {

/// A limiter that decides whether one more request may pass.
pub trait RateLimiter: Send + Sync {
    /// Checks if a request is allowed based on the limiter's rules:
    /// `true` if the request is allowed, `false` otherwise.
    fn allow(&self) -> bool;
}

/// `2^32`, the weight of the upper half of a packed 64-bit state.
pub open spec fn half_word() -> int {
    0x1_0000_0000
}

/// Milliseconds from `last_ms` to `now_ms` on a millisecond clock that wraps
/// around every `2^32` ms.
pub open spec fn wrapped_elapsed(now_ms: u32, last_ms: u32) -> int {
    if now_ms >= last_ms {
        now_ms - last_ms
    } else {
        now_ms - last_ms + half_word()
    }
}

/// `last_ms + span_ms` on a millisecond clock that wraps around every
/// `2^32` ms, for a span shorter than the wrap.
pub open spec fn wrapped_add(last_ms: u32, span_ms: int) -> u32 {
    if last_ms + span_ms >= half_word() {
        (last_ms + span_ms - half_word()) as u32
    } else {
        (last_ms + span_ms) as u32
    }
}

/// The 64-bit word whose upper 32 bits hold `hi` and lower 32 bits hold `lo`.
pub open spec fn pair_word(hi: u32, lo: u32) -> u64 {
    (hi * half_word() + lo) as u64
}

/// The upper 32 bits of a packed word.
pub open spec fn upper_half(word: u64) -> u32 {
    (word as int / half_word()) as u32
}

/// The lower 32 bits of a packed word.
pub open spec fn lower_half(word: u64) -> u32 {
    (word as int % half_word()) as u32
}

/// Unpacking a packed word gives back the two halves it was packed from.
pub proof fn lemma_pair_word_halves(hi: u32, lo: u32)
    ensures
        upper_half(pair_word(hi, lo)) == hi,
        lower_half(pair_word(hi, lo)) == lo,
{
    assert(hi * half_word() + lo <= u64::MAX) by (nonlinear_arith)
        requires
            hi <= u32::MAX,
            lo <= u32::MAX,
            half_word() == 0x1_0000_0000,
    ;
    let w = hi * half_word() + lo;
    assert(w / half_word() == hi && w % half_word() == lo) by (nonlinear_arith)
        requires
            w == hi * half_word() + lo,
            0 <= lo < half_word(),
            0 <= hi,
            half_word() == 0x1_0000_0000,
    ;
}

/// Packing the two halves of a word gives back the word.
pub proof fn lemma_halves_pair_word(word: u64)
    ensures
        pair_word(upper_half(word), lower_half(word)) == word,
{
    let w = word as int;
    assert(w == (w / half_word()) * half_word() + w % half_word()
        && 0 <= w % half_word() < half_word()
        && 0 <= w / half_word() < half_word()) by (nonlinear_arith)
        requires
            0 <= w <= u64::MAX,
            half_word() == 0x1_0000_0000,
    ;
}

/// Times that never go backwards.
pub open spec fn ascending_ms(times: Seq<u128>) -> bool {
    forall|i: int, j: int| 0 <= i <= j < times.len() ==> times[i] <= times[j]
}

/// Times on the 32-bit millisecond clock that never go backwards.
pub open spec fn ascending_ms32(times: Seq<u32>) -> bool {
    forall|i: int, j: int| 0 <= i <= j < times.len() ==> times[i] <= times[j]
}

/// A time falls in window `k` of length `window` exactly when it lies in
/// `[k * window, k * window + window)`.
pub proof fn lemma_window_of_time(t: int, window: int, k: int)
    requires
        window > 0,
        t >= 0,
    ensures
        t / window == k <==> k * window <= t < k * window + window,
        t / window > k ==> t >= k * window + window,
        t / window < k ==> t < k * window,
        t / window >= 0,
{
    let q = t / window;
    let r = t % window;
    assert(t == q * window + r && 0 <= r < window) by (nonlinear_arith)
        requires
            window > 0,
            q == t / window,
            r == t % window,
    ;
    assert(q > k ==> q * window >= k * window + window) by (nonlinear_arith)
        requires
            window > 0,
    ;
    assert(q < k ==> q * window + window <= k * window) by (nonlinear_arith)
        requires
            window > 0,
    ;
    assert(q >= 0) by (nonlinear_arith)
        requires
            window > 0,
            t >= 0,
            q == t / window,
    ;
}

/// Packs two 32-bit halves into one word, upper half first.
pub fn pack_halves(hi: u32, lo: u32) -> (word: u64)
    ensures
        word == pair_word(hi, lo),
        word as int == hi * half_word() + lo,
{
    let w = ((hi as u64) << 32) | (lo as u64);
    assert(((hi as u64) << 32) | (lo as u64) == (hi as u64) * 0x1_0000_0000u64 + (lo as u64))
        by (bit_vector);
    w
}

/// Splits a word into its upper and lower 32-bit halves.
pub fn unpack_halves(word: u64) -> (halves: (u32, u32))
    ensures
        halves == (upper_half(word), lower_half(word)),
{
    let hi = (word >> 32) as u32;
    let lo = (word & 0xFFFF_FFFF) as u32;
    assert((word >> 32) as u32 == word / 0x1_0000_0000u64) by (bit_vector);
    assert((word & 0xFFFF_FFFF) as u32 == word % 0x1_0000_0000u64) by (bit_vector);
    (hi, lo)
}

} // verus!
