use std::sync::atomic::AtomicU64;
use std::sync::atomic::Ordering;
use std::time::Duration;
use std::time::Instant;
use vstd::prelude::*;

verus! {

/// A point on the monotonic clock; Verus sees nothing inside it.
#[verifier::external_type_specification]
#[verifier::external_body]
pub struct ExInstant(Instant);

/// Reads the monotonic clock (`Instant::now`). What it returns depends on
/// when it is called, so nothing is stated of it.
#[verifier::external_body]
pub(crate) fn clock_now() -> Instant {
    Instant::now()
}

/// The time that has passed since `start` (`Instant::elapsed`). It depends on
/// when it is called, so nothing is stated of it.
#[verifier::external_body]
pub(crate) fn elapsed_since(start: &Instant) -> Duration {
    start.elapsed()
}

/// The whole milliseconds in a duration (`Duration::as_millis`). A `Duration`
/// is opaque here, so the result is not tied to it by any clause.
#[verifier::external_body]
pub(crate) fn whole_millis(span: &Duration) -> u128 {
    span.as_millis()
}

/// Atomically replaces the word in `cell` by `step` of it
/// (`AtomicU64::fetch_update`). The call returns `Ok(prev)` when the last call
/// of `step` it made, on the value `prev` that it then found, returned
/// `Some(..)` and that value was stored; it returns `Err(prev)` when `step`
/// returned `None` on `prev`, and then stores nothing. Which value it finds
/// depends on what other threads do, so only this is stated.
#[verifier::external_body]
pub(crate) fn fetch_update_word<F: Fn(u64) -> Option<u64>>(cell: &AtomicU64, step: F) -> (r: Result<u64, u64>)
    requires
        forall|w: u64| step.requires((w,)),
    ensures
        r matches Ok(prev) ==> exists|next: u64| step.ensures((prev,), Some(next)),
        r matches Err(prev) ==> step.ensures((prev,), None::<u64>),
{
    cell.fetch_update(Ordering::AcqRel, Ordering::Acquire, step)
}

} // verus!
