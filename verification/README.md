# rate_limiter

Four lock-free rate limiters (fixed window, sliding window counter, token
bucket, leaky bucket) and the decisions of a small HTTP front end, written in
Verus.

Each limiter keeps its mutable state packed into one `AtomicU64` and advances
it with `fetch_update`, whose step is a verified transition function
(`next_state`) with an exact contract over a spec function (`leak_next`,
`token_next`, `sliding_next`, `fixed_next`). `admit_at` takes the time in
milliseconds and applies the step atomically; `allow` (the `RateLimiter`
trait) reads the clock and calls it. The token bucket keeps milli-tokens, so
that a rate per second refills whole units every millisecond; the leaky bucket
keeps whole requests and moves its clock stamp on only by the time the whole
requests it let out took to leak, so a rate per second loses no partial leak. The laws of each limiter (its count
never exceeds its limit over any run, how many of a run of requests it
admits, how it refills, drains or resets, and that waiting never hurts) are proof functions over runs of the transition
function.

- `src/common.rs`: the trait, 32/32-bit packing and its round-trip laws.
- `src/clock.rs`: the trusted calls into `std` (clock, `fetch_update`).
- `src/{fixed_window,sliding_window,token_bucket,leaky_bucket}.rs`: the limiters.
- `src/server.rs`: building a limiter from the command line choice, reading a
  request head (parsed by `httparse`), and choosing the reply.
- `app/main.rs`: command line (`clap`), sockets and timeouts (`tokio`).
