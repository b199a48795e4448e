//! Lock-free rate limiters: fixed window, sliding window counter, token bucket
//! and leaky bucket. Each limiter keeps its whole mutable state in one 64-bit
//! word and moves it forward with a verified transition function, applied
//! atomically; `server` holds the decisions of the HTTP front end.

mod clock;
pub mod common;
pub mod fixed_window;
pub mod leaky_bucket;
pub mod server;
pub mod sliding_window;
pub mod token_bucket;

pub use common::RateLimiter;
pub use fixed_window::FixedWindow;
pub use leaky_bucket::LeakyBucket;
pub use sliding_window::SlidingWindow;
pub use token_bucket::TokenBucket;
