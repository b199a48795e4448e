use vstd::prelude::*;

use crate::common::RateLimiter;
use crate::fixed_window::{fixed_next, FixedWindow};
use crate::leaky_bucket::{leak_next, LeakyBucket};
use crate::sliding_window::{counter_range, sliding_next, SlidingWindow};
use crate::token_bucket::{token_capacity_fits, token_next, TokenBucket};

verus! {

/// How long a client may take to send its request head, in seconds.
pub const READ_TIMEOUT_SECS: u64 = 5;

/// The most bytes read from a connection at once.
pub const READ_CHUNK_SIZE: usize = 1024;

/// The longest request head accepted, in bytes.
pub const MAX_HEADER_SIZE: usize = 8192;

/// The most header lines a request head may carry.
pub const MAX_HEADERS: usize = 64;

/// The rate limiting algorithm the server runs, with its parameters.
#[derive(Debug, Clone, Copy)]
pub enum AlgorithmCommand {
    /// Fixed Window: `capacity` requests per window of `window_size` seconds.
    FixedWindow { window_size: u64, capacity: u32 },
    /// Leaky Bucket holding `capacity` requests and draining `rate_limit` per second.
    LeakyBucket { rate_limit: u32, capacity: u32 },
    /// Sliding Window: `capacity` requests per window of `window_size` seconds.
    SlidingWindow { window_size: u64, capacity: u32 },
    /// Token Bucket holding `capacity` tokens, refilled at `rate_limit` per second.
    TokenBucket { rate_limit: u32, capacity: u32 },
}

/// Milliseconds in `secs` seconds.
pub open spec fn secs_to_ms(secs: u64) -> int {
    secs * 1000
}

/// The commands a limiter can be built from: a sliding window needs a
/// non-empty window and a capacity that fits its 16-bit counters, and a token
/// bucket a capacity whose milli-tokens fit in 32 bits.
pub open spec fn command_accepted(command: AlgorithmCommand) -> bool {
    match command {
        AlgorithmCommand::SlidingWindow { window_size, capacity } => window_size > 0 && capacity < counter_range(),
        AlgorithmCommand::TokenBucket { capacity, .. } => token_capacity_fits(capacity),
        _ => true,
    }
}

/// Whether a limiter can be built from `command`.
pub fn accepts(command: &AlgorithmCommand) -> (ok: bool)
    ensures
        ok == command_accepted(*command),
{
    match command {
        AlgorithmCommand::SlidingWindow { window_size, capacity } => *window_size > 0 && *capacity <= 0xFFFF,
        AlgorithmCommand::TokenBucket { capacity, .. } => *capacity <= 4_294_967,
        _ => true,
    }
}

/// Why a limiter cannot be built from `command`, in the words of the check
/// that fails first, or `None` when it can.
pub fn rejection(command: &AlgorithmCommand) -> (why: Option<&'static str>)
    ensures
        why is None <==> command_accepted(*command),
        why matches Some(text) ==> match *command {
            AlgorithmCommand::SlidingWindow { capacity, .. } => if capacity >= counter_range() {
                text@ == "max_requests must fit in 16 bits"@
            } else {
                text@ == "window_size must be greater than 0"@
            },
            _ => text@ == "attempt to multiply with overflow"@,
        },
{
    match command {
        AlgorithmCommand::SlidingWindow { window_size, capacity } => {
            if *capacity > 0xFFFF {
                Some("max_requests must fit in 16 bits")
            } else if *window_size == 0 {
                Some("window_size must be greater than 0")
            } else {
                None
            }
        },
        AlgorithmCommand::TokenBucket { capacity, .. } => {
            if *capacity > 4_294_967 {
                Some("attempt to multiply with overflow")
            } else {
                None
            }
        },
        _ => None,
    }
}

/// One of the four limiters, chosen at run time.
pub enum Limiter {
    FixedWindow(FixedWindow),
    LeakyBucket(LeakyBucket),
    SlidingWindow(SlidingWindow),
    TokenBucket(TokenBucket),
}

impl Limiter {
    /// Whether this limiter runs the algorithm of `command` with its
    /// parameters (window sizes turned into milliseconds).
    pub open spec fn built_from(&self, command: AlgorithmCommand) -> bool {
        match (*self, command) {
            (Limiter::FixedWindow(l), AlgorithmCommand::FixedWindow { window_size, capacity }) =>
                l.window_ms() == secs_to_ms(window_size) && l.max_requests() == capacity,
            (Limiter::LeakyBucket(l), AlgorithmCommand::LeakyBucket { rate_limit, capacity }) =>
                l.capacity() == capacity && l.leak_rate() == rate_limit,
            (Limiter::SlidingWindow(l), AlgorithmCommand::SlidingWindow { window_size, capacity }) =>
                l.window_ms() == secs_to_ms(window_size) && l.max_requests() == capacity,
            (Limiter::TokenBucket(l), AlgorithmCommand::TokenBucket { rate_limit, capacity }) =>
                l.rate() == rate_limit && l.capacity() == capacity,
            _ => false,
        }
    }

    /// Whether the limiter's limit is zero, so that it refuses everything.
    pub open spec fn limit_is_zero(&self) -> bool {
        match *self {
            Limiter::FixedWindow(l) => l.max_requests() == 0,
            Limiter::LeakyBucket(l) => l.capacity() == 0,
            Limiter::SlidingWindow(l) => l.max_requests() == 0,
            Limiter::TokenBucket(l) => l.capacity() == 0,
        }
    }

    /// Whether the chosen limiter's step admits a request from some state at
    /// some time: the only way an admission can come about.
    pub open spec fn can_admit(&self) -> bool {
        match *self {
            Limiter::FixedWindow(l) => exists|prev: u64, now_ms: u128|
                fixed_next(l.max_requests(), l.window_ms(), prev, now_ms) is Some,
            Limiter::LeakyBucket(l) => exists|prev: u64, now_ms: u32|
                leak_next(l.capacity(), l.leak_rate(), prev, now_ms) is Some,
            Limiter::SlidingWindow(l) => exists|prev: u64, now_ms: u128|
                sliding_next(l.max_requests(), l.window_ms(), prev, now_ms) is Some,
            Limiter::TokenBucket(l) => exists|prev: u64, now_ms: u32|
                token_next(l.rate(), l.capacity(), prev, now_ms) is Some,
        }
    }

    /// Whether the limiter admits every request whatever its state and the
    /// time: a fixed window of length zero with a positive limit.
    pub open spec fn admits_all(&self) -> bool {
        match *self {
            Limiter::FixedWindow(l) => l.window_ms() == 0 && l.max_requests() > 0,
            _ => false,
        }
    }

    /// Builds the limiter that `command` asks for.
    pub fn from_command(command: AlgorithmCommand) -> (limiter: Limiter)
        requires
            command_accepted(command),
        ensures
            limiter.built_from(command),
    {
        match command {
            AlgorithmCommand::FixedWindow { window_size, capacity } => {
                Limiter::FixedWindow(FixedWindow::new(window_size as u128 * 1000, capacity as usize))
            },
            AlgorithmCommand::LeakyBucket { rate_limit, capacity } => {
                Limiter::LeakyBucket(LeakyBucket::new(capacity, rate_limit))
            },
            AlgorithmCommand::SlidingWindow { window_size, capacity } => {
                Limiter::SlidingWindow(SlidingWindow::new(window_size as u128 * 1000, capacity as usize))
            },
            AlgorithmCommand::TokenBucket { rate_limit, capacity } => {
                Limiter::TokenBucket(TokenBucket::new(rate_limit, capacity))
            },
        }
    }
}

impl RateLimiter for Limiter {
    /// Asks the chosen limiter.
    fn allow(&self) -> (allowed: bool)
        ensures
            allowed ==> self.can_admit(),
            self.limit_is_zero() ==> !allowed,
            self.admits_all() ==> allowed,
    {
        match self {
            Limiter::FixedWindow(l) => l.allow(),
            Limiter::LeakyBucket(l) => l.allow(),
            Limiter::SlidingWindow(l) => l.allow(),
            Limiter::TokenBucket(l) => l.allow(),
        }
    }
}

/// What parsing the bytes of a request head gives.
pub enum HeadParse {
    /// A whole request head, with its path and the offset at which the body starts.
    Complete { path: Option<String>, offset: usize },
    /// A valid beginning of a request head; more bytes are needed.
    Partial,
    /// Bytes that are no valid request head.
    Invalid,
}

/// What `httparse` makes of `bytes` as a request head, with room for
/// `max_headers` header lines.
pub uninterp spec fn parsed_request_head(bytes: Seq<u8>, max_headers: usize) -> HeadParse;

/// Parses `bytes` as an HTTP/1.x request head with room for `max_headers`
/// header lines (`httparse::Request::parse`). The result is the one that
/// `parsed_request_head` names, so it depends on the bytes and the room alone;
/// a complete head ends within the bytes. What `httparse` accepts is not
/// written out here.
#[verifier::external_body]
fn parse_request_head(bytes: &[u8], max_headers: usize) -> (parsed: HeadParse)
    ensures
        parsed == parsed_request_head(bytes@, max_headers),
        parsed matches HeadParse::Complete { offset, .. } ==> offset <= bytes@.len(),
{
    let mut headers = vec![httparse::EMPTY_HEADER; max_headers];
    let mut request = httparse::Request::new(&mut headers);
    match request.parse(bytes) {
        Ok(httparse::Status::Complete(offset)) => HeadParse::Complete { path: request.path.map(String::from), offset },
        Ok(httparse::Status::Partial) => HeadParse::Partial,
        Err(_) => HeadParse::Invalid,
    }
}

/// Why reading a request failed.
#[derive(Debug, Clone, Copy, PartialEq, Eq, Structural)]
pub enum RequestError {
    /// The connection could not be read.
    ReadFailed,
    /// The client closed the connection before the head was complete.
    Disconnected,
    /// The head grew beyond `MAX_HEADER_SIZE` bytes.
    HeaderTooLarge,
    /// The bytes are no valid request head.
    InvalidRequest,
}

impl RequestError {
    /// The message logged for the error.
    pub fn message(&self) -> (text: &'static str)
        ensures
            text@ == match *self {
                RequestError::ReadFailed => "Read error"@,
                RequestError::Disconnected => "Client disconnected unexpectedly"@,
                RequestError::HeaderTooLarge => "Header too large"@,
                RequestError::InvalidRequest => "Invalid HTTP request"@,
            },
    {
        match self {
            RequestError::ReadFailed => "Read error",
            RequestError::Disconnected => "Client disconnected unexpectedly",
            RequestError::HeaderTooLarge => "Header too large",
            RequestError::InvalidRequest => "Invalid HTTP request",
        }
    }
}

/// A complete request head: its path (empty when it has none) and the offset
/// of the body in the bytes read.
pub struct RequestHead {
    pub path: String,
    pub body_offset: usize,
}

/// What the reader makes of the bytes it has so far.
pub enum ReadStep {
    /// The head is not complete yet: read more.
    NeedMore,
    /// Reading is over, with a head or an error.
    Finished(Result<RequestHead, RequestError>),
}

/// The step that a head parse leads to.
pub open spec fn step_matches_parse(step: ReadStep, parsed: HeadParse) -> bool {
    match parsed {
        HeadParse::Complete { path, offset } => step matches ReadStep::Finished(Ok(head)) && {
            &&& head.body_offset == offset
            &&& head.path@ == match path {
                Some(p) => p@,
                None => Seq::<char>::empty(),
            }
        },
        HeadParse::Partial => step is NeedMore,
        HeadParse::Invalid => step == ReadStep::Finished(Err(RequestError::InvalidRequest)),
    }
}

/// Collects the bytes of one request head, chunk by chunk, until it is
/// complete, invalid, or too large.
pub struct RequestReader {
    buffer: Vec<u8>,
}

impl View for RequestReader {
    type V = Seq<u8>;

    /// The bytes collected so far.
    closed spec fn view(&self) -> Seq<u8> {
        self.buffer@
    }
}

impl RequestReader {
    /// A reader that has collected nothing.
    pub fn new() -> (reader: Self)
        ensures
            reader@ == Seq::<u8>::empty(),
    {
        RequestReader { buffer: Vec::with_capacity(READ_CHUNK_SIZE) }
    }

    /// Takes the next chunk read from the connection. An empty chunk means
    /// the client closed the connection; a chunk that would make the head
    /// longer than `MAX_HEADER_SIZE` ends reading; otherwise the chunk is
    /// appended and the bytes so far are parsed.
    pub fn feed(&mut self, chunk: &[u8]) -> (step: ReadStep)
        ensures
            chunk@.len() == 0 ==> {
                &&& step == ReadStep::Finished(Err(RequestError::Disconnected))
                &&& final(self)@ == old(self)@
            },
            chunk@.len() > 0 && old(self)@.len() + chunk@.len() > MAX_HEADER_SIZE ==> {
                &&& step == ReadStep::Finished(Err(RequestError::HeaderTooLarge))
                &&& final(self)@ == old(self)@
            },
            chunk@.len() > 0 && old(self)@.len() + chunk@.len() <= MAX_HEADER_SIZE ==> {
                &&& final(self)@ == old(self)@ + chunk@
                &&& step_matches_parse(step, parsed_request_head(final(self)@, MAX_HEADERS))
            },
            step matches ReadStep::Finished(Ok(head)) ==> head.body_offset <= final(self)@.len(),
    {
        let n = chunk.len();
        if n == 0 {
            return ReadStep::Finished(Err(RequestError::Disconnected));
        }
        if n > MAX_HEADER_SIZE || self.buffer.len() > MAX_HEADER_SIZE - n {
            return ReadStep::Finished(Err(RequestError::HeaderTooLarge));
        }
        let ghost before = self.buffer@;
        let mut i: usize = 0;
        while i < n
            invariant
                0 <= i <= n,
                n == chunk@.len(),
                self.buffer@ == before + chunk@.subrange(0, i as int),
            decreases n - i,
        {
            self.buffer.push(chunk[i]);
            i = i + 1;
            assert(chunk@.subrange(0, i as int) == chunk@.subrange(0, i - 1).push(chunk@[i - 1]));
        }
        assert(chunk@.subrange(0, n as int) == chunk@);
        match parse_request_head(self.buffer.as_slice(), MAX_HEADERS) {
            HeadParse::Complete { path, offset } => {
                let path = match path {
                    Some(p) => p,
                    None => String::new(),
                };
                ReadStep::Finished(Ok(RequestHead { path, body_offset: offset }))
            },
            HeadParse::Partial => ReadStep::NeedMore,
            HeadParse::Invalid => ReadStep::Finished(Err(RequestError::InvalidRequest)),
        }
    }
}

/// The answer the server sends.
#[derive(Debug, Clone, Copy, PartialEq, Eq, Structural)]
pub enum Reply {
    /// 200: the request was admitted.
    Accepted,
    /// 429: the limiter refused the request.
    TooManyRequests,
    /// 400: the request could not be read.
    BadRequest,
    /// 408: the request head did not arrive in time.
    RequestTimeout,
}

impl Reply {
    /// The status line (with the empty line that ends the head) sent for the reply.
    pub fn status_line(&self) -> (text: &'static str)
        ensures
            text@ == match *self {
                Reply::Accepted => "HTTP/1.1 200 OK\r\n\r\n"@,
                Reply::TooManyRequests => "HTTP/1.1 429 Too Many Requests\r\n\r\n"@,
                Reply::BadRequest => "HTTP/1.1 400 Bad Request\r\n\r\n"@,
                Reply::RequestTimeout => "HTTP/1.1 408 Request Timeout\r\n\r\n"@,
            },
    {
        match self {
            Reply::Accepted => "HTTP/1.1 200 OK\r\n\r\n",
            Reply::TooManyRequests => "HTTP/1.1 429 Too Many Requests\r\n\r\n",
            Reply::BadRequest => "HTTP/1.1 400 Bad Request\r\n\r\n",
            Reply::RequestTimeout => "HTTP/1.1 408 Request Timeout\r\n\r\n",
        }
    }
}

/// The reply to a request that was read whole, by the limiter's answer:
/// 200 when it was admitted, 429 when it was refused.
pub fn reply_for(admitted: bool) -> (reply: Reply)
    ensures
        reply == if admitted { Reply::Accepted } else { Reply::TooManyRequests },
{
    if admitted {
        Reply::Accepted
    } else {
        Reply::TooManyRequests
    }
}

/// The reply to a request whose reading ended with `read` (`None` when the
/// head did not arrive within `READ_TIMEOUT_SECS`). Only a request that was
/// read whole is put to the limiter, and its reply is `reply_for` the
/// limiter's answer.
pub fn reply_to(read: &Option<Result<RequestHead, RequestError>>, limiter: &Limiter) -> (reply: Reply)
    ensures
        read is None ==> reply == Reply::RequestTimeout,
        read matches Some(Err(_)) ==> reply == Reply::BadRequest,
        read matches Some(Ok(_)) ==> reply == Reply::Accepted || reply == Reply::TooManyRequests,
        read matches Some(Ok(_)) && limiter.limit_is_zero() ==> reply == Reply::TooManyRequests,
        read matches Some(Ok(_)) && limiter.admits_all() ==> reply == Reply::Accepted,
{
    match read {
        Some(Ok(_)) => reply_for(limiter.allow()),
        Some(Err(_)) => Reply::BadRequest,
        None => Reply::RequestTimeout,
    }
}

} // verus!
