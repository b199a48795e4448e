use rate_limiter::server::{
    accepts, rejection, reply_for, reply_to, AlgorithmCommand, Limiter, ReadStep, Reply, RequestError, RequestHead,
    RequestReader, MAX_HEADER_SIZE,
};
use rate_limiter::RateLimiter;

#[test]
fn builds_each_algorithm() {
    let commands = [
        AlgorithmCommand::FixedWindow { window_size: 100, capacity: 1 },
        AlgorithmCommand::LeakyBucket { rate_limit: 10, capacity: 1 },
        AlgorithmCommand::SlidingWindow { window_size: 100, capacity: 1 },
        AlgorithmCommand::TokenBucket { rate_limit: 10, capacity: 1 },
    ];
    for command in commands {
        assert!(accepts(&command));
        let limiter = Limiter::from_command(command);
        assert!(limiter.allow());
        assert!(!limiter.allow());
    }
}

#[test]
fn refuses_commands_that_would_panic() {
    assert!(!accepts(&AlgorithmCommand::SlidingWindow { window_size: 0, capacity: 5 }));
    assert!(!accepts(&AlgorithmCommand::SlidingWindow { window_size: 1, capacity: 65536 }));
    assert!(accepts(&AlgorithmCommand::SlidingWindow { window_size: 1, capacity: 65535 }));
    assert!(!accepts(&AlgorithmCommand::TokenBucket { rate_limit: 1, capacity: 4_294_968 }));
    assert!(accepts(&AlgorithmCommand::TokenBucket { rate_limit: 1, capacity: 4_294_967 }));
    assert!(accepts(&AlgorithmCommand::FixedWindow { window_size: 0, capacity: u32::MAX }));
    assert!(accepts(&AlgorithmCommand::LeakyBucket { rate_limit: 1, capacity: u32::MAX }));
    assert_eq!(
        rejection(&AlgorithmCommand::SlidingWindow { window_size: 0, capacity: 65536 }),
        Some("max_requests must fit in 16 bits")
    );
    assert_eq!(
        rejection(&AlgorithmCommand::SlidingWindow { window_size: 0, capacity: 5 }),
        Some("window_size must be greater than 0")
    );
    assert_eq!(
        rejection(&AlgorithmCommand::TokenBucket { rate_limit: 1, capacity: 4_294_968 }),
        Some("attempt to multiply with overflow")
    );
    assert_eq!(rejection(&AlgorithmCommand::LeakyBucket { rate_limit: 1, capacity: u32::MAX }), None);
}

#[test]
fn reads_a_request_in_pieces() {
    let mut reader = RequestReader::new();
    match reader.feed(b"GET /hello HT") {
        ReadStep::NeedMore => {}
        _ => panic!("a partial head needs more bytes"),
    }
    match reader.feed(b"TP/1.1\r\nHost: x\r\n\r\nbody") {
        ReadStep::Finished(Ok(head)) => {
            assert_eq!(head.path, "/hello");
            assert_eq!(head.body_offset, 32);
        }
        _ => panic!("the head is complete"),
    }
}

#[test]
fn reports_read_errors() {
    let mut reader = RequestReader::new();
    match reader.feed(b"") {
        ReadStep::Finished(Err(e)) => assert_eq!(e, RequestError::Disconnected),
        _ => panic!("an empty read is a disconnect"),
    }
    match reader.feed(b"\x01\x02 garbage\r\n\r\n") {
        ReadStep::Finished(Err(e)) => assert_eq!(e, RequestError::InvalidRequest),
        _ => panic!("garbage is invalid"),
    }
    let mut big = RequestReader::new();
    let chunk = vec![b'a'; 1024];
    for _ in 0..(MAX_HEADER_SIZE / 1024) {
        match big.feed(&chunk) {
            ReadStep::NeedMore => {}
            _ => panic!("still within the limit"),
        }
    }
    match big.feed(b"a") {
        ReadStep::Finished(Err(e)) => assert_eq!(e, RequestError::HeaderTooLarge),
        _ => panic!("over the limit"),
    }
    assert_eq!(RequestError::HeaderTooLarge.message(), "Header too large");
    assert_eq!(RequestError::ReadFailed.message(), "Read error");
    assert_eq!(RequestError::Disconnected.message(), "Client disconnected unexpectedly");
    assert_eq!(RequestError::InvalidRequest.message(), "Invalid HTTP request");
}

#[test]
fn replies_by_outcome() {
    let limiter = Limiter::from_command(AlgorithmCommand::TokenBucket { rate_limit: 0, capacity: 1 });
    let head = || Some(Ok(RequestHead { path: String::from("/"), body_offset: 16 }));
    assert_eq!(reply_to(&head(), &limiter), Reply::Accepted);
    assert_eq!(reply_to(&head(), &limiter), Reply::TooManyRequests);
    assert_eq!(reply_to(&Some(Err(RequestError::HeaderTooLarge)), &limiter), Reply::BadRequest);
    assert_eq!(reply_to(&None, &limiter), Reply::RequestTimeout);
    assert_eq!(reply_for(true), Reply::Accepted);
    assert_eq!(reply_for(false), Reply::TooManyRequests);
    let open = Limiter::from_command(AlgorithmCommand::FixedWindow { window_size: 0, capacity: 1 });
    for _ in 0..3 {
        assert_eq!(reply_to(&head(), &open), Reply::Accepted);
    }
    assert_eq!(Reply::Accepted.status_line(), "HTTP/1.1 200 OK\r\n\r\n");
    assert_eq!(Reply::TooManyRequests.status_line(), "HTTP/1.1 429 Too Many Requests\r\n\r\n");
    assert_eq!(Reply::BadRequest.status_line(), "HTTP/1.1 400 Bad Request\r\n\r\n");
    assert_eq!(Reply::RequestTimeout.status_line(), "HTTP/1.1 408 Request Timeout\r\n\r\n");
}
