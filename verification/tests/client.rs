use sse_broadcast::client::{Client, NANOS_PER_SEC};
use hyper::body::HttpBody;
use std::pin::Pin;
use std::task::{Context, Poll, Waker};

fn poll_chunk(body: &mut hyper::Body) -> Option<Vec<u8>> {
    let mut cx = Context::from_waker(Waker::noop());
    match Pin::new(body).poll_data(&mut cx) {
        Poll::Ready(Some(Ok(bytes))) => Some(bytes.to_vec()),
        _ => None,
    }
}

#[test]
fn new_client_has_no_failure() {
    let (sender, _body) = hyper::Body::channel();
    let client = Client::new(sender, 7);
    assert_eq!(client.id(), 7);
    assert_eq!(client.first_error(), None);
}

#[test]
fn first_failure_is_timed() {
    let (sender, _body) = hyper::Body::channel();
    let mut client = Client::new(sender, 1);
    client.record_delivery("chunk", false, 10);
    assert_eq!(client.first_error(), Some(10));
}

#[test]
fn repeated_failures_keep_the_first_time() {
    let (sender, _body) = hyper::Body::channel();
    let mut client = Client::new(sender, 1);
    client.record_delivery("chunk", false, 10);
    client.record_delivery("chunk", false, 20);
    client.record_delivery("chunk", false, 30);
    assert_eq!(client.first_error(), Some(10));
}

#[test]
fn success_clears_the_failure() {
    let (sender, _body) = hyper::Body::channel();
    let mut client = Client::new(sender, 1);
    client.record_delivery("chunk", false, 10);
    client.record_delivery("chunk", true, 20);
    assert_eq!(client.first_error(), None);
    client.record_delivery("chunk", false, 30);
    assert_eq!(client.first_error(), Some(30));
}

#[test]
fn success_on_a_healthy_client_changes_nothing() {
    let (sender, _body) = hyper::Body::channel();
    let mut client = Client::new(sender, 4);
    client.record_delivery("chunk", true, 10);
    assert_eq!(client.first_error(), None);
    assert_eq!(client.id(), 4);
}

#[test]
fn staleness_needs_more_than_the_grace_period() {
    let (sender, _body) = hyper::Body::channel();
    let mut client = Client::new(sender, 1);
    assert!(!client.is_stale(100 * NANOS_PER_SEC, 5));
    client.record_delivery("chunk", false, 1 * NANOS_PER_SEC);
    assert!(!client.is_stale(1 * NANOS_PER_SEC, 5));
    assert!(!client.is_stale(6 * NANOS_PER_SEC, 5));
    assert!(client.is_stale(6 * NANOS_PER_SEC + 1, 5));
    assert!(client.is_stale(7 * NANOS_PER_SEC, 5));
    assert!(!client.is_stale(0, 5));
}

#[test]
fn grace_period_of_zero_evicts_after_any_delay() {
    let (sender, _body) = hyper::Body::channel();
    let mut client = Client::new(sender, 1);
    client.record_delivery("chunk", false, 50);
    assert!(!client.is_stale(50, 0));
    assert!(client.is_stale(51, 0));
}

#[test]
fn largest_grace_period_does_not_overflow() {
    let (sender, _body) = hyper::Body::channel();
    let mut client = Client::new(sender, 1);
    client.record_delivery("chunk", false, 0);
    let limit = (u64::MAX as u128) * NANOS_PER_SEC;
    assert!(!client.is_stale(limit, u64::MAX));
    assert!(client.is_stale(limit + 1, u64::MAX));
    assert!(client.is_stale(u128::MAX, u64::MAX));
}

#[test]
fn chunk_arrives_on_the_body() {
    let (sender, mut body) = hyper::Body::channel();
    let mut client = Client::new(sender, 1);
    assert!(client.send_chunk("event: a\ndata: b\n\n", 5));
    assert_eq!(client.first_error(), None);
    assert_eq!(poll_chunk(&mut body), Some(b"event: a\ndata: b\n\n".to_vec()));
    assert_eq!(poll_chunk(&mut body), None);
}

#[test]
fn push_to_a_closed_stream_fails_at_once() {
    let (sender, body) = hyper::Body::channel();
    drop(body);
    let mut client = Client::new(sender, 1);
    assert!(!client.send_chunk("x", 42));
    assert_eq!(client.first_error(), Some(42));
    assert!(!client.send_chunk("x", 43));
    assert_eq!(client.first_error(), Some(42));
}

#[test]
fn push_to_a_full_stream_fails_and_recovers_once_read() {
    let (sender, mut body) = hyper::Body::channel();
    let mut client = Client::new(sender, 1);
    assert!(client.send_chunk("one", 1));
    assert!(!client.send_chunk("two", 2));
    assert_eq!(client.first_error(), Some(2));
    assert_eq!(poll_chunk(&mut body), Some(b"one".to_vec()));
    assert!(client.send_chunk("three", 3));
    assert_eq!(client.first_error(), None);
    assert_eq!(poll_chunk(&mut body), Some(b"three".to_vec()));
}
