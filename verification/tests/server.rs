use hyper::body::HttpBody;
use sse_broadcast::client::{Delivery, NANOS_PER_SEC};
use sse_broadcast::server::{
    EventServer, ServerError, StreamReply, GRACE_PERIOD_SECS, STATUS_BAD_REQUEST, STATUS_OK,
};
use std::pin::Pin;
use std::task::{Context, Poll, Waker};

fn poll_chunk(body: &mut hyper::Body) -> Option<Vec<u8>> {
    let mut cx = Context::from_waker(Waker::noop());
    match Pin::new(body).poll_data(&mut cx) {
        Poll::Ready(Some(Ok(bytes))) => Some(bytes.to_vec()),
        _ => None,
    }
}

fn attach(server: &mut EventServer, channel: &str) -> (i32, hyper::Body) {
    assert!(server.has_free_id());
    let (sender, body) = hyper::Body::channel();
    let id = server.add_client(channel, sender).unwrap();
    (id, body)
}

fn open(server: &mut EventServer, path: &str) -> StreamReply {
    assert!(server.has_free_id());
    server.create_stream(path)
}

fn header(name: &str, value: &str) -> (String, String) {
    (name.to_string(), value.to_string())
}

#[test]
fn new_server_has_no_channels() {
    let server = EventServer::summon();
    assert_eq!(server.get_channels(), Vec::<String>::new());
    assert!(server.has_free_id());
    assert_eq!(server.client_ids_of("news"), None);
}

#[test]
fn channels_are_listed_in_order_of_registration() {
    let mut server = EventServer::summon();
    server.register_channel("news");
    server.register_channel("sports");
    server.register_channel("weather");
    assert_eq!(server.get_channels(), vec!["news", "sports", "weather"]);
    assert_eq!(server.client_ids_of("sports"), Some(vec![]));
}

#[test]
fn registering_twice_keeps_one_entry() {
    let mut server = EventServer::summon();
    server.register_channel("news");
    server.register_channel("sports");
    server.register_channel("news");
    assert_eq!(server.get_channels(), vec!["news", "sports"]);
}

#[test]
fn registering_again_drops_the_clients_and_keeps_their_identifiers() {
    let mut server = EventServer::summon();
    server.register_channel("news");
    let (first, mut body) = attach(&mut server, "news");
    assert_eq!(first, 1);
    server.register_channel("news");
    assert_eq!(server.client_ids_of("news"), Some(vec![]));
    assert_eq!(server.send_to_channel_at("news", "update", "hello", 0), vec![]);
    assert_eq!(poll_chunk(&mut body), None);
    let (second, _other) = attach(&mut server, "news");
    assert_eq!(second, 2);
}

#[test]
fn names_are_told_apart_exactly() {
    let mut server = EventServer::summon();
    server.register_channel("news");
    server.register_channel("News");
    server.register_channel("news ");
    server.register_channel("");
    assert_eq!(server.get_channels(), vec!["news", "News", "news ", ""]);
    let (id, _body) = attach(&mut server, "");
    assert_eq!(id, 1);
    assert_eq!(server.client_ids_of(""), Some(vec![1]));
    assert_eq!(server.client_ids_of("news"), Some(vec![]));
}

#[test]
fn clients_get_the_smallest_free_identifier_across_channels() {
    let mut server = EventServer::summon();
    server.register_channel("a");
    server.register_channel("b");
    let (one, _b1) = attach(&mut server, "a");
    let (two, _b2) = attach(&mut server, "b");
    let (three, _b3) = attach(&mut server, "a");
    assert_eq!((one, two, three), (1, 2, 3));
    assert_eq!(server.client_ids_of("a"), Some(vec![1, 3]));
    assert_eq!(server.client_ids_of("b"), Some(vec![2]));
}

#[test]
fn attaching_to_an_unknown_channel_is_refused() {
    let mut server = EventServer::summon();
    server.register_channel("news");
    let (sender, _body) = hyper::Body::channel();
    let refused = server.add_client("sports", sender);
    assert_eq!(refused, Err(ServerError::ChannelNotFound));
    assert_eq!(refused.unwrap_err().message(), "Channel nonexistent");
    assert_eq!(server.get_channels(), vec!["news"]);
    assert_eq!(server.client_ids_of("news"), Some(vec![]));
    assert_eq!(server.client_ids_of("sports"), None);
    let (id, _other) = attach(&mut server, "news");
    assert_eq!(id, 1);
}

#[test]
fn stream_request_for_an_unknown_channel_gets_a_client_error() {
    let mut server = EventServer::summon();
    server.register_channel("news");
    let (_id, _body) = attach(&mut server, "news");
    let reply = open(&mut server, "/events/sports");
    assert_eq!(reply.status, STATUS_BAD_REQUEST);
    assert_eq!(reply.status, 400);
    assert!(reply.headers.is_empty());
    assert!(reply.body.is_none());
    assert_eq!(reply.client, None);
    assert_eq!(server.get_channels(), vec!["news"]);
    assert_eq!(server.client_ids_of("news"), Some(vec![1]));
    assert_eq!(server.client_ids_of("sports"), None);
    let (next, _other) = attach(&mut server, "news");
    assert_eq!(next, 2);
}

#[test]
fn stream_request_for_a_registered_channel_opens_a_stream() {
    let mut server = EventServer::summon();
    server.register_channel("news");
    let reply = open(&mut server, "/events/news");
    assert_eq!(reply.status, STATUS_OK);
    assert_eq!(reply.status, 200);
    assert_eq!(
        reply.headers,
        vec![
            header("Cache-Control", "no-cache"),
            header("X-Accel-Buffering", "no"),
            header("Content-Type", "text/event-stream"),
            header("Access-Control-Allow-Origin", "*"),
        ]
    );
    assert_eq!(reply.client, Some(1));
    assert_eq!(server.client_ids_of("news"), Some(vec![1]));
    let mut body = reply.body.unwrap();
    server.send_to_channel("news", "update", "hello");
    assert_eq!(poll_chunk(&mut body), Some(b"event: update\ndata: hello\n\n".to_vec()));
}

#[test]
fn stream_request_names_the_channel_by_its_last_segment() {
    let mut server = EventServer::summon();
    server.register_channel("news");
    server.register_channel("events");
    assert_eq!(open(&mut server, "/events/news").client, Some(1));
    assert_eq!(open(&mut server, "news").client, Some(2));
    assert_eq!(open(&mut server, "/news/events").client, Some(3));
    assert_eq!(open(&mut server, "/events/news/").status, 400);
    assert_eq!(server.client_ids_of("news"), Some(vec![1, 2]));
    assert_eq!(server.client_ids_of("events"), Some(vec![3]));
}

#[test]
fn event_reaches_every_client_of_the_channel_in_order() {
    let mut server = EventServer::summon();
    server.register_channel("news");
    let (_a, mut first) = attach(&mut server, "news");
    let (_b, mut second) = attach(&mut server, "news");
    let report = server.send_to_channel_at("news", "update", "hello", 0);
    assert_eq!(
        report,
        vec![Delivery { client: 1, accepted: true }, Delivery { client: 2, accepted: true }]
    );
    assert_eq!(poll_chunk(&mut first), Some(b"event: update\ndata: hello\n\n".to_vec()));
    assert_eq!(poll_chunk(&mut second), Some(b"event: update\ndata: hello\n\n".to_vec()));
    assert_eq!(poll_chunk(&mut first), None);
    assert_eq!(poll_chunk(&mut second), None);
}

#[test]
fn event_for_an_unknown_or_empty_channel_does_nothing() {
    let mut server = EventServer::summon();
    server.register_channel("news");
    server.register_channel("empty");
    let (_id, mut body) = attach(&mut server, "news");
    assert_eq!(server.send_to_channel_at("sports", "update", "hello", 0), vec![]);
    assert_eq!(server.send_to_channel_at("empty", "update", "hello", 0), vec![]);
    assert_eq!(server.send_to_channel("sports", "update", "hello"), vec![]);
    assert_eq!(poll_chunk(&mut body), None);
    assert_eq!(server.get_channels(), vec!["news", "empty"]);
    assert_eq!(server.client_ids_of("news"), Some(vec![1]));
}

#[test]
fn event_for_one_channel_does_not_reach_another() {
    let mut server = EventServer::summon();
    server.register_channel("a");
    server.register_channel("b");
    let (_one, mut in_a) = attach(&mut server, "a");
    let (_two, mut in_b) = attach(&mut server, "b");
    let report = server.send_to_channel_at("a", "update", "hello", 0);
    assert_eq!(report, vec![Delivery { client: 1, accepted: true }]);
    assert_eq!(poll_chunk(&mut in_a), Some(b"event: update\ndata: hello\n\n".to_vec()));
    assert_eq!(poll_chunk(&mut in_b), None);
    drop(server);
    assert_eq!(poll_chunk(&mut in_b), None);
}

#[test]
fn failure_in_one_channel_leaves_the_other_untouched() {
    let mut server = EventServer::summon();
    server.register_channel("a");
    server.register_channel("b");
    let (_one, in_a) = attach(&mut server, "a");
    let (_two, in_b) = attach(&mut server, "b");
    drop(in_a);
    drop(in_b);
    let report = server.send_to_channel_at("a", "update", "hello", 0);
    assert_eq!(report, vec![Delivery { client: 1, accepted: false }]);
    let gone = server.remove_stale_clients_at(10 * NANOS_PER_SEC, 5);
    assert_eq!(gone, vec![1]);
    assert_eq!(server.client_ids_of("b"), Some(vec![2]));
}

#[test]
fn broadcast_reaches_every_channel_once() {
    let mut server = EventServer::summon();
    server.register_channel("a");
    server.register_channel("b");
    server.register_channel("c");
    let (_one, mut in_a) = attach(&mut server, "a");
    let (_two, mut in_c) = attach(&mut server, "c");
    let (_three, mut also_a) = attach(&mut server, "a");
    let reports = server.send_to_all_channels_at("tick", "now", 0);
    assert_eq!(reports.len(), 3);
    assert_eq!(reports[0].channel, "a");
    assert_eq!(
        reports[0].deliveries,
        vec![Delivery { client: 1, accepted: true }, Delivery { client: 3, accepted: true }]
    );
    assert_eq!(reports[1].channel, "b");
    assert_eq!(reports[1].deliveries, vec![]);
    assert_eq!(reports[2].channel, "c");
    assert_eq!(reports[2].deliveries, vec![Delivery { client: 2, accepted: true }]);
    for body in [&mut in_a, &mut in_c, &mut also_a] {
        assert_eq!(poll_chunk(body), Some(b"event: tick\ndata: now\n\n".to_vec()));
        assert_eq!(poll_chunk(body), None);
    }
}

#[test]
fn broadcast_on_the_clock_reports_every_channel() {
    let mut server = EventServer::summon();
    server.register_channel("a");
    server.register_channel("b");
    let (_one, mut in_b) = attach(&mut server, "b");
    let reports = server.send_to_all_channels("tick", "now");
    assert_eq!(reports.len(), 2);
    assert_eq!(reports[0].channel, "a");
    assert_eq!(reports[1].channel, "b");
    assert_eq!(reports[1].deliveries, vec![Delivery { client: 1, accepted: true }]);
    assert_eq!(poll_chunk(&mut in_b), Some(b"event: tick\ndata: now\n\n".to_vec()));
}

#[test]
fn broadcast_on_an_empty_server_does_nothing() {
    let mut server = EventServer::summon();
    assert_eq!(server.send_to_all_channels_at("tick", "now", 0).len(), 0);
    let round = server.maintenance_at(0, 5);
    assert_eq!(round.evicted, vec![]);
    assert_eq!(round.heartbeat.len(), 0);
}

#[test]
fn client_is_evicted_only_after_the_grace_period() {
    let mut server = EventServer::summon();
    server.register_channel("news");
    let (_id, body) = attach(&mut server, "news");
    drop(body);
    let sent = server.send_to_channel_at("news", "update", "hello", 2 * NANOS_PER_SEC);
    assert_eq!(sent, vec![Delivery { client: 1, accepted: false }]);
    assert_eq!(server.remove_stale_clients_at(2 * NANOS_PER_SEC, 5), vec![]);
    assert_eq!(server.remove_stale_clients_at(7 * NANOS_PER_SEC, 5), vec![]);
    assert_eq!(server.client_ids_of("news"), Some(vec![1]));
    assert_eq!(server.remove_stale_clients_at(7 * NANOS_PER_SEC + 1, 5), vec![1]);
    assert_eq!(server.client_ids_of("news"), Some(vec![]));
}

#[test]
fn later_failures_do_not_restart_the_grace_period() {
    let mut server = EventServer::summon();
    server.register_channel("news");
    let (_id, body) = attach(&mut server, "news");
    drop(body);
    server.send_to_channel_at("news", "update", "1", 1 * NANOS_PER_SEC);
    server.send_to_channel_at("news", "update", "2", 4 * NANOS_PER_SEC);
    server.send_to_channel_at("news", "update", "3", 6 * NANOS_PER_SEC);
    assert_eq!(server.remove_stale_clients_at(6 * NANOS_PER_SEC + 1, 5), vec![1]);
}

#[test]
fn passing_failure_followed_by_success_never_evicts() {
    let mut server = EventServer::summon();
    server.register_channel("news");
    let (_id, mut body) = attach(&mut server, "news");
    let first = server.send_to_channel_at("news", "update", "1", 1 * NANOS_PER_SEC);
    assert_eq!(first, vec![Delivery { client: 1, accepted: true }]);
    let second = server.send_to_channel_at("news", "update", "2", 2 * NANOS_PER_SEC);
    assert_eq!(second, vec![Delivery { client: 1, accepted: false }]);
    assert_eq!(poll_chunk(&mut body), Some(b"event: update\ndata: 1\n\n".to_vec()));
    let third = server.send_to_channel_at("news", "update", "3", 3 * NANOS_PER_SEC);
    assert_eq!(third, vec![Delivery { client: 1, accepted: true }]);
    assert_eq!(server.remove_stale_clients_at(1000 * NANOS_PER_SEC, 5), vec![]);
    assert_eq!(server.client_ids_of("news"), Some(vec![1]));
    assert_eq!(poll_chunk(&mut body), Some(b"event: update\ndata: 3\n\n".to_vec()));
}

#[test]
fn healthy_clients_are_never_evicted() {
    let mut server = EventServer::summon();
    server.register_channel("news");
    let (_id, _body) = attach(&mut server, "news");
    assert_eq!(server.remove_stale_clients_at(u128::MAX, 0), vec![]);
    assert_eq!(server.remove_stale_clients(), vec![]);
    assert_eq!(server.client_ids_of("news"), Some(vec![1]));
}

#[test]
fn scan_keeps_the_order_of_those_that_stay() {
    let mut server = EventServer::summon();
    server.register_channel("a");
    server.register_channel("b");
    let mut bodies = Vec::new();
    for channel in ["a", "b", "a", "a", "b", "a"] {
        bodies.push(Some(attach(&mut server, channel).1));
    }
    bodies[0] = None;
    bodies[3] = None;
    bodies[4] = None;
    server.send_to_all_channels_at("tick", "", 0);
    let gone = server.remove_stale_clients_at(6 * NANOS_PER_SEC, 5);
    assert_eq!(gone, vec![1, 4, 5]);
    assert_eq!(server.client_ids_of("a"), Some(vec![3, 6]));
    assert_eq!(server.client_ids_of("b"), Some(vec![2]));
    assert_eq!(server.get_channels(), vec!["a", "b"]);
}

#[test]
fn second_scan_at_the_same_time_removes_nothing() {
    let mut server = EventServer::summon();
    server.register_channel("news");
    let (_one, gone_body) = attach(&mut server, "news");
    let (_two, _kept_body) = attach(&mut server, "news");
    drop(gone_body);
    server.send_to_channel_at("news", "update", "hello", 0);
    assert_eq!(server.remove_stale_clients_at(9 * NANOS_PER_SEC, 5), vec![1]);
    assert_eq!(server.remove_stale_clients_at(9 * NANOS_PER_SEC, 5), vec![]);
    assert_eq!(server.client_ids_of("news"), Some(vec![2]));
}

#[test]
fn freed_identifiers_are_handed_out_again_smallest_first() {
    let mut server = EventServer::summon();
    server.register_channel("news");
    let mut bodies = Vec::new();
    for _ in 0..4 {
        bodies.push(Some(attach(&mut server, "news").1));
    }
    bodies[1] = None;
    bodies[2] = None;
    server.send_to_channel_at("news", "update", "hello", 0);
    assert_eq!(server.remove_stale_clients_at(6 * NANOS_PER_SEC, 5), vec![2, 3]);
    let (a, _ba) = attach(&mut server, "news");
    let (b, _bb) = attach(&mut server, "news");
    let (c, _bc) = attach(&mut server, "news");
    assert_eq!((a, b, c), (2, 3, 5));
    assert_eq!(server.client_ids_of("news"), Some(vec![1, 4, 2, 3, 5]));
}

#[test]
fn maintenance_round_evicts_then_sends_a_heartbeat() {
    let mut server = EventServer::summon();
    server.register_channel("news");
    let (_one, gone_body) = attach(&mut server, "news");
    let (_two, mut kept_body) = attach(&mut server, "news");
    drop(gone_body);
    server.send_to_channel_at("news", "update", "hello", 0);
    assert_eq!(poll_chunk(&mut kept_body), Some(b"event: update\ndata: hello\n\n".to_vec()));
    let round = server.maintenance_at(6 * NANOS_PER_SEC, GRACE_PERIOD_SECS);
    assert_eq!(round.evicted, vec![1]);
    assert_eq!(round.heartbeat.len(), 1);
    assert_eq!(round.heartbeat[0].channel, "news");
    assert_eq!(round.heartbeat[0].deliveries, vec![Delivery { client: 2, accepted: true }]);
    assert_eq!(poll_chunk(&mut kept_body), Some(b"event: heartbeat\ndata: \n\n".to_vec()));
    assert_eq!(poll_chunk(&mut kept_body), None);
}

#[test]
fn heartbeat_detects_a_dead_client_without_any_event() {
    let mut server = EventServer::summon();
    server.register_channel("news");
    let (_one, body) = attach(&mut server, "news");
    drop(body);
    let first = server.maintenance_at(10 * NANOS_PER_SEC, 5);
    assert_eq!(first.evicted, vec![]);
    assert_eq!(first.heartbeat[0].deliveries, vec![Delivery { client: 1, accepted: false }]);
    let second = server.maintenance_at(15 * NANOS_PER_SEC, 5);
    assert_eq!(second.evicted, vec![]);
    let third = server.maintenance_at(15 * NANOS_PER_SEC + 1, 5);
    assert_eq!(third.evicted, vec![1]);
    assert_eq!(third.heartbeat[0].deliveries, vec![]);
}

#[test]
fn scenario_news_update_evict_reuse() {
    let mut server = EventServer::summon();
    server.register_channel("news");
    let first = open(&mut server, "/events/news");
    assert_eq!(first.client, Some(1));
    let mut body = first.body.unwrap();
    let sent = server.send_to_channel_at("news", "update", "hello", 1 * NANOS_PER_SEC);
    assert_eq!(sent, vec![Delivery { client: 1, accepted: true }]);
    assert_eq!(poll_chunk(&mut body), Some(b"event: update\ndata: hello\n\n".to_vec()));
    assert_eq!(poll_chunk(&mut body), None);
    drop(body);
    let failed = server.send_to_channel_at("news", "update", "again", 2 * NANOS_PER_SEC);
    assert_eq!(failed, vec![Delivery { client: 1, accepted: false }]);
    let round = server.maintenance_at(8 * NANOS_PER_SEC, 5);
    assert_eq!(round.evicted, vec![1]);
    assert_eq!(server.client_ids_of("news"), Some(vec![]));
    let second = open(&mut server, "/events/news");
    assert_eq!(second.status, 200);
    assert_eq!(second.client, Some(1));
    assert_eq!(server.client_ids_of("news"), Some(vec![1]));
}

#[test]
fn scenario_on_the_server_clock() {
    let mut server = EventServer::summon();
    server.register_channel("news");
    let first = open(&mut server, "/events/news");
    assert_eq!(first.client, Some(1));
    drop(first.body);
    let failed = server.send_to_channel("news", "update", "hello");
    assert_eq!(failed, vec![Delivery { client: 1, accepted: false }]);
    let early = server.maintenance();
    assert_eq!(early.evicted, vec![]);
    assert_eq!(server.client_ids_of("news"), Some(vec![1]));
    let runtime = tokio::runtime::Builder::new_current_thread().enable_time().build().unwrap();
    runtime.block_on(async { tokio::time::sleep(std::time::Duration::from_secs(6)).await });
    let late = server.maintenance();
    assert_eq!(late.evicted, vec![1]);
    assert_eq!(late.heartbeat.len(), 1);
    assert_eq!(late.heartbeat[0].deliveries, vec![]);
    assert_eq!(server.client_ids_of("news"), Some(vec![]));
    let second = open(&mut server, "/events/news");
    assert_eq!(second.client, Some(1));
}
