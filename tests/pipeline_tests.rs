use rustysquid::{
    error_response, Action, ErrorReply, ProxyCache, Stage, Transaction, MAX_REQUEST_SIZE,
    MAX_RESPONSE_SIZE,
};

const REQUEST: &[u8] = b"GET /index.html HTTP/1.1\r\nHost: example.com\r\n\r\n";
const RESPONSE: &[u8] =
    b"HTTP/1.1 200 OK\r\nContent-Type: text/html\r\nCache-Control: max-age=120\r\n\r\n<html/>";

/// Runs one transaction against an origin that answers with `RESPONSE`;
/// returns the bytes the client receives and whether the origin was contacted.
fn run(cache: &mut ProxyCache, request: &[u8], now: u64) -> (Vec<u8>, bool) {
    let mut t = Transaction::new();
    match t.on_client_data(request, cache, now) {
        Action::ServeCached(head, body) => {
            let mut out = head;
            out.extend_from_slice(&body);
            (out, false)
        }
        Action::Connect(host, port) => {
            assert_eq!(host, "example.com");
            assert_eq!(port, 80);
            match t.on_connect_result(true) {
                Action::SendUpstream(bytes) => assert_eq!(bytes, request.to_vec()),
                _ => panic!("expected the request to be forwarded"),
            }
            assert!(matches!(t.on_upstream_data(RESPONSE), Action::ReadUpstream));
            let relayed = match t.on_upstream_data(&[]) {
                Action::Relay(bytes) => bytes,
                _ => panic!("expected a relay"),
            };
            t.on_relayed(cache, now);
            assert_eq!(t.stage(), Stage::Done);
            (relayed, true)
        }
        _ => panic!("unexpected action"),
    }
}

#[test]
fn end_to_end_miss_then_hit_until_expiry() {
    let mut cache = ProxyCache::new();
    let now = 1_000_000;
    let (first, contacted) = run(&mut cache, REQUEST, now);
    assert!(contacted);
    assert_eq!(first, RESPONSE.to_vec());
    assert_eq!(cache.len(), 1);

    let (second, contacted) = run(&mut cache, REQUEST, now + 119);
    assert!(!contacted);
    assert_eq!(second, RESPONSE.to_vec());

    let (third, contacted) = run(&mut cache, REQUEST, now + 120);
    assert!(contacted);
    assert_eq!(third, RESPONSE.to_vec());
}

#[test]
fn request_is_read_until_the_blank_line() {
    let mut cache = ProxyCache::new();
    let mut t = Transaction::new();
    assert!(matches!(
        t.on_client_data(b"GET /a.css HTTP/1.1\r\nHost: a", &mut cache, 0),
        Action::ReadClient
    ));
    match t.on_client_data(b".com:8080\r\n\r\n", &mut cache, 0) {
        Action::Connect(host, port) => {
            assert_eq!(host, "a.com");
            assert_eq!(port, 8080);
        }
        _ => panic!("expected a connect"),
    }
    assert_eq!(t.stage(), Stage::Connecting);
}

#[test]
fn request_without_host_is_a_bad_request() {
    let mut cache = ProxyCache::new();
    let mut t = Transaction::new();
    let action = t.on_client_data(b"GET / HTTP/1.1\r\nAccept: */*\r\n\r\n", &mut cache, 0);
    assert!(matches!(action, Action::Reply(ErrorReply::BadRequest)));
    let mut t = Transaction::new();
    let action = t.on_client_data(b"garbage\r\n\r\n", &mut cache, 0);
    assert!(matches!(action, Action::Reply(ErrorReply::BadRequest)));
    assert_eq!(error_response(ErrorReply::BadRequest), "HTTP/1.1 400 Bad Request\r\n\r\n");
}

#[test]
fn end_of_stream_completes_the_request() {
    let mut cache = ProxyCache::new();
    let mut t = Transaction::new();
    assert!(matches!(
        t.on_client_data(b"GET / HTTP/1.1\r\nHost: h\r\n", &mut cache, 0),
        Action::ReadClient
    ));
    // The head never ended with a blank line, so the request is incomplete.
    assert!(matches!(
        t.on_client_data(b"", &mut cache, 0),
        Action::Reply(ErrorReply::BadRequest)
    ));
}

#[test]
fn oversized_request_gets_413() {
    let mut cache = ProxyCache::new();
    let mut t = Transaction::new();
    let big = vec![b'a'; MAX_REQUEST_SIZE];
    assert!(matches!(t.on_client_data(&big, &mut cache, 0), Action::ReadClient));
    let action = t.on_client_data(b"b", &mut cache, 0);
    assert!(matches!(action, Action::Reply(ErrorReply::RequestTooLarge)));
    assert_eq!(
        error_response(ErrorReply::RequestTooLarge),
        "HTTP/1.1 413 Request Entity Too Large\r\n\r\n"
    );
}

#[test]
fn unreachable_origin_gets_502() {
    let mut cache = ProxyCache::new();
    let mut t = Transaction::new();
    assert!(matches!(t.on_client_data(REQUEST, &mut cache, 0), Action::Connect(_, _)));
    assert!(matches!(
        t.on_connect_result(false),
        Action::Reply(ErrorReply::BadGateway)
    ));
    assert_eq!(error_response(ErrorReply::BadGateway), "HTTP/1.1 502 Bad Gateway\r\n\r\n");
    assert_eq!(
        error_response(ErrorReply::ServiceUnavailable),
        "HTTP/1.1 503 Service Unavailable\r\n\r\n"
    );
}

#[test]
fn oversized_response_is_streamed_and_not_cached() {
    let mut cache = ProxyCache::new();
    let mut t = Transaction::new();
    assert!(matches!(t.on_client_data(REQUEST, &mut cache, 0), Action::Connect(_, _)));
    assert!(matches!(t.on_connect_result(true), Action::SendUpstream(_)));
    let part = vec![b'x'; MAX_RESPONSE_SIZE];
    assert!(matches!(t.on_upstream_data(&part), Action::ReadUpstream));
    match t.on_upstream_data(b"y") {
        Action::StreamRest(bytes) => assert_eq!(bytes.len(), MAX_RESPONSE_SIZE + 1),
        _ => panic!("expected streaming"),
    }
    assert_eq!(t.stage(), Stage::Done);
    assert_eq!(cache.len(), 0);
}

#[test]
fn non_get_is_forwarded_and_not_cached() {
    let mut cache = ProxyCache::new();
    let mut t = Transaction::new();
    let request = b"POST /a.css HTTP/1.1\r\nHost: example.com\r\n\r\n";
    assert!(matches!(t.on_client_data(request, &mut cache, 0), Action::Connect(_, _)));
    assert!(matches!(t.on_connect_result(true), Action::SendUpstream(_)));
    let response = b"HTTP/1.1 200 OK\r\nCache-Control: max-age=60\r\n\r\nok";
    assert!(matches!(t.on_upstream_data(response), Action::ReadUpstream));
    assert!(matches!(t.on_upstream_data(&[]), Action::Relay(_)));
    assert!(!t.on_relayed(&mut cache, 0));
    assert_eq!(cache.len(), 0);
}

#[test]
fn forward_failure_gets_502() {
    let mut cache = ProxyCache::new();
    let mut t = Transaction::new();
    assert!(matches!(t.on_client_data(REQUEST, &mut cache, 0), Action::Connect(_, _)));
    assert!(matches!(t.on_connect_result(true), Action::SendUpstream(_)));
    assert!(matches!(t.on_forward_failed(), Action::Reply(ErrorReply::BadGateway)));
}
