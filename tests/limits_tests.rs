use rustysquid::{admit_connection, MAX_CONNECTIONS, MAX_REQUEST_SIZE};
use std::sync::atomic::{AtomicUsize, Ordering};
use std::sync::Arc;

#[test]
fn test_connection_limit_constant() {
    assert_eq!(MAX_CONNECTIONS, 100);
}

#[test]
fn test_connection_counting() {
    let counter = Arc::new(AtomicUsize::new(0));
    for _ in 0..10 {
        counter.fetch_add(1, Ordering::Relaxed);
    }
    assert_eq!(counter.load(Ordering::Relaxed), 10);
    for _ in 0..5 {
        counter.fetch_sub(1, Ordering::Relaxed);
    }
    assert_eq!(counter.load(Ordering::Relaxed), 5);
}

#[test]
fn test_connection_limit_enforcement() {
    let counter = Arc::new(AtomicUsize::new(0));
    let mut accepted = 0;
    let mut rejected = 0;
    for _ in 0..150 {
        let current = counter.load(Ordering::Relaxed);
        if current >= MAX_CONNECTIONS {
            rejected += 1;
        } else {
            counter.fetch_add(1, Ordering::Relaxed);
            accepted += 1;
        }
    }
    assert_eq!(accepted, MAX_CONNECTIONS);
    assert_eq!(rejected, 50);
    assert_eq!(counter.load(Ordering::Relaxed), MAX_CONNECTIONS);
}

#[test]
fn admission_follows_the_connection_limit() {
    let mut active = 0usize;
    let mut rejected = 0;
    for _ in 0..150 {
        if admit_connection(active) {
            active += 1;
        } else {
            rejected += 1;
        }
    }
    assert_eq!(active, MAX_CONNECTIONS);
    assert_eq!(rejected, 50);
    assert!(admit_connection(MAX_CONNECTIONS - 1));
    assert!(!admit_connection(MAX_CONNECTIONS));
}

#[test]
fn test_request_size_constant() {
    assert_eq!(MAX_REQUEST_SIZE, 64 * 1024);
}

#[test]
fn test_request_size_validation() {
    let small_request = vec![0u8; 1024];
    assert!(small_request.len() <= MAX_REQUEST_SIZE);
    let large_request = vec![0u8; MAX_REQUEST_SIZE + 1];
    assert!(large_request.len() > MAX_REQUEST_SIZE);
}

#[test]
fn test_header_parsing_size() {
    let mut request = String::from("GET / HTTP/1.1\r\n");
    for i in 0..100 {
        request.push_str(&format!("X-Custom-Header-{i}: value-{i}\r\n"));
        if request.len() > MAX_REQUEST_SIZE {
            break;
        }
    }
    if request.len() > MAX_REQUEST_SIZE {
        assert!(request.len() > MAX_REQUEST_SIZE);
    }
}

#[test]
fn test_typical_request_sizes() {
    let get_request = "GET /index.html HTTP/1.1\r\n\
                       Host: example.com\r\n\
                       User-Agent: TestClient/1.0\r\n\
                       Accept: */*\r\n\
                       \r\n";
    assert!(get_request.len() < 1024);
    let post_request = "POST /api/data HTTP/1.1\r\n\
                        Host: example.com\r\n\
                        User-Agent: TestClient/1.0\r\n\
                        Content-Type: application/json\r\n\
                        Content-Length: 100\r\n\
                        Authorization: Bearer token123456789\r\n\
                        \r\n";
    assert!(post_request.len() < 1024);
}
