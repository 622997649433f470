use bytes::Bytes;
use rustysquid::{
    create_cache_key, CachedResponse, ProxyCache, CACHE_SIZE, MAX_CACHE_BYTES, MAX_ENTRY_SIZE,
};
use std::time::{SystemTime, UNIX_EPOCH};

fn now_secs() -> u64 {
    SystemTime::now()
        .duration_since(UNIX_EPOCH)
        .unwrap()
        .as_secs()
}

fn small(i: usize) -> CachedResponse {
    CachedResponse {
        status_line: format!("HTTP/1.1 200 OK {}\r\n", i),
        headers: vec![],
        body: Bytes::from(format!("body {}", i)),
        expires: u64::MAX,
    }
}

#[test]
fn test_proxy_cache_operations() {
    let mut cache = ProxyCache::new();
    assert_eq!(cache.len(), 0);

    let key = create_cache_key("test.com", 80, "/test");
    assert!(cache.get(key).is_none());

    let response = CachedResponse {
        status_line: "HTTP/1.1 200 OK\r\n".to_string(),
        headers: vec!["Content-Type: text/html".to_string()],
        body: Bytes::from("test body"),
        expires: now_secs() + 3600,
    };

    cache.put(key, response.clone());
    assert_eq!(cache.len(), 1);

    let cached = cache.get(key);
    assert!(cached.is_some());
    assert_eq!(cached.unwrap(), response);

    cache.clear();
    assert_eq!(cache.len(), 0);
}

#[test]
fn test_cache_size_limit() {
    let mut cache = ProxyCache::new();
    let large_response = CachedResponse {
        status_line: "HTTP/1.1 200 OK\r\n".to_string(),
        headers: vec!["Content-Type: text/html".to_string()],
        body: Bytes::from(vec![0u8; 1024 * 1024]),
        expires: now_secs() + 3600,
    };
    for i in 0..60 {
        let key = create_cache_key("test.com", 80, &format!("/page{}", i));
        cache.put(key, large_response.clone());
    }
    assert!(cache.total_size() <= MAX_CACHE_BYTES);
    assert!(cache.len() < 60);
}

#[test]
fn test_entry_size_limit() {
    let mut cache = ProxyCache::new();
    let oversized = CachedResponse {
        status_line: "HTTP/1.1 200 OK\r\n".to_string(),
        headers: vec![],
        body: Bytes::from(vec![0u8; MAX_ENTRY_SIZE + 1]),
        expires: now_secs() + 3600,
    };
    let key = create_cache_key("test.com", 80, "/large");
    let result = cache.put(key, oversized);
    assert!(!result);
    assert_eq!(cache.len(), 0);
    assert_eq!(cache.total_size(), 0);
}

#[test]
fn test_cache_expiration() {
    let mut cache = ProxyCache::new();
    let expired_response = CachedResponse {
        status_line: "HTTP/1.1 200 OK\r\n".to_string(),
        headers: vec![],
        body: Bytes::from("expired"),
        expires: now_secs() - 1,
    };
    let key = create_cache_key("test.com", 80, "/expired");
    cache.put(key, expired_response);
    assert!(cache.get(key).is_none());
}

#[test]
fn test_cache_memory_limits() {
    let mut cache = ProxyCache::new();
    let oversized = CachedResponse {
        status_line: "HTTP/1.1 200 OK\r\n".to_string(),
        headers: vec![],
        body: Bytes::from(vec![0u8; MAX_ENTRY_SIZE + 1]),
        expires: u64::MAX,
    };
    assert!(!cache.put(1, oversized), "Should reject oversized entry");

    let max_allowed = CachedResponse {
        status_line: "HTTP/1.1 200 OK\r\n".to_string(),
        headers: vec![],
        body: Bytes::from(vec![0u8; MAX_ENTRY_SIZE - 100]),
        expires: u64::MAX,
    };
    assert!(cache.put(2, max_allowed), "Should accept max-size entry");
    assert!(cache.total_size() > 0);
    assert!(cache.total_size() <= MAX_CACHE_BYTES);
}

#[test]
fn test_cache_eviction() {
    let mut cache = ProxyCache::new();
    for i in 0..CACHE_SIZE {
        cache.put(i as u64, small(i));
    }
    assert_eq!(cache.len(), CACHE_SIZE);

    let new_response = CachedResponse {
        status_line: "HTTP/1.1 200 OK NEW\r\n".to_string(),
        headers: vec![],
        body: Bytes::from("new body"),
        expires: u64::MAX,
    };
    cache.put(CACHE_SIZE as u64, new_response);
    assert_eq!(cache.len(), CACHE_SIZE);
    assert!(cache.get(CACHE_SIZE as u64).is_some());
}

#[test]
fn eviction_takes_exactly_the_least_recently_touched_key() {
    let mut cache = ProxyCache::new();
    for i in 0..CACHE_SIZE {
        cache.put(i as u64, small(i));
    }
    // Touch key 0 so that key 1 becomes the least recently used.
    assert!(cache.get(0).is_some());
    cache.put(CACHE_SIZE as u64, small(CACHE_SIZE));
    assert!(cache.get(1).is_none());
    assert!(cache.get(0).is_some());
    assert!(cache.get(2).is_some());
    assert_eq!(cache.get(CACHE_SIZE as u64), Some(small(CACHE_SIZE)));
}

#[test]
fn test_cache_expiration_handling() {
    let mut cache = ProxyCache::new();
    let now = now_secs();
    let expired = CachedResponse {
        status_line: "HTTP/1.1 200 OK\r\n".to_string(),
        headers: vec![],
        body: Bytes::from("expired"),
        expires: now - 1,
    };
    let valid = CachedResponse {
        status_line: "HTTP/1.1 200 OK\r\n".to_string(),
        headers: vec![],
        body: Bytes::from("valid"),
        expires: now + 3600,
    };
    let permanent = CachedResponse {
        status_line: "HTTP/1.1 200 OK\r\n".to_string(),
        headers: vec![],
        body: Bytes::from("permanent"),
        expires: u64::MAX,
    };
    cache.put(1, expired);
    cache.put(2, valid.clone());
    cache.put(3, permanent.clone());

    assert!(cache.get(1).is_none());
    let cached_valid = cache.get(2).unwrap();
    assert_eq!(cached_valid, valid);
    let cached_permanent = cache.get(3).unwrap();
    assert_eq!(cached_permanent, permanent);
}

#[test]
fn expired_lookup_removes_the_entry_and_debits_its_size() {
    let mut cache = ProxyCache::new();
    let e = CachedResponse {
        status_line: "HTTP/1.1 200 OK\r\n".to_string(),
        headers: vec!["A: b".to_string()],
        body: Bytes::from("xyz"),
        expires: 100,
    };
    assert!(cache.put(5, e.clone()));
    // 17 + 4 + 3 + 8
    assert_eq!(cache.total_size(), 32);
    assert_eq!(cache.get_at(5, 99), Some(e));
    assert_eq!(cache.get_at(5, 100), None);
    assert_eq!(cache.len(), 0);
    assert_eq!(cache.total_size(), 0);
}

#[test]
fn overwrite_does_not_double_count() {
    let mut cache = ProxyCache::new();
    assert!(cache.put(1, small(1)));
    let first = cache.total_size();
    assert!(cache.put(1, small(1)));
    assert_eq!(cache.total_size(), first);
    assert_eq!(cache.len(), 1);
}

#[test]
fn test_cache_clear() {
    let mut cache = ProxyCache::new();
    for i in 0..10 {
        cache.put(i, small(i as usize));
    }
    assert_eq!(cache.len(), 10);
    assert!(cache.total_size() > 0);

    cache.clear();
    assert_eq!(cache.len(), 0);
    assert_eq!(cache.total_size(), 0);
    assert!(cache.is_empty());

    let response = CachedResponse {
        status_line: "HTTP/1.1 200 OK\r\n".to_string(),
        headers: vec![],
        body: Bytes::from("new"),
        expires: u64::MAX,
    };
    assert!(cache.put(100, response));
    assert_eq!(cache.len(), 1);
}

#[test]
fn prop_cache_capacity_invariant() {
    let mut cache = ProxyCache::new();
    for i in 0..(CACHE_SIZE + 100) {
        cache.put(i as u64, small(i));
    }
    assert!(cache.len() <= CACHE_SIZE, "Cache capacity must not be exceeded");
}

#[test]
fn prop_cache_memory_invariant() {
    let mut cache = ProxyCache::new();
    let large_size = MAX_ENTRY_SIZE - 1000;
    let num_entries = (MAX_CACHE_BYTES / large_size) + 10;
    for i in 0..num_entries {
        let response = CachedResponse {
            status_line: "HTTP/1.1 200 OK\r\n".to_string(),
            headers: vec![],
            body: Bytes::from(vec![0u8; large_size]),
            expires: u64::MAX,
        };
        cache.put(i as u64, response);
    }
    assert!(
        cache.total_size() <= MAX_CACHE_BYTES,
        "Cache memory limit must not be exceeded: {} > {}",
        cache.total_size(),
        MAX_CACHE_BYTES
    );
}

#[test]
fn prop_cache_expiration_invariant() {
    let mut cache = ProxyCache::new();
    let expired_response = CachedResponse {
        status_line: "HTTP/1.1 200 OK\r\n".to_string(),
        headers: vec![],
        body: Bytes::from("expired"),
        expires: 0,
    };
    cache.put(1, expired_response);
    let result = cache.get(1);
    assert!(result.is_none(), "Expired entries must not be returned");

    let valid_response = CachedResponse {
        status_line: "HTTP/1.1 200 OK\r\n".to_string(),
        headers: vec![],
        body: Bytes::from("valid"),
        expires: now_secs() + 3600,
    };
    cache.put(2, valid_response.clone());
    let result = cache.get(2);
    assert_eq!(result, Some(valid_response), "Valid entries must be returned");
}

#[test]
fn prop_cache_size_never_exceeds_limit() {
    let mut cache = ProxyCache::new();
    for i in 0..100 {
        let size = (i * 100_000) % (MAX_ENTRY_SIZE - 1000) + 1000;
        let response = CachedResponse {
            status_line: "HTTP/1.1 200 OK\r\n".to_string(),
            headers: vec!["Content-Type: text/html".to_string()],
            body: Bytes::from(vec![0u8; size]),
            expires: now_secs() + 3600,
        };
        let key = create_cache_key(&format!("test{i}.com"), 80, "/");
        let was_added = cache.put(key, response);
        assert!(was_added);
        assert!(cache.total_size() <= MAX_CACHE_BYTES);
    }
}

#[test]
fn interleaved_puts_and_gets_on_distinct_keys_keep_each_value() {
    let mut cache = ProxyCache::new();
    let n = 50usize;
    for i in 0..n {
        assert!(cache.put(i as u64, small(i)));
    }
    for i in 0..n {
        assert_eq!(cache.get(i as u64), Some(small(i)));
    }
    assert!(cache.len() >= 1 && cache.len() <= n);
    let expected: usize = (0..n)
        .map(|i| small(i).status_line.len() + small(i).body.len() + 8)
        .sum();
    assert_eq!(cache.total_size(), expected);
}

#[test]
fn default_cache_is_empty() {
    let cache = ProxyCache::default();
    assert!(cache.is_empty());
    assert_eq!(cache.total_size(), 0);
}

#[test]
fn prop_cache_operations() {
    let mut cache = ProxyCache::new();
    for i in 0..100 {
        let key = create_cache_key(&format!("test{i}.com"), 80, "/");
        let response = CachedResponse {
            status_line: "HTTP/1.1 200 OK\r\n".to_string(),
            headers: vec![],
            body: Bytes::from(format!("body{i}")),
            expires: now_secs() + 3600,
        };
        cache.put(key, response);
        assert!(cache.len() > 0);
        assert!(cache.len() <= 100);
    }
    cache.clear();
    assert_eq!(cache.len(), 0);
}
