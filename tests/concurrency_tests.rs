use bytes::Bytes;
use rustysquid::{create_cache_key, CachedResponse, ProxyCache};
use std::sync::atomic::{AtomicUsize, Ordering};
use std::sync::Arc;
use std::time::{SystemTime, UNIX_EPOCH};
use tokio::sync::Mutex;

fn runtime() -> tokio::runtime::Runtime {
    tokio::runtime::Builder::new_multi_thread()
        .worker_threads(4)
        .enable_all()
        .build()
        .unwrap()
}

fn unix_secs() -> u64 {
    SystemTime::now()
        .duration_since(UNIX_EPOCH)
        .unwrap()
        .as_secs()
}

#[test]
fn test_concurrent_cache_access() {
    runtime().block_on(async {
        let cache = Arc::new(Mutex::new(ProxyCache::new()));
        let mut handles = vec![];
        for i in 0..50 {
            let cache_clone = cache.clone();
            handles.push(tokio::spawn(async move {
                let key = i as u64;
                let response = CachedResponse {
                    status_line: format!("HTTP/1.1 200 OK {}\r\n", i),
                    headers: vec![],
                    body: Bytes::from(format!("body {}", i)),
                    expires: u64::MAX,
                };
                for _ in 0..10 {
                    cache_clone.lock().await.put(key, response.clone());
                    cache_clone.lock().await.get(key);
                }
            }));
        }
        for handle in handles {
            handle.await.unwrap();
        }
        assert!(cache.lock().await.len() > 0);
        assert!(cache.lock().await.len() <= 50);
    });
}

#[test]
fn prop_concurrent_cache_safety() {
    runtime().block_on(async {
        let cache = Arc::new(Mutex::new(ProxyCache::new()));
        let mut handles = vec![];
        for i in 0..100 {
            let cache_clone = cache.clone();
            handles.push(tokio::spawn(async move {
                let key = create_cache_key(&format!("host{}.com", i), 80, "/");
                let response = CachedResponse {
                    status_line: format!("HTTP/1.1 200 OK {}\r\n", i),
                    headers: vec![],
                    body: Bytes::from(format!("body{}", i)),
                    expires: u64::MAX,
                };
                cache_clone.lock().await.put(key, response.clone());
                let retrieved = cache_clone.lock().await.get(key);
                assert_eq!(retrieved, Some(response), "Concurrent operations must be consistent");
            }));
        }
        for handle in handles {
            handle.await.unwrap();
        }
        assert!(cache.lock().await.len() > 0, "Cache should contain entries");
        assert!(cache.lock().await.total_size() > 0, "Cache should track size");
    });
}

#[test]
fn prop_cache_concurrent_safety() {
    runtime().block_on(async {
        let cache = Arc::new(Mutex::new(ProxyCache::new()));
        let mut handles = vec![];
        for i in 0..10 {
            let cache_clone = cache.clone();
            handles.push(tokio::spawn(async move {
                let key = create_cache_key(&format!("test{i}.com"), 80, "/");
                let response = CachedResponse {
                    status_line: "HTTP/1.1 200 OK\r\n".to_string(),
                    headers: vec![],
                    body: Bytes::from(format!("body{i}")),
                    expires: unix_secs() + 3600,
                };
                cache_clone.lock().await.put(key, response.clone());
                let retrieved = cache_clone.lock().await.get(key);
                assert_eq!(retrieved, Some(response));
            }));
        }
        for handle in handles {
            handle.await.unwrap();
        }
        assert!(cache.lock().await.len() >= 10);
    });
}

#[test]
fn concurrent_total_matches_surviving_entries() {
    runtime().block_on(async {
        let cache = Arc::new(Mutex::new(ProxyCache::new()));
        let mut handles = vec![];
        for i in 0..40usize {
            let cache_clone = cache.clone();
            handles.push(tokio::spawn(async move {
                let response = CachedResponse {
                    status_line: "HTTP/1.1 200 OK\r\n".to_string(),
                    headers: vec![format!("X-N: {}", i % 10)],
                    body: Bytes::from(vec![7u8; i]),
                    expires: u64::MAX,
                };
                cache_clone.lock().await.put(i as u64, response);
            }));
        }
        for handle in handles {
            handle.await.unwrap();
        }
        let guard = cache.lock().await;
        assert_eq!(guard.len(), 40);
        let expected: usize = (0..40usize).map(|i| 17 + 6 + i + 8).sum();
        assert_eq!(guard.total_size(), expected);
    });
}

#[test]
fn test_connection_lifecycle() {
    runtime().block_on(async {
        let counter = Arc::new(AtomicUsize::new(0));
        let mut handles = vec![];
        for i in 0..10 {
            let counter_clone = counter.clone();
            handles.push(tokio::spawn(async move {
                counter_clone.fetch_add(1, Ordering::Relaxed);
                tokio::time::sleep(tokio::time::Duration::from_millis(10)).await;
                counter_clone.fetch_sub(1, Ordering::Relaxed);
                i
            }));
        }
        for handle in handles {
            handle.await.unwrap();
        }
        assert_eq!(counter.load(Ordering::Relaxed), 0);
    });
}
