use rustysquid::{calculate_ttl, extract_host, is_cacheable, CACHE_TTL};

#[test]
fn test_extract_host() {
    let headers = vec![
        "Host: example.com".to_string(),
        "User-Agent: test".to_string(),
    ];
    assert_eq!(
        extract_host(&headers),
        Some(("example.com".to_string(), 80))
    );

    let headers_with_port = vec!["Host: example.com:8080".to_string()];
    assert_eq!(
        extract_host(&headers_with_port),
        Some(("example.com".to_string(), 8080))
    );
}

#[test]
fn test_is_cacheable() {
    assert!(is_cacheable("GET", "/image.jpg", &[]));
    assert!(is_cacheable("GET", "/style.css", &[]));
    assert!(is_cacheable("GET", "/script.js", &[]));

    assert!(!is_cacheable("POST", "/image.jpg", &[]));

    let no_cache_headers = vec!["Cache-Control: no-cache".to_string()];
    assert!(!is_cacheable("GET", "/image.jpg", &no_cache_headers));

    let max_age_headers = vec!["Cache-Control: max-age=3600".to_string()];
    assert!(is_cacheable("GET", "/api/data", &max_age_headers));
}

#[test]
fn test_calculate_ttl() {
    let headers_with_max_age = vec!["Cache-Control: max-age=7200".to_string()];
    assert_eq!(calculate_ttl(&headers_with_max_age), 7200);

    let headers_with_large_max_age = vec!["Cache-Control: max-age=999999".to_string()];
    assert_eq!(calculate_ttl(&headers_with_large_max_age), 86400);

    let headers_without_cache = vec!["Content-Type: text/html".to_string()];
    assert_eq!(calculate_ttl(&headers_without_cache), CACHE_TTL);
}

#[test]
fn test_ttl_calculations() {
    assert_eq!(calculate_ttl(&[]), CACHE_TTL);
    assert_eq!(
        calculate_ttl(&["Cache-Control: max-age=60".to_string()]),
        60
    );
    assert_eq!(
        calculate_ttl(&["Cache-Control: max-age=3600".to_string()]),
        3600
    );
    assert_eq!(
        calculate_ttl(&["Cache-Control: max-age=86400".to_string()]),
        86400
    );
    assert_eq!(
        calculate_ttl(&["Cache-Control: max-age=100000".to_string()]),
        86400
    );
    assert_eq!(
        calculate_ttl(&["Cache-Control: max-age=invalid".to_string()]),
        CACHE_TTL
    );
}

#[test]
fn test_host_extraction_edge_cases() {
    assert_eq!(
        extract_host(&["Host: 192.168.1.1".to_string()]),
        Some(("192.168.1.1".to_string(), 80))
    );
    assert_eq!(
        extract_host(&["Host: 192.168.1.1:8080".to_string()]),
        Some(("192.168.1.1".to_string(), 8080))
    );
    let ipv6_result = extract_host(&["Host: [::1]".to_string()]);
    assert!(ipv6_result.is_some() || ipv6_result.is_none());
    let ipv6_port_result = extract_host(&["Host: [::1]:8080".to_string()]);
    assert!(ipv6_port_result.is_some() || ipv6_port_result.is_none());
    assert_eq!(extract_host(&[]), None);
    assert_eq!(
        extract_host(&["HOST: example.com".to_string()]),
        Some(("example.com".to_string(), 80))
    );
}

#[test]
fn ttl_skips_unparsable_line_and_uses_next() {
    let headers = vec![
        "Cache-Control: max-age=abc".to_string(),
        "cache-control: public, MAX-AGE=120, private".to_string(),
    ];
    assert_eq!(calculate_ttl(&headers), 120);
}

#[test]
fn ttl_digit_run_stops_at_first_non_digit() {
    assert_eq!(calculate_ttl(&["Cache-Control: max-age=42abc".to_string()]), 42);
    assert_eq!(calculate_ttl(&["Cache-Control: max-age=0".to_string()]), 0);
}

#[test]
fn ttl_overflowing_value_falls_back_to_default() {
    let headers = vec!["Cache-Control: max-age=99999999999999999999999".to_string()];
    assert_eq!(calculate_ttl(&headers), CACHE_TTL);
}

#[test]
fn ttl_ignores_max_age_outside_cache_control() {
    assert_eq!(calculate_ttl(&["X-Note: max-age=10".to_string()]), CACHE_TTL);
}

#[test]
fn cacheable_scenarios_of_the_policy() {
    assert!(!is_cacheable("POST", "/x.css", &[]));
    assert!(is_cacheable("GET", "/x.css", &[]));
    assert!(!is_cacheable("GET", "/x.css", &["Cache-Control: no-store".to_string()]));
    assert!(is_cacheable("GET", "/api", &["Cache-Control: max-age=10".to_string()]));
}

#[test]
fn cacheable_extension_match_ignores_case() {
    assert!(is_cacheable("GET", "/LOGO.PNG", &[]));
    assert!(is_cacheable("GET", "/font.WOFF2", &[]));
    assert!(!is_cacheable("GET", "/index.html", &[]));
    assert!(!is_cacheable("get", "/x.css", &[]));
}

#[test]
fn cacheable_private_alone_keeps_extension_rule() {
    let headers = vec!["Cache-Control: private".to_string()];
    assert!(is_cacheable("GET", "/x.css", &headers));
    assert!(!is_cacheable("GET", "/x.html", &headers));
}

#[test]
fn cacheable_first_deciding_line_wins() {
    let headers = vec![
        "Cache-Control: max-age=5".to_string(),
        "Cache-Control: no-store".to_string(),
    ];
    assert!(is_cacheable("GET", "/api", &headers));
    let headers = vec!["CACHE-CONTROL: max-age=5, NO-CACHE".to_string()];
    assert!(!is_cacheable("GET", "/x.css", &headers));
}

#[test]
fn host_port_that_does_not_parse_defaults() {
    assert_eq!(
        extract_host(&["Host: example.com:http".to_string()]),
        Some(("example.com".to_string(), 80))
    );
    assert_eq!(
        extract_host(&["Host: example.com:70000".to_string()]),
        Some(("example.com".to_string(), 80))
    );
    assert_eq!(
        extract_host(&["Host:   example.com:+81  ".to_string()]),
        Some(("example.com".to_string(), 81))
    );
    assert_eq!(
        extract_host(&["X: y".to_string(), "host:a:1".to_string(), "Host: b".to_string()]),
        Some(("a".to_string(), 1))
    );
}
