use std::time::Duration;
use lms_server::rate_limit::{
    first_forwarded_address, init_rate_limiter, is_rate_limiting_enabled, limited_retry_seconds, rate_limit_message,
    ClientAddr, RateLimitConfig, RateLimitResult, RateLimiter, TokenBucket,
};

#[test]
fn test_token_bucket() {
    let config = RateLimitConfig {
        requests_per_minute: 60,
        burst_size: 5,
        window: Duration::from_secs(60),
    };

    let mut bucket = TokenBucket::new(&config);

    for _ in 0..5 {
        assert!(bucket.try_consume());
    }

    assert!(!bucket.try_consume());
}

#[test]
fn test_rate_limiter() {
    let config = RateLimitConfig {
        requests_per_minute: 60,
        burst_size: 3,
        window: Duration::from_secs(60),
    };

    let mut limiter = RateLimiter::new(config);
    let ip = ClientAddr { is_ipv6: false, bits: u32::from_be_bytes([192, 168, 1, 1]) as u128 };

    for _ in 0..3 {
        assert!(matches!(limiter.check(ip), RateLimitResult::Allowed { .. }));
    }

    assert!(matches!(limiter.check(ip), RateLimitResult::Limited { .. }));
}

#[test]
fn test_config_from_env() {
    let config = RateLimitConfig::from_env_values(None, None);
    assert_eq!(config.requests_per_minute, 60);
    assert_eq!(config.burst_size, 10);
}

#[test]
fn config_values_are_parsed_or_defaulted() {
    let c = RateLimitConfig::from_env_values(Some("120"), Some("+7"));
    assert_eq!(c.requests_per_minute, 120);
    assert_eq!(c.burst_size, 7);
    let d = RateLimitConfig::from_env_values(Some("abc"), Some("99999999999"));
    assert_eq!(d.requests_per_minute, 60);
    assert_eq!(d.burst_size, 10);
    let e = RateLimitConfig::default();
    assert_eq!(e.requests_per_minute, 60);
    assert_eq!(e.burst_size, 10);
}

#[test]
fn bucket_refills_with_time() {
    let config = RateLimitConfig { requests_per_minute: 60, burst_size: 1, window: Duration::from_secs(60) };
    let mut bucket = TokenBucket::new(&config);
    assert!(bucket.consume_after(0));
    assert!(!bucket.consume_after(500_000_000));
    assert!(bucket.consume_after(500_000_000));
    assert_eq!(bucket.tokens_remaining(), 0);
}

#[test]
fn allowed_reports_remaining_and_limited_reports_wait() {
    let config = RateLimitConfig { requests_per_minute: 60, burst_size: 2, window: Duration::from_secs(60) };
    let mut limiter = RateLimiter::new(config);
    let ip = ClientAddr { is_ipv6: true, bits: 1 };
    match limiter.check(ip) {
        RateLimitResult::Allowed { remaining, limit } => {
            assert_eq!(remaining, 1);
            assert_eq!(limit, 60);
        }
        _ => panic!("first request must pass"),
    }
    assert!(matches!(limiter.check(ip), RateLimitResult::Allowed { remaining: 0, limit: 60 }));
    match limiter.check(ip) {
        RateLimitResult::Limited { retry_after_nanos, limit } => {
            assert_eq!(limit, 60);
            assert!(retry_after_nanos > 0 && retry_after_nanos <= 1_000_000_000);
        }
        _ => panic!("third request must be limited"),
    }
    let other = ClientAddr { is_ipv6: false, bits: 1 };
    assert!(matches!(limiter.check(other), RateLimitResult::Allowed { .. }));
}

#[test]
fn limiter_slot_depends_on_rate() {
    let mut slot: Option<RateLimiter> = None;
    let off = RateLimitConfig { requests_per_minute: 0, burst_size: 3, window: Duration::from_secs(60) };
    assert!(!init_rate_limiter(&mut slot, off));
    assert!(!is_rate_limiting_enabled(&slot));
    let on = RateLimitConfig { requests_per_minute: 5, burst_size: 3, window: Duration::from_secs(60) };
    assert!(init_rate_limiter(&mut slot, on));
    assert!(is_rate_limiting_enabled(&slot));
}

#[test]
fn forwarded_header_and_retry_message() {
    assert_eq!(first_forwarded_address(" 10.0.0.1 , 10.0.0.2"), "10.0.0.1");
    assert_eq!(first_forwarded_address("::1"), "::1");
    assert_eq!(first_forwarded_address(""), "");
    assert_eq!(limited_retry_seconds(0), 1);
    assert_eq!(limited_retry_seconds(2_999_999_999), 2);
    assert_eq!(rate_limit_message(3), "Rate limit exceeded. Retry after 3 seconds.");
}
