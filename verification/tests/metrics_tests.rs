use invok_core::metrics::{
    backoff_ms, cpu_query, memory_query, metric_from_response, parse_metric_value, MetricsClient,
    MetricsConfig,
};

#[test]
fn test_metrics_config_default() {
    let config = MetricsConfig::default();
    assert_eq!(config.prometheus_url, "http://prometheus:9090");
    assert_eq!(config.query_timeout_ms, 5_000);
    assert_eq!(config.cache_ttl_ms, 5_000);
    assert_eq!(config.max_retries, 3);
}

#[test]
fn test_cache_operations() {
    let config = MetricsConfig::default();
    let mut client = MetricsClient::new(config);

    client.cache_cpu_metric("test-container", 50_000, 1_000);
    assert_eq!(client.get_cached_cpu("test-container", 1_500), Some(50_000));

    client.cache_memory_metric("test-container", 75_000, 1_000);
    assert_eq!(client.get_cached_memory("test-container", 1_500), Some(75_000));
}

#[test]
fn test_cache_expires_after_ttl() {
    let mut client = MetricsClient::new(MetricsConfig::default());
    client.cache_cpu_metric("c", 10_000, 1_000);
    assert_eq!(client.get_cached_cpu("c", 5_999), Some(10_000));
    assert_eq!(client.get_cached_cpu("c", 6_000), None);
    assert_eq!(client.get_cached_cpu("unknown", 1_000), None);
}

#[test]
fn test_cache_replaces_stale_entry() {
    let mut client = MetricsClient::new(MetricsConfig::default());
    client.cache_cpu_metric("c", 10_000, 1_000);
    client.cache_cpu_metric("c", 20_000, 2_000);
    assert_eq!(client.get_cached_cpu("c", 2_500), Some(20_000));
}

#[test]
fn test_nan_and_infinities_count_as_zero() {
    assert_eq!(parse_metric_value(&b"NaN".to_vec()), Some(0));
    assert_eq!(parse_metric_value(&b"+Inf".to_vec()), Some(0));
    assert_eq!(parse_metric_value(&b"-Inf".to_vec()), Some(0));
    assert_eq!(parse_metric_value(&b"Inf".to_vec()), Some(0));
}

#[test]
fn test_metric_values_parse_to_milli_percent() {
    assert_eq!(parse_metric_value(&b"12.34".to_vec()), Some(12_340));
    assert_eq!(parse_metric_value(&b"90".to_vec()), Some(90_000));
    assert_eq!(parse_metric_value(&b"0.5".to_vec()), Some(500));
    assert_eq!(parse_metric_value(&b"0.123456".to_vec()), Some(123));
    assert_eq!(parse_metric_value(&b"+3.25".to_vec()), Some(3_250));
    // Negative readings clamp to zero load.
    assert_eq!(parse_metric_value(&b"-5".to_vec()), Some(0));
    // Garbage is a parse failure, not zero.
    assert_eq!(parse_metric_value(&b"abc".to_vec()), None);
    assert_eq!(parse_metric_value(&b"1.2.3".to_vec()), None);
    assert_eq!(parse_metric_value(&b"".to_vec()), None);
}

#[test]
fn test_metric_from_response_cases() {
    assert!(metric_from_response(false, None).is_err());
    assert_eq!(metric_from_response(true, None).unwrap(), 0);
    assert_eq!(metric_from_response(true, Some(&b"42.5".to_vec())).unwrap(), 42_500);
    let err = metric_from_response(true, Some(&b"bogus".to_vec())).unwrap_err();
    assert!(err.message().starts_with("System Error:"));
}

#[test]
fn test_query_strings_use_short_container_id() {
    let id = "0123456789abcdef";
    let cpu = cpu_query(id).unwrap();
    assert_eq!(
        cpu,
        "rate(container_cpu_usage_seconds_total{id=~\"/docker/0123456789ab.*\"}[30s]) * 100"
    );
    let mem = memory_query(id).unwrap();
    assert_eq!(
        mem,
        "(container_memory_usage_bytes{id=~\"/docker/0123456789ab.*\"} / container_spec_memory_limit_bytes{id=~\"/docker/0123456789ab.*\"}) * 100"
    );
    assert!(cpu_query("short").is_none());
    assert!(memory_query("short").is_none());
}

#[test]
fn test_retry_backoff_is_linear() {
    assert_eq!(backoff_ms(1), 100);
    assert_eq!(backoff_ms(2), 200);
    assert_eq!(backoff_ms(3), 300);
}
