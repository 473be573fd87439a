use invok_core::autoscaler::{Autoscaler, AutoscalerConfig};
use invok_core::builder::AutoscalingRuntimeBuilder;
use invok_core::logs::LogMessage;
use invok_core::pool::MonitoringConfig;

#[test]
fn builder_test_builder_pattern() {
    let runtime = AutoscalingRuntimeBuilder::new()
        .docker_compose_network_host("test-network".to_string())
        .min_containers_per_function(2)
        .max_containers_per_function(20)
        .build()
        .unwrap();

    assert_eq!(runtime.autoscaler().get_config().min_containers_per_function, 2);
    assert_eq!(runtime.autoscaler().get_config().max_containers_per_function, 20);
    assert_eq!(runtime.autoscaler.docker_compose_network_host, "test-network");
}

#[test]
fn test_builder_defaults() {
    let runtime = AutoscalingRuntimeBuilder::new().build().unwrap();
    let config = runtime.autoscaler.get_config();
    assert_eq!(config.min_containers_per_function, 1);
    assert_eq!(config.max_containers_per_function, 10);
    assert_eq!(config.scale_check_interval_ms, 10_000);
    assert_eq!(config.monitoring.cpu_overload_threshold, 80_000);
    assert_eq!(config.monitoring.memory_overload_threshold, 80_000);
    assert_eq!(config.monitoring.cooldown_cpu_threshold, 0);
    assert_eq!(config.monitoring.cooldown_duration_ms, 60_000);
    assert_eq!(runtime.autoscaler.docker_compose_network_host, "host.docker.internal");
    assert!(runtime.persistence.is_enabled());
    assert_eq!(runtime.persistence.config.redis_url, "redis://localhost:6379");
    assert_eq!(runtime.persistence.config.key_prefix, "autoscaler");
    assert_eq!(runtime.persistence.config.batch_size, 50);
    assert_eq!(runtime.metrics.config.query_timeout_ms, 3_000);
}

#[test]
fn test_builder_rejects_floor_above_ceiling() {
    let result = AutoscalingRuntimeBuilder::new()
        .min_containers_per_function(5)
        .max_containers_per_function(2)
        .build();
    assert!(result.is_err());
}

fn create_test_config() -> AutoscalerConfig {
    AutoscalerConfig {
        monitoring: MonitoringConfig {
            cpu_overload_threshold: 70_000,
            memory_overload_threshold: 70_000,
            cooldown_cpu_threshold: 100,
            cooldown_duration_ms: 30_000,
            poll_interval_ms: 2_000,
        },
        min_containers_per_function: 1,
        max_containers_per_function: 5,
        scale_check_interval_ms: 10_000,
    }
}

#[test]
fn test_autoscaler_creation() {
    let autoscaler = Autoscaler::new(create_test_config(), "test-network".to_string());
    assert_eq!(autoscaler.pool_count(), 0);
}

#[test]
fn test_pool_creation() {
    let mut autoscaler = Autoscaler::new(create_test_config(), "test-network".to_string());

    let idx = autoscaler.get_or_create_pool("test-function");
    assert_eq!(autoscaler.pools[idx].get_function_name(), "test-function");
    assert_eq!(autoscaler.pool_count(), 1);

    // Asking for the same pool again returns the existing one.
    let idx2 = autoscaler.get_or_create_pool("test-function");
    assert_eq!(idx, idx2);
    assert_eq!(autoscaler.pool_count(), 1);
}

#[test]
fn test_log_message_text() {
    assert_eq!(LogMessage::Content("line".to_string()).event_text(), "line");
    assert_eq!(LogMessage::Error("lost".to_string()).event_text(), "ERROR: lost");
    assert_eq!(LogMessage::End.event_text(), "Log stream ended");
}
