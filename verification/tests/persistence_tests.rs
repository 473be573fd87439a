use invok_core::codec::{parse_metadata, parse_pool_state, render_metadata, render_pool_state};
use invok_core::container::{ContainerInfo, ContainerStatus};
use invok_core::persistence::{
    AutoscalerPersistence, PersistedContainerInfo, PersistedPoolState, PersistenceConfig,
    PersistenceMetadata,
};
use invok_core::pool::{ContainerPool, MonitoringConfig};

const NOW_MS: u64 = 120_000;
const NOW_UNIX: u64 = 1_703_001_234;

#[test]
fn test_container_info_conversion() {
    let original = ContainerInfo {
        id: "test-id".to_string(),
        name: "test-container".to_string(),
        container_port: 8080,
        status: ContainerStatus::Healthy,
        last_active: NOW_MS,
        idle_since: None,
    };

    let persisted = PersistedContainerInfo::from_container_info(&original, NOW_MS, NOW_UNIX);
    let converted = persisted.to_container_info(NOW_MS, NOW_UNIX);

    assert_eq!(original.id, converted.id);
    assert_eq!(original.name, converted.name);
    assert_eq!(original.container_port, converted.container_port);
    assert_eq!(original.status, converted.status);
}

#[test]
fn test_container_info_conversion_with_idle() {
    let original = ContainerInfo {
        id: "test-id-idle".to_string(),
        name: "test-container-idle".to_string(),
        container_port: 3000,
        status: ContainerStatus::Idle,
        last_active: NOW_MS,
        idle_since: Some(NOW_MS),
    };

    let persisted = PersistedContainerInfo::from_container_info(&original, NOW_MS, NOW_UNIX);
    let converted = persisted.to_container_info(NOW_MS, NOW_UNIX);

    assert_eq!(original.id, converted.id);
    assert_eq!(original.name, converted.name);
    assert_eq!(original.container_port, converted.container_port);
    assert_eq!(original.status, converted.status);
    assert!(converted.idle_since.is_some());
}

#[test]
fn test_persistence_config_default() {
    let config = PersistenceConfig::default();
    assert!(config.enabled);
    assert_eq!(config.redis_url, "redis://localhost:6379");
    assert_eq!(config.key_prefix, "autoscaler");
    assert_eq!(config.batch_size, 50);
}

fn sample_pool_state() -> PersistedPoolState {
    PersistedPoolState {
        function_name: "test-function".to_string(),
        containers: vec![PersistedContainerInfo {
            id: "container-1".to_string(),
            name: "test-container-1".to_string(),
            container_port: 8080,
            status: ContainerStatus::Healthy,
            last_active_unix: 1000,
            idle_since_unix: None,
        }],
        min_containers: 1,
        max_containers: 5,
        config: MonitoringConfig::default(),
        last_updated: 1_703_001_234,
    }
}

#[test]
fn test_pool_state_serialization() {
    let pool_state = sample_pool_state();

    let serialized = render_pool_state(&pool_state);
    let text = String::from_utf8(serialized.clone()).expect("Failed to serialize");
    assert!(text.contains("test-function"));
    assert!(text.contains("container-1"));

    let deserialized = parse_pool_state(&serialized).expect("Failed to deserialize");
    assert_eq!(deserialized.function_name, "test-function");
    assert_eq!(deserialized.containers.len(), 1);
    assert_eq!(deserialized.containers[0].id, "container-1");
    assert_eq!(deserialized.last_updated, 1_703_001_234);
}

#[test]
fn test_pool_state_roundtrip_with_idle_and_escapes() {
    let pool_state = PersistedPoolState {
        function_name: "with \"quotes\" and \\slashes\\".to_string(),
        containers: vec![
            PersistedContainerInfo {
                id: "id-a".to_string(),
                name: "n-a".to_string(),
                container_port: 8080,
                status: ContainerStatus::Idle,
                last_active_unix: -7,
                idle_since_unix: Some(42),
            },
            PersistedContainerInfo {
                id: "id-b".to_string(),
                name: "n-b".to_string(),
                container_port: 9000,
                status: ContainerStatus::Overloaded,
                last_active_unix: 0,
                idle_since_unix: None,
            },
        ],
        min_containers: 0,
        max_containers: 9,
        config: MonitoringConfig::default(),
        last_updated: 77,
    };
    let bytes = render_pool_state(&pool_state);
    let back = parse_pool_state(&bytes).expect("round trip");
    assert_eq!(back.function_name, pool_state.function_name);
    assert_eq!(back.containers.len(), 2);
    assert_eq!(back.containers[0].idle_since_unix, Some(42));
    assert_eq!(back.containers[0].last_active_unix, -7);
    assert_eq!(back.containers[0].status, ContainerStatus::Idle);
    assert_eq!(back.containers[1].status, ContainerStatus::Overloaded);
    assert_eq!(back.min_containers, 0);
    assert_eq!(back.max_containers, 9);
}

#[test]
fn test_parse_rejects_trailing_bytes() {
    let mut bytes = render_pool_state(&sample_pool_state());
    bytes.push(b' ');
    assert!(parse_pool_state(&bytes).is_none());
}

#[test]
fn test_metadata_creation() {
    let metadata = PersistenceMetadata::new(42, NOW_UNIX);
    assert_eq!(metadata.version, "1.0");
    assert_eq!(metadata.total_pools, 42);
    assert!(metadata.last_cleanup > 0);
}

#[test]
fn test_metadata_roundtrip() {
    let metadata = PersistenceMetadata::new(7, NOW_UNIX);
    let bytes = render_metadata(&metadata);
    let back = parse_metadata(&bytes).expect("round trip");
    assert_eq!(back.version, "1.0");
    assert_eq!(back.last_cleanup, NOW_UNIX as i64);
    assert_eq!(back.total_pools, 7);
}

#[test]
fn test_pool_keys_roundtrip() {
    let handler = AutoscalerPersistence::new(PersistenceConfig::default());
    let key = handler.pool_key("fn-a");
    assert_eq!(key, "autoscaler:pool:fn-a");
    assert_eq!(handler.metadata_key(), "autoscaler:metadata");
    assert_eq!(handler.strip_pool_key(&key), Some("fn-a".to_string()));
    assert_eq!(handler.strip_pool_key("autoscaler:metadata"), None);
    assert_eq!(handler.strip_pool_key("other:pool:fn-a"), None);
}

#[test]
fn test_extract_and_stale_keys() {
    let handler = AutoscalerPersistence::new(PersistenceConfig::default());
    let listed = vec![
        "autoscaler:pool:fn-a".to_string(),
        "autoscaler:metadata".to_string(),
        "autoscaler:pool:fn-b".to_string(),
    ];
    let extracted = handler.extract_function_keys(&listed);
    assert_eq!(extracted, vec!["fn-a".to_string(), "fn-b".to_string()]);

    let active = vec!["fn-b".to_string()];
    let stale = handler.stale_keys(&extracted, &active);
    assert_eq!(stale, vec!["fn-a".to_string()]);
}

#[test]
fn test_recovery_drops_vanished_containers() {
    // A persisted pool lists three containers but the engine confirms only
    // two: after validation the vanished record is gone and the pool is
    // adopted with the two that remain.
    let persisted = PersistedPoolState {
        function_name: "fn-a".to_string(),
        containers: ["id-1", "id-2", "id-3"]
            .iter()
            .map(|id| PersistedContainerInfo {
                id: id.to_string(),
                name: format!("c-{id}"),
                container_port: 8080,
                status: ContainerStatus::Healthy,
                last_active_unix: 1000,
                idle_since_unix: None,
            })
            .collect(),
        min_containers: 1,
        max_containers: 5,
        config: MonitoringConfig::default(),
        last_updated: 2000,
    };
    let mut pool = ContainerPool::from_persisted_state(&persisted, NOW_MS, NOW_UNIX);
    assert_eq!(pool.container_count(), 3);

    let running = vec!["id-1".to_string(), "id-3".to_string()];
    pool.validate_and_sync_containers(&running);
    assert_eq!(pool.container_count(), 2);
    assert!(pool.containers.iter().all(|c| c.id != "id-2"));

    let mut scaler = invok_core::autoscaler::Autoscaler::new(
        invok_core::autoscaler::AutoscalerConfig {
            monitoring: MonitoringConfig::default(),
            min_containers_per_function: 1,
            max_containers_per_function: 5,
            scale_check_interval_ms: 10_000,
        },
        "net".to_string(),
    );
    assert!(scaler.adopt_pool(pool));
    assert_eq!(scaler.pool_count(), 1);

    // A pool that lost every container is refused, so its stored state can
    // be deleted.
    let mut empty = ContainerPool::from_persisted_state(&persisted, NOW_MS, NOW_UNIX);
    empty.validate_and_sync_containers(&Vec::new());
    assert!(!scaler.adopt_pool(empty));
}
