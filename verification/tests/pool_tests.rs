use invok_core::autoscaler::{Autoscaler, AutoscalerConfig, DispatchPlan};
use invok_core::container::{ContainerInfo, ContainerStatus};
use invok_core::pool::{ContainerPool, MetricSample, MonitoringConfig};

fn test_monitoring() -> MonitoringConfig {
    MonitoringConfig {
        cpu_overload_threshold: 80_000,
        memory_overload_threshold: 80_000,
        cooldown_cpu_threshold: 0,
        cooldown_duration_ms: 60_000,
        poll_interval_ms: 10_000,
    }
}

fn test_autoscaler_config(min: usize, max: usize) -> AutoscalerConfig {
    AutoscalerConfig {
        monitoring: test_monitoring(),
        min_containers_per_function: min,
        max_containers_per_function: max,
        scale_check_interval_ms: 10_000,
    }
}

fn container(id: &str, now_ms: u64) -> ContainerInfo {
    ContainerInfo::new(id.to_string(), format!("c-{id}"), 8080, now_ms)
}

#[test]
fn test_empty_pool_has_no_signals() {
    let pool = ContainerPool::new("fn-a".to_string(), test_monitoring(), 0, 3);
    assert!(!pool.needs_scale_up());
    assert!(pool.get_healthiest_container(1_000).is_none());
    assert_eq!(pool.container_count(), 0);
}

#[test]
fn test_first_invocation_provisions() {
    // An empty pool with room: the dispatcher asks for a provision, and the
    // registered container comes back healthy and active.
    let mut scaler = Autoscaler::new(test_autoscaler_config(1, 3), "net".to_string());
    let idx = scaler.get_or_create_pool("a-deadbeef");
    assert_eq!(scaler.pool_count(), 1);
    let plan = scaler.dispatch_from_pool(idx, 1_000);
    assert!(matches!(plan, DispatchPlan::NeedsProvision));

    let accepted = scaler.register_provisioned(idx, container("id-1", 1_000), 1_500);
    assert!(accepted);
    assert_eq!(scaler.pools[idx].container_count(), 1);
    assert_eq!(scaler.pools[idx].containers[0].status, ContainerStatus::Healthy);
    assert_eq!(scaler.pools[idx].containers[0].last_active, 1_500);

    let persisted = scaler.pools[idx].to_persisted_state(2_000, 1_700_000_000);
    assert_eq!(persisted.containers.len(), 1);
    assert_eq!(persisted.function_name, "a-deadbeef");
}

#[test]
fn test_scale_up_under_sustained_overload() {
    // Two containers at 90% CPU and 10% memory against 80/80 thresholds:
    // the tick pushes both to overloaded and the pool asks to grow.
    let mut pool = ContainerPool::new("fn-a".to_string(), test_monitoring(), 1, 3);
    assert!(pool.insert_container(container("id-1", 1_000)));
    assert!(pool.insert_container(container("id-2", 1_000)));

    let samples = vec![
        MetricSample { container_id: "id-1".to_string(), cpu_usage: 90_000, memory_usage: 10_000 },
        MetricSample { container_id: "id-2".to_string(), cpu_usage: 90_000, memory_usage: 10_000 },
    ];
    pool.update_containers_metrics(&samples, 2_000);
    assert_eq!(pool.containers[0].status, ContainerStatus::Overloaded);
    assert_eq!(pool.containers[1].status, ContainerStatus::Overloaded);
    assert!(pool.needs_scale_up());

    assert!(pool.insert_container(container("id-3", 2_500)));
    assert_eq!(pool.container_count(), 3);
    assert!(!pool.needs_scale_up());
}

#[test]
fn test_cooldown_into_scale_down() {
    // Three idle containers, floor of one, 1 s cooldown: after two quiet
    // ticks 2 s apart the loop reaps exactly down to the floor.
    let mut monitoring = test_monitoring();
    monitoring.cooldown_duration_ms = 1_000;
    let config = AutoscalerConfig {
        monitoring,
        min_containers_per_function: 1,
        max_containers_per_function: 5,
        scale_check_interval_ms: 2_000,
    };
    let mut scaler = Autoscaler::new(config, "net".to_string());
    let idx = scaler.get_or_create_pool("fn-a");
    for id in ["id-1", "id-2", "id-3"] {
        assert!(scaler.register_provisioned(idx, container(id, 1_000), 1_000));
    }
    let quiet: Vec<MetricSample> = ["id-1", "id-2", "id-3"]
        .iter()
        .map(|id| MetricSample { container_id: id.to_string(), cpu_usage: 0, memory_usage: 0 })
        .collect();
    scaler.pools[idx].update_containers_metrics(&quiet, 2_000);
    let removed_first = scaler.check_and_scale_down_pool(idx, 2_000);
    // At the first tick nothing has finished its cooldown yet.
    assert!(removed_first.is_empty());
    scaler.pools[idx].update_containers_metrics(&quiet, 4_000);
    // Two seconds later all three are candidates: the loop removes down to
    // the floor, exactly two of them, and no further.
    assert_eq!(scaler.pools[idx].get_scaledown_candidates(4_000).len(), 3);
    let removed_second = scaler.check_and_scale_down_pool(idx, 4_000);
    assert_eq!(removed_second.len(), 2);
    assert_eq!(scaler.pools[idx].container_count(), 1);
}

#[test]
fn test_loop_never_removes_at_the_floor() {
    // The pool sits exactly at the floor with eligible idle containers: the
    // scale-down step must not touch it.
    let config = AutoscalerConfig {
        monitoring: MonitoringConfig { cooldown_duration_ms: 1_000, ..test_monitoring() },
        min_containers_per_function: 2,
        max_containers_per_function: 5,
        scale_check_interval_ms: 2_000,
    };
    let mut scaler = Autoscaler::new(config, "net".to_string());
    let idx = scaler.get_or_create_pool("fn-a");
    assert!(scaler.register_provisioned(idx, container("id-1", 1_000), 1_000));
    assert!(scaler.register_provisioned(idx, container("id-2", 1_000), 1_000));
    let samples = vec![
        MetricSample { container_id: "id-1".to_string(), cpu_usage: 0, memory_usage: 0 },
        MetricSample { container_id: "id-2".to_string(), cpu_usage: 0, memory_usage: 0 },
    ];
    scaler.pools[idx].update_containers_metrics(&samples, 2_000);
    assert_eq!(scaler.pools[idx].get_scaledown_candidates(10_000).len(), 2);
    let removed = scaler.check_and_scale_down_pool(idx, 10_000);
    assert!(removed.is_empty());
    assert_eq!(scaler.pools[idx].container_count(), 2);
}

#[test]
fn test_idle_safe_window_dispatch() {
    // A container that entered idle 200 ms ago with a 60 s cooldown is
    // dispatchable; the dispatch wakes it to healthy.
    let mut scaler = Autoscaler::new(test_autoscaler_config(1, 3), "net".to_string());
    let idx = scaler.get_or_create_pool("fn-a");
    assert!(scaler.register_provisioned(idx, container("id-1", 1_000), 1_000));
    let samples = vec![MetricSample {
        container_id: "id-1".to_string(),
        cpu_usage: 0,
        memory_usage: 0,
    }];
    scaler.pools[idx].update_containers_metrics(&samples, 1_800);
    assert_eq!(scaler.pools[idx].containers[0].status, ContainerStatus::Idle);

    let plan = scaler.dispatch_from_pool(idx, 2_000);
    match plan {
        DispatchPlan::UseExisting(d) => assert_eq!(d.container_id, "id-1"),
        _ => panic!("expected a dispatchable container"),
    }
    assert_eq!(scaler.pools[idx].containers[0].status, ContainerStatus::Healthy);
    assert!(scaler.pools[idx].containers[0].idle_since.is_none());
}

#[test]
fn test_max_saturation_serves_overloaded_last_resort() {
    // Size equals the ceiling and both containers are overloaded: dispatch
    // hands one of them out rather than failing or growing.
    let mut scaler = Autoscaler::new(test_autoscaler_config(1, 2), "net".to_string());
    let idx = scaler.get_or_create_pool("fn-a");
    assert!(scaler.register_provisioned(idx, container("id-1", 1_000), 1_000));
    assert!(scaler.register_provisioned(idx, container("id-2", 1_000), 1_000));
    let samples = vec![
        MetricSample { container_id: "id-1".to_string(), cpu_usage: 95_000, memory_usage: 10_000 },
        MetricSample { container_id: "id-2".to_string(), cpu_usage: 95_000, memory_usage: 10_000 },
    ];
    scaler.pools[idx].update_containers_metrics(&samples, 2_000);

    let plan = scaler.dispatch_from_pool(idx, 3_000);
    match plan {
        DispatchPlan::UseExisting(d) => {
            assert!(d.container_id == "id-1" || d.container_id == "id-2");
        },
        _ => panic!("expected an overloaded container as a last resort"),
    }
    assert_eq!(scaler.pools[idx].container_count(), 2);
}

#[test]
fn test_oldest_active_container_is_preferred() {
    let mut pool = ContainerPool::new("fn-a".to_string(), test_monitoring(), 1, 3);
    assert!(pool.insert_container(container("id-1", 5_000)));
    assert!(pool.insert_container(container("id-2", 3_000)));
    let picked = pool.get_healthiest_container(6_000).unwrap();
    assert_eq!(picked.container_id, "id-2");
}

#[test]
fn test_metrics_update_skips_containers_without_a_sample() {
    let mut pool = ContainerPool::new("fn-a".to_string(), test_monitoring(), 1, 3);
    assert!(pool.insert_container(container("id-1", 1_000)));
    assert!(pool.insert_container(container("id-2", 1_000)));
    let samples = vec![MetricSample {
        container_id: "id-1".to_string(),
        cpu_usage: 95_000,
        memory_usage: 10_000,
    }];
    pool.update_containers_metrics(&samples, 2_000);
    assert_eq!(pool.containers[0].status, ContainerStatus::Overloaded);
    // The container whose fetch failed keeps its previous record.
    assert_eq!(pool.containers[1].status, ContainerStatus::Healthy);
}

#[test]
fn test_pool_refuses_inserts_beyond_capacity() {
    let mut pool = ContainerPool::new("fn-a".to_string(), test_monitoring(), 0, 1);
    assert!(pool.insert_container(container("id-1", 1_000)));
    assert!(!pool.insert_container(container("id-2", 1_000)));
    assert_eq!(pool.container_count(), 1);
}

#[test]
fn test_get_status_counts() {
    let mut pool = ContainerPool::new("fn-a".to_string(), test_monitoring(), 1, 4);
    assert!(pool.insert_container(container("id-1", 1_000)));
    assert!(pool.insert_container(container("id-2", 1_000)));
    assert!(pool.insert_container(container("id-3", 1_000)));
    let samples = vec![
        MetricSample { container_id: "id-1".to_string(), cpu_usage: 95_000, memory_usage: 0 },
        MetricSample { container_id: "id-2".to_string(), cpu_usage: 0, memory_usage: 0 },
    ];
    pool.update_containers_metrics(&samples, 2_000);
    let status = pool.get_status();
    assert_eq!(status.function_name, "fn-a");
    assert_eq!(status.total_containers, 3);
    assert_eq!(status.healthy_containers, 1);
    assert_eq!(status.overloaded_containers, 1);
    assert_eq!(status.idle_containers, 1);
    assert_eq!(status.capacity_utilization_percentage, 75);
    assert!(status.can_scale_down);
    assert!(!status.needs_scale_up);
}

#[test]
fn test_get_status_scale_up_signal_follows_pool_rule() {
    // The snapshot reports the pool's own scale-up rule: every container
    // overloaded, below the ceiling, and not empty.
    let mut pool = ContainerPool::new("fn-a".to_string(), test_monitoring(), 1, 4);
    assert!(!pool.get_status().needs_scale_up);
    assert!(pool.insert_container(container("id-1", 1_000)));
    assert!(pool.insert_container(container("id-2", 1_000)));
    let samples = vec![
        MetricSample { container_id: "id-1".to_string(), cpu_usage: 95_000, memory_usage: 0 },
        MetricSample { container_id: "id-2".to_string(), cpu_usage: 0, memory_usage: 0 },
    ];
    pool.update_containers_metrics(&samples, 2_000);
    // One overloaded beside one idle: not every container is overloaded.
    assert!(!pool.get_status().needs_scale_up);
    let both = vec![
        MetricSample { container_id: "id-1".to_string(), cpu_usage: 95_000, memory_usage: 0 },
        MetricSample { container_id: "id-2".to_string(), cpu_usage: 95_000, memory_usage: 0 },
    ];
    pool.update_containers_metrics(&both, 3_000);
    assert!(pool.get_status().needs_scale_up);
    assert_eq!(pool.get_status().needs_scale_up, pool.needs_scale_up());
}

#[test]
fn test_remove_container_by_id() {
    let mut pool = ContainerPool::new("fn-a".to_string(), test_monitoring(), 0, 3);
    assert!(pool.insert_container(container("id-1", 1_000)));
    assert!(pool.insert_container(container("id-2", 1_000)));
    assert!(pool.remove_container("id-1"));
    assert!(!pool.remove_container("id-1"));
    assert_eq!(pool.container_count(), 1);
    assert_eq!(pool.containers[0].id, "id-2");
}
