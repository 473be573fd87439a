use invok_core::container::{ContainerInfo, ContainerStatus};

fn test_container(now_ms: u64) -> ContainerInfo {
    ContainerInfo::new("test-id".to_string(), "test-name".to_string(), 0, now_ms)
}

#[test]
fn test_container_info_status_transitions() {
    let mut container = test_container(1_000);

    // Overload detection: 80% CPU, 75% memory against 70% thresholds.
    container.update_metrics(80_000, 75_000, 70_000, 70_000, 10_000, 2_000);
    assert_eq!(container.status, ContainerStatus::Overloaded);

    // Back to healthy: 50% CPU, 50% memory against 70% thresholds.
    container.update_metrics(50_000, 50_000, 70_000, 70_000, 10_000, 3_000);
    assert_eq!(container.status, ContainerStatus::Healthy);

    // Idle detection: 0% CPU against a 0% cooldown threshold.
    container.update_metrics(0, 30_000, 70_000, 70_000, 0, 4_000);
    assert_eq!(container.status, ContainerStatus::Idle);
    assert!(container.idle_since.is_some());
}

#[test]
fn test_container_active_marking() {
    let mut container = test_container(1_000);

    // Make the container idle: 5% CPU against a 10% cooldown threshold.
    container.update_metrics(5_000, 30_000, 70_000, 70_000, 10_000, 2_000);
    assert_eq!(container.status, ContainerStatus::Idle);

    // Marking it active wakes it back to healthy.
    container.mark_active(3_000);
    assert_eq!(container.status, ContainerStatus::Healthy);
    assert!(container.idle_since.is_none());
}

#[test]
fn test_cpu_exactly_at_overload_threshold_is_not_overloaded() {
    // The overload rule is strict: usage equal to the threshold stays
    // healthy.
    let mut container = test_container(1_000);
    container.update_metrics(80_000, 10_000, 80_000, 80_000, 0, 2_000);
    assert_eq!(container.status, ContainerStatus::Healthy);
    container.update_metrics(80_001, 10_000, 80_000, 80_000, 0, 3_000);
    assert_eq!(container.status, ContainerStatus::Overloaded);
}

#[test]
fn test_cpu_exactly_at_cooldown_threshold_is_idle() {
    // The idle rule is inclusive: usage equal to the cooldown threshold is
    // idle.
    let mut container = test_container(1_000);
    container.update_metrics(10_000, 5_000, 80_000, 80_000, 10_000, 2_000);
    assert_eq!(container.status, ContainerStatus::Idle);
    assert_eq!(container.idle_since, Some(2_000));
}

#[test]
fn test_idle_timer_kept_while_idle() {
    let mut container = test_container(1_000);
    container.update_metrics(0, 0, 80_000, 80_000, 10_000, 2_000);
    assert_eq!(container.idle_since, Some(2_000));
    // A second idle sample keeps the original timer.
    container.update_metrics(0, 0, 80_000, 80_000, 10_000, 5_000);
    assert_eq!(container.idle_since, Some(2_000));
}

#[test]
fn test_scaledown_eligibility_needs_full_cooldown() {
    let mut container = test_container(1_000);
    container.update_metrics(0, 0, 80_000, 80_000, 10_000, 2_000);
    assert!(!container.is_eligible_for_scaledown(60_000, 30_000));
    assert!(container.is_eligible_for_scaledown(60_000, 62_000));
}

#[test]
fn test_safe_window_dispatchability() {
    let mut container = test_container(1_000);
    // Idle since t = 2000 with a 60 s cooldown: safe until t = 57000.
    container.update_metrics(0, 0, 80_000, 80_000, 10_000, 2_000);
    assert!(container.is_within_safe_window(60_000, 2_200));
    assert!(container.is_within_safe_window(60_000, 57_000));
    assert!(!container.is_within_safe_window(60_000, 57_001));
    // A short cooldown leaves no safe window at all.
    assert!(!container.is_within_safe_window(4_000, 2_000));
}
