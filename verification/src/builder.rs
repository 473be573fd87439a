use vstd::prelude::*;
use crate::autoscaler::{Autoscaler, AutoscalerConfig};
use crate::metrics::{MetricsClient, MetricsConfig};
use crate::persistence::{AutoscalerPersistence, PersistenceConfig};
use crate::pool::MonitoringConfig;

verus! {

/// The configured runtime: the autoscaler and the two collaborator-facing
/// handlers, ready for the caller to wire to a live engine, metrics store
/// and key-value store.
pub struct AutoscalingRuntime {
    pub autoscaler: Autoscaler,
    pub persistence: AutoscalerPersistence,
    pub metrics: MetricsClient,
}

impl AutoscalingRuntime {
    /// The autoscaler inside the runtime.
    pub fn autoscaler(&self) -> (r: &Autoscaler)
        ensures
            *r == self.autoscaler,
    {
        &self.autoscaler
    }
}

/// Builder for the autoscaling runtime; every option has a default.
pub struct AutoscalingRuntimeBuilder {
    pub docker_compose_network_host: Option<String>,
    pub scale_check_interval_ms: Option<u64>,
    pub min_containers_per_function: Option<usize>,
    pub max_containers_per_function: Option<usize>,
    pub persistence_enabled: Option<bool>,
    pub redis_url: Option<String>,
    pub persistence_key_prefix: Option<String>,
    pub persistence_batch_size: Option<usize>,
    pub cpu_overload_threshold: Option<u64>,
    pub memory_overload_threshold: Option<u64>,
    pub cooldown_cpu_threshold: Option<u64>,
    pub cooldown_duration_ms: Option<u64>,
}

impl AutoscalingRuntimeBuilder {
    /// A builder with nothing chosen yet.
    pub fn new() -> (r: Self)
        ensures
            r.docker_compose_network_host is None,
            r.scale_check_interval_ms is None,
            r.min_containers_per_function is None,
            r.max_containers_per_function is None,
            r.persistence_enabled is None,
            r.redis_url is None,
            r.persistence_key_prefix is None,
            r.persistence_batch_size is None,
            r.cpu_overload_threshold is None,
            r.memory_overload_threshold is None,
            r.cooldown_cpu_threshold is None,
            r.cooldown_duration_ms is None,
    {
        AutoscalingRuntimeBuilder {
            docker_compose_network_host: None,
            scale_check_interval_ms: None,
            min_containers_per_function: None,
            max_containers_per_function: None,
            persistence_enabled: None,
            redis_url: None,
            persistence_key_prefix: None,
            persistence_batch_size: None,
            cpu_overload_threshold: None,
            memory_overload_threshold: None,
            cooldown_cpu_threshold: None,
            cooldown_duration_ms: None,
        }
    }

    /// CPU usage above which a container counts as overloaded, in
    /// milli-percent.
    pub fn cpu_overload_threshold(self, threshold: u64) -> (r: Self)
        ensures
            r == (Self { cpu_overload_threshold: Some(threshold), ..self }),
    {
        Self { cpu_overload_threshold: Some(threshold), ..self }
    }

    /// Memory usage above which a container counts as overloaded, in
    /// milli-percent.
    pub fn memory_overload_threshold(self, threshold: u64) -> (r: Self)
        ensures
            r == (Self { memory_overload_threshold: Some(threshold), ..self }),
    {
        Self { memory_overload_threshold: Some(threshold), ..self }
    }

    /// CPU usage at or below which a container counts as idle, in
    /// milli-percent.
    pub fn cooldown_cpu_threshold(self, threshold: u64) -> (r: Self)
        ensures
            r == (Self { cooldown_cpu_threshold: Some(threshold), ..self }),
    {
        Self { cooldown_cpu_threshold: Some(threshold), ..self }
    }

    /// How long a container must stay idle before it may be scaled down.
    pub fn cooldown_duration_ms(self, duration_ms: u64) -> (r: Self)
        ensures
            r == (Self { cooldown_duration_ms: Some(duration_ms), ..self }),
    {
        Self { cooldown_duration_ms: Some(duration_ms), ..self }
    }

    /// The network containers are attached to.
    pub fn docker_compose_network_host(self, host: String) -> (r: Self)
        ensures
            r == (Self { docker_compose_network_host: Some(host), ..self }),
    {
        Self { docker_compose_network_host: Some(host), ..self }
    }

    /// Period of the scaling loop.
    pub fn scale_check_interval_ms(self, interval_ms: u64) -> (r: Self)
        ensures
            r == (Self { scale_check_interval_ms: Some(interval_ms), ..self }),
    {
        Self { scale_check_interval_ms: Some(interval_ms), ..self }
    }

    /// Capacity floor per function.
    pub fn min_containers_per_function(self, min: usize) -> (r: Self)
        ensures
            r == (Self { min_containers_per_function: Some(min), ..self }),
    {
        Self { min_containers_per_function: Some(min), ..self }
    }

    /// Capacity ceiling per function.
    pub fn max_containers_per_function(self, max: usize) -> (r: Self)
        ensures
            r == (Self { max_containers_per_function: Some(max), ..self }),
    {
        Self { max_containers_per_function: Some(max), ..self }
    }

    /// Whether pool state is persisted at all.
    pub fn persistence_enabled(self, enabled: bool) -> (r: Self)
        ensures
            r == (Self { persistence_enabled: Some(enabled), ..self }),
    {
        Self { persistence_enabled: Some(enabled), ..self }
    }

    /// Address of the key-value store.
    pub fn redis_url(self, url: String) -> (r: Self)
        ensures
            r == (Self { redis_url: Some(url), ..self }),
    {
        Self { redis_url: Some(url), ..self }
    }

    /// Namespace the persisted keys are written under.
    pub fn persistence_key_prefix(self, prefix: String) -> (r: Self)
        ensures
            r == (Self { persistence_key_prefix: Some(prefix), ..self }),
    {
        Self { persistence_key_prefix: Some(prefix), ..self }
    }

    /// How many pools are loaded in parallel during recovery.
    pub fn persistence_batch_size(self, batch_size: usize) -> (r: Self)
        ensures
            r == (Self { persistence_batch_size: Some(batch_size), ..self }),
    {
        Self { persistence_batch_size: Some(batch_size), ..self }
    }

    /// Assemble the runtime: every unset option takes its default — network
    /// `host.docker.internal`, a 10 s loop, bounds 1 to 10, thresholds 80%
    /// CPU and memory, idle at 0% CPU, 60 s of cooldown, persistence on
    /// against a local store under the `autoscaler` namespace in batches of
    /// fifty, and a 3 s metrics timeout with a 5 s cache.  Fails when the
    /// chosen floor exceeds the chosen ceiling.
    pub fn build(self) -> (r: Result<AutoscalingRuntime, crate::errors::RuntimeError>)
        ensures
            ({
                let min = if self.min_containers_per_function is Some {
                    self.min_containers_per_function->0
                } else {
                    1usize
                };
                let max = if self.max_containers_per_function is Some {
                    self.max_containers_per_function->0
                } else {
                    10usize
                };
                match r {
                    Ok(rt) => {
                        &&& min <= max
                        &&& rt.autoscaler@.pools.len() == 0
                        &&& rt.autoscaler@.config.min_containers_per_function == min
                        &&& rt.autoscaler@.config.max_containers_per_function == max
                        &&& rt.autoscaler@.config.scale_check_interval_ms == (
                        if self.scale_check_interval_ms is Some {
                            self.scale_check_interval_ms->0
                        } else {
                            10000u64
                        })
                        &&& rt.autoscaler@.config.monitoring.cpu_overload_threshold == (
                        if self.cpu_overload_threshold is Some {
                            self.cpu_overload_threshold->0
                        } else {
                            80000u64
                        })
                        &&& rt.autoscaler@.config.monitoring.memory_overload_threshold == (
                        if self.memory_overload_threshold is Some {
                            self.memory_overload_threshold->0
                        } else {
                            80000u64
                        })
                        &&& rt.autoscaler@.config.monitoring.cooldown_cpu_threshold == (
                        if self.cooldown_cpu_threshold is Some {
                            self.cooldown_cpu_threshold->0
                        } else {
                            0u64
                        })
                        &&& rt.autoscaler@.config.monitoring.cooldown_duration_ms == (
                        if self.cooldown_duration_ms is Some {
                            self.cooldown_duration_ms->0
                        } else {
                            60000u64
                        })
                        &&& rt.autoscaler@.docker_compose_network_host == (
                        if self.docker_compose_network_host is Some {
                            self.docker_compose_network_host->0@
                        } else {
                            "host.docker.internal"@
                        })
                        &&& rt.persistence.config.enabled == (
                        if self.persistence_enabled is Some {
                            self.persistence_enabled->0
                        } else {
                            true
                        })
                        &&& rt.persistence.config.redis_url@ == (
                        if self.redis_url is Some {
                            self.redis_url->0@
                        } else {
                            "redis://localhost:6379"@
                        })
                        &&& rt.persistence.config.key_prefix@ == (
                        if self.persistence_key_prefix is Some {
                            self.persistence_key_prefix->0@
                        } else {
                            "autoscaler"@
                        })
                        &&& rt.persistence.config.batch_size == (
                        if self.persistence_batch_size is Some {
                            self.persistence_batch_size->0
                        } else {
                            50usize
                        })
                        &&& rt.metrics.config.prometheus_url@ == "http://prometheus:9090"@
                        &&& rt.metrics.config.query_timeout_ms == 3000
                        &&& rt.metrics.config.cache_ttl_ms == 5000
                        &&& rt.metrics.config.max_retries == 3
                    },
                    Err(e) => min > max && e is Exec,
                }
            }),
    {
        let docker_compose_network_host = match self.docker_compose_network_host {
            Some(h) => h,
            None => String::from_str("host.docker.internal"),
        };
        let scale_check_interval_ms = match self.scale_check_interval_ms {
            Some(v) => v,
            None => 10000,
        };
        let min_containers = match self.min_containers_per_function {
            Some(v) => v,
            None => 1,
        };
        let max_containers = match self.max_containers_per_function {
            Some(v) => v,
            None => 10,
        };
        if min_containers > max_containers {
            return Err(
                crate::errors::RuntimeError::Exec(
                    String::from_str("the capacity floor exceeds the ceiling"),
                ),
            );
        }
        let monitoring = MonitoringConfig {
            cpu_overload_threshold: match self.cpu_overload_threshold {
                Some(v) => v,
                None => 80000,
            },
            memory_overload_threshold: match self.memory_overload_threshold {
                Some(v) => v,
                None => 80000,
            },
            cooldown_cpu_threshold: match self.cooldown_cpu_threshold {
                Some(v) => v,
                None => 0,
            },
            cooldown_duration_ms: match self.cooldown_duration_ms {
                Some(v) => v,
                None => 60000,
            },
            poll_interval_ms: scale_check_interval_ms,
        };
        let autoscaler_config = AutoscalerConfig {
            monitoring,
            min_containers_per_function: min_containers,
            max_containers_per_function: max_containers,
            scale_check_interval_ms,
        };
        let persistence_config = PersistenceConfig {
            enabled: match self.persistence_enabled {
                Some(v) => v,
                None => true,
            },
            redis_url: match self.redis_url {
                Some(u) => u,
                None => String::from_str("redis://localhost:6379"),
            },
            key_prefix: match self.persistence_key_prefix {
                Some(p) => p,
                None => String::from_str("autoscaler"),
            },
            batch_size: match self.persistence_batch_size {
                Some(v) => v,
                None => 50,
            },
        };
        let metrics_config = MetricsConfig {
            prometheus_url: String::from_str("http://prometheus:9090"),
            query_timeout_ms: 3000,
            cache_ttl_ms: 5000,
            max_retries: 3,
        };
        Ok(
            AutoscalingRuntime {
                autoscaler: Autoscaler::new(autoscaler_config, docker_compose_network_host),
                persistence: AutoscalerPersistence::new(persistence_config),
                metrics: MetricsClient::new(metrics_config),
            },
        )
    }
}

} // verus!
