use vstd::prelude::*;

verus! {

/// CPU and memory usage, and the thresholds they are compared against, are
/// measured in thousandths of a percent ("milli-percent"): `80_000` stands
/// for 80%.
pub type MilliPercent = u64;

/// Width of the safe window, in milliseconds: an idle container may still be
/// dispatched to while at least this much of its cooldown is left.
pub const SAFE_WINDOW_MS: u64 = 5000;

/// Observable state of a worker container.
#[derive(Clone, Copy, Debug, PartialEq, Eq, Structural, Hash)]
pub enum ContainerStatus {
    /// The container can accept new requests.
    Healthy,
    /// The container is overloaded and should not receive new requests.
    Overloaded,
    /// The container is idle and a candidate for scale-down.
    Idle,
}

/// Mathematical image of a container record.
pub ghost struct ContainerView {
    pub id: Seq<char>,
    pub name: Seq<char>,
    pub container_port: u32,
    pub status: ContainerStatus,
    pub last_active: u64,
    pub idle_since: Option<u64>,
}

/// One container owned by a pool.  Timestamps are milliseconds on the
/// caller's monotonic clock; every method that reads the clock takes the
/// current reading as `now_ms`.
pub struct ContainerInfo {
    /// Identifier assigned by the container engine.
    pub id: String,
    /// Stable human-readable name, unique within the engine.
    pub name: String,
    /// TCP port exposed inside the container.
    pub container_port: u32,
    /// Current state.
    pub status: ContainerStatus,
    /// When the container last handled a request.
    pub last_active: u64,
    /// When the container entered `Idle`; present exactly while it is idle.
    pub idle_since: Option<u64>,
}

impl View for ContainerInfo {
    type V = ContainerView;

    open spec fn view(&self) -> ContainerView {
        ContainerView {
            id: self.id@,
            name: self.name@,
            container_port: self.container_port,
            status: self.status,
            last_active: self.last_active,
            idle_since: self.idle_since,
        }
    }
}

impl ContainerView {
    /// The record's internal invariant: the idle timer runs exactly while
    /// the container is idle.
    pub open spec fn wf(self) -> bool {
        self.idle_since is Some <==> self.status is Idle
    }

    /// All timestamps lie at or before the given clock reading.
    pub open spec fn timestamps_at_most(self, now_ms: u64) -> bool {
        &&& self.last_active <= now_ms
        &&& (self.idle_since is Some ==> self.idle_since->0 <= now_ms)
    }
}

/// The status a container moves to for a metrics sample: overloaded when
/// either usage strictly exceeds its threshold, idle when CPU is at or below
/// the cooldown threshold, healthy otherwise.
pub open spec fn spec_status_after(
    cpu: MilliPercent,
    mem: MilliPercent,
    cpu_threshold: MilliPercent,
    mem_threshold: MilliPercent,
    cooldown_cpu_threshold: MilliPercent,
) -> ContainerStatus {
    if cpu > cpu_threshold || mem > mem_threshold {
        ContainerStatus::Overloaded
    } else if cpu <= cooldown_cpu_threshold {
        ContainerStatus::Idle
    } else {
        ContainerStatus::Healthy
    }
}

/// The full record after a metrics sample is applied: the status moves per
/// `spec_status_after`; the idle timer starts on the transition into `Idle`,
/// keeps its value while the container stays idle, and is cleared otherwise.
pub open spec fn spec_update_metrics(
    c: ContainerView,
    cpu: MilliPercent,
    mem: MilliPercent,
    cpu_threshold: MilliPercent,
    mem_threshold: MilliPercent,
    cooldown_cpu_threshold: MilliPercent,
    now_ms: u64,
) -> ContainerView {
    match spec_status_after(cpu, mem, cpu_threshold, mem_threshold, cooldown_cpu_threshold) {
        ContainerStatus::Overloaded => ContainerView {
            status: ContainerStatus::Overloaded,
            idle_since: None,
            ..c
        },
        ContainerStatus::Idle => {
            if c.status is Idle {
                c
            } else {
                ContainerView { status: ContainerStatus::Idle, idle_since: Some(now_ms), ..c }
            }
        },
        ContainerStatus::Healthy => ContainerView {
            status: ContainerStatus::Healthy,
            idle_since: None,
            ..c
        },
    }
}

/// The record after a request is dispatched to it: the activity timestamp is
/// refreshed, and an idle container wakes to healthy with its idle timer
/// cleared in the same step.
pub open spec fn spec_mark_active(c: ContainerView, now_ms: u64) -> ContainerView {
    if c.status is Idle {
        ContainerView {
            status: ContainerStatus::Healthy,
            idle_since: None,
            last_active: now_ms,
            ..c
        }
    } else {
        ContainerView { last_active: now_ms, ..c }
    }
}

/// A container may be reaped when it has dwelt in `Idle` for at least the
/// cooldown duration.
pub open spec fn spec_eligible_for_scaledown(
    c: ContainerView,
    cooldown_ms: u64,
    now_ms: u64,
) -> bool {
    &&& c.status is Idle
    &&& c.idle_since is Some
    &&& now_ms - c.idle_since->0 >= cooldown_ms
}

/// An idle container is still safe to dispatch to while at least
/// `SAFE_WINDOW_MS` of its cooldown remains: it cannot be reaped in the next
/// loop iteration.
pub open spec fn spec_within_safe_window(
    c: ContainerView,
    cooldown_ms: u64,
    now_ms: u64,
) -> bool {
    &&& c.status is Idle
    &&& c.idle_since is Some
    &&& now_ms - c.idle_since->0 + SAFE_WINDOW_MS <= cooldown_ms
}

impl ContainerInfo {
    /// A fresh record for a container the engine just started: healthy, not
    /// idle, counted as active now.
    pub fn new(id: String, name: String, container_port: u32, now_ms: u64) -> (r: Self)
        ensures
            r@ == (ContainerView {
                id: id@,
                name: name@,
                container_port: container_port,
                status: ContainerStatus::Healthy,
                last_active: now_ms,
                idle_since: None,
            }),
            r@.wf(),
            r@.timestamps_at_most(now_ms),
    {
        Self {
            id,
            name,
            container_port,
            status: ContainerStatus::Healthy,
            last_active: now_ms,
            idle_since: None,
        }
    }

    /// Apply one metrics sample, recomputing the status and the idle timer.
    pub fn update_metrics(
        &mut self,
        cpu_usage: MilliPercent,
        memory_usage: MilliPercent,
        cpu_threshold: MilliPercent,
        memory_threshold: MilliPercent,
        cooldown_cpu_threshold: MilliPercent,
        now_ms: u64,
    )
        requires
            old(self)@.wf(),
            old(self)@.timestamps_at_most(now_ms),
        ensures
            final(self)@ == spec_update_metrics(
                old(self)@,
                cpu_usage,
                memory_usage,
                cpu_threshold,
                memory_threshold,
                cooldown_cpu_threshold,
                now_ms,
            ),
            final(self)@.wf(),
            final(self)@.timestamps_at_most(now_ms),
    {
        if cpu_usage > cpu_threshold || memory_usage > memory_threshold {
            self.status = ContainerStatus::Overloaded;
            self.idle_since = None;
        } else if cpu_usage <= cooldown_cpu_threshold {
            if self.status != ContainerStatus::Idle {
                self.idle_since = Some(now_ms);
                self.status = ContainerStatus::Idle;
            }
        } else {
            self.status = ContainerStatus::Healthy;
            self.idle_since = None;
        }
    }

    /// Record a dispatched request: refresh the activity timestamp and wake
    /// an idle container back to healthy.
    pub fn mark_active(&mut self, now_ms: u64)
        requires
            old(self)@.wf(),
            old(self)@.timestamps_at_most(now_ms),
        ensures
            final(self)@ == spec_mark_active(old(self)@, now_ms),
            final(self)@.wf(),
            final(self)@.timestamps_at_most(now_ms),
            final(self)@.last_active == now_ms,
            old(self)@.status is Idle ==> final(self)@.status is Healthy
                && final(self)@.idle_since is None,
    {
        self.last_active = now_ms;
        if self.status == ContainerStatus::Idle {
            self.status = ContainerStatus::Healthy;
            self.idle_since = None;
        }
    }

    /// Whether the container has been idle for at least the cooldown
    /// duration and may be scaled down.
    pub fn is_eligible_for_scaledown(&self, cooldown_ms: u64, now_ms: u64) -> (r: bool)
        requires
            self@.timestamps_at_most(now_ms),
        ensures
            r == spec_eligible_for_scaledown(self@, cooldown_ms, now_ms),
    {
        match self.idle_since {
            Some(idle_since) => {
                self.status == ContainerStatus::Idle && now_ms - idle_since >= cooldown_ms
            },
            None => false,
        }
    }

    /// Whether the container is idle but still far enough from the end of
    /// its cooldown that dispatching to it is safe.
    pub fn is_within_safe_window(&self, cooldown_ms: u64, now_ms: u64) -> (r: bool)
        requires
            self@.timestamps_at_most(now_ms),
        ensures
            r == spec_within_safe_window(self@, cooldown_ms, now_ms),
    {
        match self.idle_since {
            Some(idle_since) => {
                self.status == ContainerStatus::Idle && cooldown_ms >= SAFE_WINDOW_MS
                    && now_ms - idle_since <= cooldown_ms - SAFE_WINDOW_MS
            },
            None => false,
        }
    }

    /// An owned copy of the record.
    pub fn duplicate(&self) -> (r: Self)
        ensures
            r@ == self@,
    {
        Self {
            id: self.id.clone(),
            name: self.name.clone(),
            container_port: self.container_port,
            status: self.status,
            last_active: self.last_active,
            idle_since: self.idle_since,
        }
    }
}

/// The idle timer runs exactly while a container is idle, whichever sequence
/// of samples and dispatch marks produced its state: both state-changing
/// operations preserve the invariant.
pub proof fn lemma_idle_timer_tracks_status(
    c: ContainerView,
    cpu: MilliPercent,
    mem: MilliPercent,
    cpu_threshold: MilliPercent,
    mem_threshold: MilliPercent,
    cooldown_cpu_threshold: MilliPercent,
    now_ms: u64,
)
    requires
        c.wf(),
    ensures
        spec_update_metrics(c, cpu, mem, cpu_threshold, mem_threshold, cooldown_cpu_threshold, now_ms).wf(),
        spec_mark_active(c, now_ms).wf(),
{
}

/// Waking an idle container clears the idle timer atomically with the move
/// to healthy: there is no intermediate value that is healthy with a timer,
/// or idle without one.
pub proof fn lemma_mark_active_atomic(c: ContainerView, now_ms: u64)
    requires
        c.wf(),
        c.status is Idle,
    ensures
        spec_mark_active(c, now_ms).status is Healthy,
        spec_mark_active(c, now_ms).idle_since is None,
        spec_mark_active(c, now_ms).wf(),
{
}

/// A dispatch mark and a metrics sample for the same container lose neither
/// effect, in whichever order they land: the activity timestamp set by the
/// mark survives the sample, and the status is the one the later operation
/// computes.
pub proof fn lemma_mark_and_update_commute_on_activity(
    c: ContainerView,
    cpu: MilliPercent,
    mem: MilliPercent,
    cpu_threshold: MilliPercent,
    mem_threshold: MilliPercent,
    cooldown_cpu_threshold: MilliPercent,
    now_ms: u64,
)
    requires
        c.wf(),
    ensures
        spec_update_metrics(
            spec_mark_active(c, now_ms),
            cpu, mem, cpu_threshold, mem_threshold, cooldown_cpu_threshold, now_ms,
        ).last_active == now_ms,
        spec_mark_active(
            spec_update_metrics(
                c, cpu, mem, cpu_threshold, mem_threshold, cooldown_cpu_threshold, now_ms,
            ),
            now_ms,
        ).last_active == now_ms,
        spec_update_metrics(
            spec_mark_active(c, now_ms),
            cpu, mem, cpu_threshold, mem_threshold, cooldown_cpu_threshold, now_ms,
        ).status == spec_status_after(
            cpu, mem, cpu_threshold, mem_threshold, cooldown_cpu_threshold,
        ),
        ({
            let sampled = spec_status_after(
                cpu, mem, cpu_threshold, mem_threshold, cooldown_cpu_threshold,
            );
            spec_mark_active(
                spec_update_metrics(
                    c, cpu, mem, cpu_threshold, mem_threshold, cooldown_cpu_threshold, now_ms,
                ),
                now_ms,
            ).status == (if sampled is Idle { ContainerStatus::Healthy } else { sampled })
        }),
{
}

} // verus!
