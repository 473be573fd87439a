use vstd::prelude::*;
use crate::container::{
    spec_eligible_for_scaledown, spec_mark_active, spec_update_metrics, spec_within_safe_window,
    ContainerInfo, ContainerStatus, ContainerView, MilliPercent,
};

verus! {

/// Thresholds and timing that drive the per-container state machine and the
/// scaling decisions of one pool.
#[derive(Clone, Copy, Debug)]
pub struct MonitoringConfig {
    /// A container is overloaded strictly above this CPU usage.
    pub cpu_overload_threshold: MilliPercent,
    /// A container is overloaded strictly above this memory usage.
    pub memory_overload_threshold: MilliPercent,
    /// A container is idle at or below this CPU usage.
    pub cooldown_cpu_threshold: MilliPercent,
    /// How long a container must stay idle before it may be scaled down, in
    /// milliseconds.
    pub cooldown_duration_ms: u64,
    /// How often metrics are polled, in milliseconds.
    pub poll_interval_ms: u64,
}

impl Default for MonitoringConfig {
    /// The stock monitoring thresholds: overloaded above 70% CPU or memory,
    /// idle at or below 10% CPU, 30 s of cooldown, polled every 2 s.
    fn default() -> (r: Self)
        ensures
            r == (MonitoringConfig {
                cpu_overload_threshold: 70000u64,
                memory_overload_threshold: 70000u64,
                cooldown_cpu_threshold: 10000u64,
                cooldown_duration_ms: 30000u64,
                poll_interval_ms: 2000u64,
            }),
    {
        MonitoringConfig {
            cpu_overload_threshold: 70000,
            memory_overload_threshold: 70000,
            cooldown_cpu_threshold: 10000,
            cooldown_duration_ms: 30000,
            poll_interval_ms: 2000,
        }
    }
}

/// Mathematical image of `ContainerDetails`.
pub ghost struct ContainerDetailsView {
    pub container_id: Seq<char>,
    pub container_port: u32,
    pub bind_port: Seq<char>,
    pub container_name: Seq<char>,
    pub timeout: u64,
    pub docker_compose_network_host: Seq<char>,
}

/// What a caller needs to reach one container: identity, name and ports.
/// The engine-facing fields (`bind_port`, network, lifetime timeout) are
/// filled by the provisioning path and empty on records read back from a
/// pool.
pub struct ContainerDetails {
    pub container_id: String,
    pub container_port: u32,
    pub bind_port: String,
    pub container_name: String,
    pub timeout: u64,
    pub docker_compose_network_host: String,
}

impl View for ContainerDetails {
    type V = ContainerDetailsView;

    open spec fn view(&self) -> ContainerDetailsView {
        ContainerDetailsView {
            container_id: self.container_id@,
            container_port: self.container_port,
            bind_port: self.bind_port@,
            container_name: self.container_name@,
            timeout: self.timeout,
            docker_compose_network_host: self.docker_compose_network_host@,
        }
    }
}

/// The details a pool hands out for one of its records.
pub open spec fn spec_to_container_details(c: ContainerView) -> ContainerDetailsView {
    ContainerDetailsView {
        container_id: c.id,
        container_port: c.container_port,
        bind_port: Seq::empty(),
        container_name: c.name,
        timeout: 0,
        docker_compose_network_host: Seq::empty(),
    }
}

/// Project a pool record onto the details callers dispatch to.
pub fn to_container_details(container_info: &ContainerInfo) -> (r: ContainerDetails)
    ensures
        r@ == spec_to_container_details(container_info@),
{
    let r = ContainerDetails {
        container_id: container_info.id.clone(),
        container_port: container_info.container_port,
        bind_port: String::new(),
        container_name: container_info.name.clone(),
        timeout: 0,
        docker_compose_network_host: String::new(),
    };
    r
}

/// One metrics reading for one container, handed to the pool by the caller
/// that fetched it.
pub struct MetricSample {
    pub container_id: String,
    pub cpu_usage: MilliPercent,
    pub memory_usage: MilliPercent,
}

/// Mathematical image of a metrics sample.
pub ghost struct MetricSampleView {
    pub container_id: Seq<char>,
    pub cpu_usage: MilliPercent,
    pub memory_usage: MilliPercent,
}

impl View for MetricSample {
    type V = MetricSampleView;

    open spec fn view(&self) -> MetricSampleView {
        MetricSampleView {
            container_id: self.container_id@,
            cpu_usage: self.cpu_usage,
            memory_usage: self.memory_usage,
        }
    }
}

/// The first sample in `samples` addressed to `id`, if any.
pub open spec fn spec_first_sample(samples: Seq<MetricSampleView>, id: Seq<char>) -> Option<
    MetricSampleView,
>
    decreases samples.len(),
{
    if samples.len() == 0 {
        None
    } else if samples[0].container_id == id {
        Some(samples[0])
    } else {
        spec_first_sample(samples.drop_first(), id)
    }
}

/// Mathematical image of a container pool.
pub ghost struct PoolView {
    pub function_name: Seq<char>,
    pub containers: Seq<ContainerView>,
    pub min_containers: usize,
    pub max_containers: usize,
    pub config: MonitoringConfig,
}

impl PoolView {
    /// The pool's invariant: capacity bounds are ordered and respected, ids
    /// are unique, and every record satisfies its own invariant.
    pub open spec fn wf(self) -> bool {
        &&& self.min_containers <= self.max_containers
        &&& self.containers.len() <= self.max_containers
        &&& forall|i: int, j: int|
            #![trigger self.containers[i], self.containers[j]]
            0 <= i < j < self.containers.len() ==> self.containers[i].id
                != self.containers[j].id
        &&& forall|i: int| 0 <= i < self.containers.len() ==> (#[trigger] self.containers[i]).wf()
    }

    /// All records' timestamps lie at or before the given clock reading.
    pub open spec fn timestamps_at_most(self, now_ms: u64) -> bool {
        forall|i: int|
            0 <= i < self.containers.len() ==> (#[trigger] self.containers[i]).timestamps_at_most(
                now_ms,
            )
    }

    /// A container the dispatcher may route to: healthy, or idle but safely
    /// inside its cooldown window.
    pub open spec fn dispatchable(self, c: ContainerView, now_ms: u64) -> bool {
        c.status is Healthy || spec_within_safe_window(
            c,
            self.config.cooldown_duration_ms,
            now_ms,
        )
    }

    /// No record with index below `upto` may be dispatched to.
    pub open spec fn none_dispatchable_below(self, upto: int, now_ms: u64) -> bool {
        forall|j: int|
            0 <= j < upto ==> !self.dispatchable(#[trigger] self.containers[j], now_ms)
    }

    /// The record at `i` is dispatchable and, among the dispatchable records
    /// with index below `upto`, it has the least `last_active`, standing
    /// first among those that tie.
    pub open spec fn best_dispatch_below(self, i: int, upto: int, now_ms: u64) -> bool {
        &&& 0 <= i < upto <= self.containers.len()
        &&& self.dispatchable(self.containers[i], now_ms)
        &&& forall|j: int|
            0 <= j < upto && self.dispatchable(#[trigger] self.containers[j], now_ms)
                ==> self.containers[i].last_active <= self.containers[j].last_active
        &&& forall|j: int|
            0 <= j < i && self.dispatchable(#[trigger] self.containers[j], now_ms)
                ==> self.containers[i].last_active < self.containers[j].last_active
    }

    /// The record at `i` is the first overloaded one.
    pub open spec fn first_overloaded_at(self, i: int) -> bool {
        &&& 0 <= i < self.containers.len()
        &&& self.containers[i].status is Overloaded
        &&& forall|j: int| 0 <= j < i ==> !((#[trigger] self.containers[j]).status is Overloaded)
    }

    /// No record is overloaded.
    pub open spec fn none_overloaded(self) -> bool {
        forall|j: int|
            0 <= j < self.containers.len() ==> !((#[trigger] self.containers[j]).status
                is Overloaded)
    }

    /// The pool must grow: it has room, it is not empty, and every container
    /// is overloaded.
    pub open spec fn spec_needs_scale_up(self) -> bool {
        &&& self.containers.len() < self.max_containers
        &&& self.containers.len() > 0
        &&& forall|i: int|
            0 <= i < self.containers.len() ==> (#[trigger] self.containers[i]).status
                is Overloaded
    }
}

/// How many of the records carry the given status.
pub open spec fn count_status(cs: Seq<ContainerView>, status: ContainerStatus) -> nat
    decreases cs.len(),
{
    if cs.len() == 0 {
        0
    } else {
        count_status(cs.drop_last(), status) + (if cs.last().status == status {
            1nat
        } else {
            0nat
        })
    }
}

/// A status count never exceeds the number of records, and reaches it
/// exactly when every record carries that status.
pub proof fn lemma_count_status_full(cs: Seq<ContainerView>, status: ContainerStatus)
    ensures
        count_status(cs, status) <= cs.len(),
        count_status(cs, status) == cs.len() <==> (forall|i: int|
            0 <= i < cs.len() ==> (#[trigger] cs[i]).status == status),
    decreases cs.len(),
{
    if cs.len() > 0 {
        let front = cs.drop_last();
        lemma_count_status_full(front, status);
        assert(forall|i: int| 0 <= i < front.len() ==> front[i] == cs[i]);
        if count_status(cs, status) == cs.len() {
            assert(count_status(front, status) == front.len());
            assert(cs[cs.len() - 1] == cs.last());
        }
        if forall|i: int| 0 <= i < cs.len() ==> (#[trigger] cs[i]).status == status {
            assert(cs.last() == cs[cs.len() - 1]);
            assert(forall|i: int| 0 <= i < front.len() ==> (#[trigger] front[i]).status == status);
        }
    }
}

/// The container pool of one function: its records, capacity bounds and
/// monitoring thresholds.  The engine and metrics collaborators live
/// outside the library; callers perform that I/O and feed the results in as
/// plain values.
pub struct ContainerPool {
    /// The function key this pool serves.
    pub function_name: String,
    /// The records, keyed by their unique engine ids.
    pub containers: Vec<ContainerInfo>,
    /// Capacity floor.
    pub min_containers: usize,
    /// Capacity ceiling.
    pub max_containers: usize,
    /// Thresholds and timing.
    pub config: MonitoringConfig,
}

impl View for ContainerPool {
    type V = PoolView;

    open spec fn view(&self) -> PoolView {
        PoolView {
            function_name: self.function_name@,
            containers: Seq::new(self.containers@.len(), |i: int| self.containers@[i]@),
            min_containers: self.min_containers,
            max_containers: self.max_containers,
            config: self.config,
        }
    }
}

impl ContainerPool {
    /// An empty pool for one function.
    pub fn new(
        function_name: String,
        config: MonitoringConfig,
        min_containers: usize,
        max_containers: usize,
    ) -> (r: Self)
        requires
            min_containers <= max_containers,
        ensures
            r@.function_name == function_name@,
            r@.containers.len() == 0,
            r@.min_containers == min_containers,
            r@.max_containers == max_containers,
            r@.config == config,
            r@.wf(),
    {
        let r = ContainerPool {
            function_name,
            containers: Vec::new(),
            min_containers,
            max_containers,
            config,
        };
        assert(r@.containers.len() == 0);
        r
    }

    /// How many containers the pool holds.
    pub fn container_count(&self) -> (r: usize)
        ensures
            r == self@.containers.len(),
    {
        self.containers.len()
    }

    /// The function key this pool serves.
    pub fn get_function_name(&self) -> (r: &str)
        ensures
            r@ == self@.function_name,
    {
        self.function_name.as_str()
    }

    /// Record a freshly provisioned container.  The record is accepted only
    /// while the pool is below its ceiling and the id is new; the result
    /// says whether it was added.
    #[verifier::loop_isolation(false)]
    pub fn insert_container(&mut self, info: ContainerInfo) -> (r: bool)
        requires
            old(self)@.wf(),
            info@.wf(),
        ensures
            final(self)@.wf(),
            r == (old(self)@.containers.len() < old(self)@.max_containers && forall|i: int|
                0 <= i < old(self)@.containers.len() ==> (#[trigger] old(
                    self,
                )@.containers[i]).id != info@.id),
            r ==> final(self)@.containers == old(self)@.containers.push(info@),
            !r ==> final(self)@.containers == old(self)@.containers,
            final(self)@.function_name == old(self)@.function_name,
            final(self)@.min_containers == old(self)@.min_containers,
            final(self)@.max_containers == old(self)@.max_containers,
            final(self)@.config == old(self)@.config,
    {
        if self.containers.len() >= self.max_containers {
            assert(final(self)@.containers =~= old(self)@.containers);
            return false;
        }
        let mut i: usize = 0;
        let n = self.containers.len();
        while i < n
            invariant
                0 <= i <= n == self@.containers.len(),
                *self == *old(self),
                forall|j: int| 0 <= j < i ==> (#[trigger] self@.containers[j]).id != info@.id,
            decreases n - i,
        {
            if self.containers[i].id == info.id {
                assert(self@.containers[i as int].id == info@.id);
                assert(final(self)@.containers =~= old(self)@.containers);
                return false;
            }
            assert(self@.containers[i as int].id != info@.id);
            i = i + 1;
        }
        self.containers.push(info);
        proof {
            let p_old = old(self)@;
            let p_new = self@;
            assert(p_new.containers =~= p_old.containers.push(info@));
            assert forall|a: int, b: int|
                #![trigger p_new.containers[a], p_new.containers[b]]
                0 <= a < b < p_new.containers.len() implies p_new.containers[a].id
                != p_new.containers[b].id by {
                if b < p_old.containers.len() as int {
                    assert(p_new.containers[a] == p_old.containers[a]);
                    assert(p_new.containers[b] == p_old.containers[b]);
                } else {
                    assert(p_new.containers[a] == p_old.containers[a]);
                    assert(p_new.containers[b] == info@);
                    assert(p_old.containers[a].id != info@.id);
                }
            }
            assert forall|j: int| 0 <= j < p_new.containers.len() implies (
            #[trigger] p_new.containers[j]).wf() by {
                if j < p_old.containers.len() as int {
                    assert(p_new.containers[j] == p_old.containers[j]);
                } else {
                    assert(p_new.containers[j] == info@);
                }
            }
            assert(p_new.wf());
        }
        true
    }

    /// Select the container to dispatch to: the dispatchable record that has
    /// been inactive longest (ties broken toward the front of the pool), or,
    /// when none is dispatchable, the first overloaded record as a last
    /// resort.  Absent only when neither exists.
    #[verifier::loop_isolation(false)]
    pub fn get_healthiest_container(&self, now_ms: u64) -> (r: Option<ContainerDetails>)
        requires
            self@.wf(),
            self@.timestamps_at_most(now_ms),
        ensures
            match r {
                Some(d) => {
                    ||| exists|i: int|
                        self@.best_dispatch_below(i, self@.containers.len() as int, now_ms) && d@
                            == spec_to_container_details(#[trigger] self@.containers[i])
                    ||| {
                        &&& self@.none_dispatchable_below(self@.containers.len() as int, now_ms)
                        &&& exists|i: int|
                            self@.first_overloaded_at(i) && d@ == spec_to_container_details(
                                #[trigger] self@.containers[i],
                            )
                    }
                },
                None => self@.none_dispatchable_below(self@.containers.len() as int, now_ms)
                    && self@.none_overloaded(),
            },
    {
        let n = self.containers.len();
        let mut best: Option<usize> = None;
        let mut i: usize = 0;
        while i < n
            invariant
                0 <= i <= n == self@.containers.len(),
                match best {
                    Some(b) => self@.best_dispatch_below(b as int, i as int, now_ms),
                    None => self@.none_dispatchable_below(i as int, now_ms),
                },
            decreases n - i,
        {
            let c = &self.containers[i];
            assert(c@ == self@.containers[i as int]);
            let is_dispatchable = c.status == ContainerStatus::Healthy || c.is_within_safe_window(
                self.config.cooldown_duration_ms,
                now_ms,
            );
            assert(is_dispatchable == self@.dispatchable(self@.containers[i as int], now_ms));
            if is_dispatchable {
                match best {
                    Some(b) => {
                        if self.containers[i].last_active < self.containers[b].last_active {
                            best = Some(i);
                        }
                    },
                    None => {
                        best = Some(i);
                    },
                }
            }
            i = i + 1;
        }
        match best {
            Some(b) => {
                assert(self@.best_dispatch_below(b as int, n as int, now_ms));
                Some(to_container_details(&self.containers[b]))
            },
            None => {
                // No healthy or safely idle container: fall back to the
                // first overloaded one, if any.
                let mut k: usize = 0;
                while k < n
                    invariant
                        0 <= k <= n == self@.containers.len(),
                        forall|j: int|
                            0 <= j < k ==> !((#[trigger] self@.containers[j]).status
                                is Overloaded),
                    decreases n - k,
                {
                    if self.containers[k].status == ContainerStatus::Overloaded {
                        assert(self@.first_overloaded_at(k as int));
                        return Some(to_container_details(&self.containers[k]));
                    }
                    k = k + 1;
                }
                None
            },
        }
    }

    /// Wake the record with the given id after a dispatch, if it is still in
    /// the pool; a vanished id is a no-op.
    #[verifier::loop_isolation(false)]
    pub fn mark_container_active(&mut self, container_id: &str, now_ms: u64)
        requires
            old(self)@.wf(),
            old(self)@.timestamps_at_most(now_ms),
        ensures
            final(self)@.wf(),
            final(self)@.function_name == old(self)@.function_name,
            final(self)@.min_containers == old(self)@.min_containers,
            final(self)@.max_containers == old(self)@.max_containers,
            final(self)@.config == old(self)@.config,
            (forall|j: int|
                0 <= j < old(self)@.containers.len() ==> (#[trigger] old(
                    self,
                )@.containers[j]).id != container_id@) ==> final(self)@.containers == old(
                self,
            )@.containers,
            (exists|i: int|
                0 <= i < old(self)@.containers.len() && (#[trigger] old(
                    self,
                )@.containers[i]).id == container_id@) ==> exists|i: int|
                {
                    &&& 0 <= i < old(self)@.containers.len()
                    &&& (#[trigger] old(self)@.containers[i]).id == container_id@
                    &&& final(self)@.containers == old(self)@.containers.update(
                        i,
                        spec_mark_active(old(self)@.containers[i], now_ms),
                    )
                },
    {
        let n = self.containers.len();
        let mut i: usize = 0;
        while i < n
            invariant
                0 <= i <= n == self@.containers.len(),
                *self == *old(self),
                forall|j: int| 0 <= j < i ==> (#[trigger] self@.containers[j]).id != container_id@,
            decreases n - i,
        {
            if crate::text::str_eq(self.containers[i].id.as_str(), container_id) {
                assert(self@.containers[i as int].id == container_id@);
                assert(self@.containers[i as int].wf());
                assert(self@.containers[i as int].timestamps_at_most(now_ms));
                let c = &mut self.containers[i];
                assert(c@ == old(self)@.containers[i as int]);
                c.mark_active(now_ms);
                proof {
                    let p_old = old(self)@;
                    let p_new = self@;
                    let updated = spec_mark_active(p_old.containers[i as int], now_ms);
                    assert(p_new.containers =~= p_old.containers.update(i as int, updated));
                    assert(p_old.containers[i as int].id == container_id@);
                    assert(updated.id == p_old.containers[i as int].id);
                    assert(updated.wf());
                    assert forall|a: int, b: int|
                        #![trigger p_new.containers[a], p_new.containers[b]]
                        0 <= a < b < p_new.containers.len() implies p_new.containers[a].id
                        != p_new.containers[b].id by {
                        assert(p_new.containers[a].id == p_old.containers[a].id);
                        assert(p_new.containers[b].id == p_old.containers[b].id);
                    }
                    assert forall|j: int| 0 <= j < p_new.containers.len() implies (
                    #[trigger] p_new.containers[j]).wf() by {
                        if j != i as int {
                            assert(p_new.containers[j] == p_old.containers[j]);
                        }
                    }
                    assert(p_new.wf());
                }
                return ;
            }
            i = i + 1;
        }
        assert(final(self)@.containers =~= old(self)@.containers);
    }

    /// Whether the pool must grow: not empty, below its ceiling, and every
    /// container overloaded.
    #[verifier::loop_isolation(false)]
    pub fn needs_scale_up(&self) -> (r: bool)
        requires
            self@.wf(),
        ensures
            r == self@.spec_needs_scale_up(),
    {
        let n = self.containers.len();
        if n >= self.max_containers || n == 0 {
            return false;
        }
        let mut i: usize = 0;
        while i < n
            invariant
                0 <= i <= n,
                forall|j: int| 0 <= j < i ==> (#[trigger] self@.containers[j]).status is Overloaded,
            decreases n - i,
        {
            if !(self.containers[i].status == ContainerStatus::Overloaded) {
                assert(!(self@.containers[i as int].status is Overloaded));
                return false;
            }
            assert(self@.containers[i as int].status is Overloaded);
            i = i + 1;
        }
        true
    }

    /// The ids of the containers that have finished their cooldown and may
    /// be scaled down, in pool order.
    #[verifier::loop_isolation(false)]
    pub fn get_scaledown_candidates(&self, now_ms: u64) -> (r: Vec<String>)
        requires
            self@.wf(),
            self@.timestamps_at_most(now_ms),
        ensures
            spec_ids(r@) == spec_eligible_ids(
                self@.containers,
                self@.config.cooldown_duration_ms,
                now_ms,
            ),
    {
        let n = self.containers.len();
        let mut out: Vec<String> = Vec::new();
        let mut i: usize = 0;
        assert(self@.containers.take(0) =~= Seq::<ContainerView>::empty());
        assert(spec_ids(out@) =~= spec_eligible_ids(
            self@.containers.take(0),
            self@.config.cooldown_duration_ms,
            now_ms,
        ));
        while i < n
            invariant
                0 <= i <= n == self@.containers.len(),
                spec_ids(out@) == spec_eligible_ids(
                    self@.containers.take(i as int),
                    self@.config.cooldown_duration_ms,
                    now_ms,
                ),
            decreases n - i,
        {
            let ghost prefix = self@.containers.take(i as int);
            let ghost cd = self@.config.cooldown_duration_ms;
            assert(self@.containers.take(i as int + 1).drop_last() =~= prefix);
            assert(self@.containers.take(i as int + 1).last() == self@.containers[i as int]);
            let c = &self.containers[i];
            assert(c@ == self@.containers[i as int]);
            if c.is_eligible_for_scaledown(self.config.cooldown_duration_ms, now_ms) {
                out.push(c.id.clone());
                proof {
                    let full = spec_eligible_ids(
                        self@.containers.take(i as int + 1),
                        cd,
                        now_ms,
                    );
                    assert(full == spec_eligible_ids(prefix, cd, now_ms).push(
                        self@.containers[i as int].id,
                    ));
                    assert(spec_ids(out@) =~= spec_eligible_ids(prefix, cd, now_ms).push(
                        self@.containers[i as int].id,
                    ));
                }
            } else {
                proof {
                    assert(spec_eligible_ids(self@.containers.take(i as int + 1), cd, now_ms)
                        == spec_eligible_ids(prefix, cd, now_ms));
                }
            }
            i = i + 1;
        }
        assert(self@.containers.take(n as int) =~= self@.containers);
        out
    }

    /// Drop the record with the given id from the pool; the engine-side
    /// removal is the caller's to perform afterwards.  The result says
    /// whether the record was present.
    #[verifier::loop_isolation(false)]
    pub fn remove_container(&mut self, container_id: &str) -> (r: bool)
        requires
            old(self)@.wf(),
        ensures
            final(self)@.wf(),
            final(self)@.function_name == old(self)@.function_name,
            final(self)@.min_containers == old(self)@.min_containers,
            final(self)@.max_containers == old(self)@.max_containers,
            final(self)@.config == old(self)@.config,
            r == exists|i: int|
                0 <= i < old(self)@.containers.len() && (#[trigger] old(
                    self,
                )@.containers[i]).id == container_id@,
            r ==> exists|i: int|
                {
                    &&& 0 <= i < old(self)@.containers.len()
                    &&& (#[trigger] old(self)@.containers[i]).id == container_id@
                    &&& final(self)@.containers == old(self)@.containers.remove(i)
                },
            !r ==> final(self)@.containers == old(self)@.containers,
    {
        let n = self.containers.len();
        let mut i: usize = 0;
        while i < n
            invariant
                0 <= i <= n == self@.containers.len(),
                *self == *old(self),
                forall|j: int| 0 <= j < i ==> (#[trigger] self@.containers[j]).id != container_id@,
            decreases n - i,
        {
            if crate::text::str_eq(self.containers[i].id.as_str(), container_id) {
                assert(self@.containers[i as int].id == container_id@);
                self.containers.remove(i);
                proof {
                    let p_old = old(self)@;
                    let p_new = self@;
                    assert(p_new.containers =~= p_old.containers.remove(i as int));
                    assert forall|a: int, b: int|
                        #![trigger p_new.containers[a], p_new.containers[b]]
                        0 <= a < b < p_new.containers.len() implies p_new.containers[a].id
                        != p_new.containers[b].id by {
                        let a0 = if a < i as int { a } else { a + 1 };
                        let b0 = if b < i as int { b } else { b + 1 };
                        assert(p_new.containers[a] == p_old.containers[a0]);
                        assert(p_new.containers[b] == p_old.containers[b0]);
                    }
                    assert forall|j: int| 0 <= j < p_new.containers.len() implies (
                    #[trigger] p_new.containers[j]).wf() by {
                        let j0 = if j < i as int { j } else { j + 1 };
                        assert(p_new.containers[j] == p_old.containers[j0]);
                    }
                    assert(p_new.wf());
                }
                return true;
            }
            assert(self@.containers[i as int].id != container_id@);
            i = i + 1;
        }
        assert(final(self)@.containers =~= old(self)@.containers);
        false
    }

    /// Apply one tick's worth of metrics samples: each container whose id
    /// has a sample moves per the state machine, exactly once; a container
    /// without a sample keeps its record untouched.
    #[verifier::loop_isolation(false)]
    pub fn update_containers_metrics(&mut self, samples: &Vec<MetricSample>, now_ms: u64)
        requires
            old(self)@.wf(),
            old(self)@.timestamps_at_most(now_ms),
        ensures
            final(self)@.wf(),
            final(self)@.timestamps_at_most(now_ms),
            final(self)@.function_name == old(self)@.function_name,
            final(self)@.min_containers == old(self)@.min_containers,
            final(self)@.max_containers == old(self)@.max_containers,
            final(self)@.config == old(self)@.config,
            final(self)@.containers.len() == old(self)@.containers.len(),
            forall|i: int|
                0 <= i < old(self)@.containers.len() ==> final(self)@.containers[i]
                    == spec_apply_sample(
                    #[trigger] old(self)@.containers[i],
                    spec_first_sample(spec_samples(samples@), old(self)@.containers[i].id),
                    old(self)@.config,
                    now_ms,
                ),
    {
        let n = self.containers.len();
        let mut i: usize = 0;
        while i < n
            invariant
                0 <= i <= n == self@.containers.len(),
                n == old(self)@.containers.len(),
                self@.function_name == old(self)@.function_name,
                self@.min_containers == old(self)@.min_containers,
                self@.max_containers == old(self)@.max_containers,
                self@.config == old(self)@.config,
                forall|k: int|
                    0 <= k < i ==> self@.containers[k] == spec_apply_sample(
                        #[trigger] old(self)@.containers[k],
                        spec_first_sample(spec_samples(samples@), old(self)@.containers[k].id),
                        old(self)@.config,
                        now_ms,
                    ),
                forall|k: int|
                    i <= k < n ==> (#[trigger] self@.containers[k]) == old(self)@.containers[k],
            decreases n - i,
        {
            let found = find_sample(samples, self.containers[i].id.as_str());
            match found {
                Some((cpu_usage, memory_usage)) => {
                    assert(self@.containers[i as int] == old(self)@.containers[i as int]);
                    assert(self@.containers[i as int].wf());
                    assert(self@.containers[i as int].timestamps_at_most(now_ms));
                    let cfg = self.config;
                    let c = &mut self.containers[i];
                    c.update_metrics(
                        cpu_usage,
                        memory_usage,
                        cfg.cpu_overload_threshold,
                        cfg.memory_overload_threshold,
                        cfg.cooldown_cpu_threshold,
                        now_ms,
                    );
                },
                None => {},
            }
            i = i + 1;
        }
        proof {
            let p_old = old(self)@;
            let p_new = self@;
            assert forall|a: int, b: int|
                #![trigger p_new.containers[a], p_new.containers[b]]
                0 <= a < b < p_new.containers.len() implies p_new.containers[a].id
                != p_new.containers[b].id by {
                assert(p_new.containers[a].id == p_old.containers[a].id);
                assert(p_new.containers[b].id == p_old.containers[b].id);
            }
            assert forall|j: int| 0 <= j < p_new.containers.len() implies (
            #[trigger] p_new.containers[j]).wf() && p_new.containers[j].timestamps_at_most(
                now_ms,
            ) by {
                assert(p_old.containers[j].wf());
                assert(p_old.containers[j].timestamps_at_most(now_ms));
            }
            assert(p_new.wf());
        }
    }

    /// Keep only the containers the engine confirmed as running; the rest
    /// vanished outside the control plane's view and are dropped.
    #[verifier::loop_isolation(false)]
    pub fn validate_and_sync_containers(&mut self, running_ids: &Vec<String>)
        requires
            old(self)@.wf(),
        ensures
            final(self)@.wf(),
            final(self)@.function_name == old(self)@.function_name,
            final(self)@.min_containers == old(self)@.min_containers,
            final(self)@.max_containers == old(self)@.max_containers,
            final(self)@.config == old(self)@.config,
            final(self)@.containers == spec_retain_running(
                old(self)@.containers,
                spec_ids(running_ids@),
            ),
            forall|i: int|
                0 <= i < final(self)@.containers.len() ==> spec_ids(running_ids@).contains(
                    (#[trigger] final(self)@.containers[i]).id,
                ),
    {
        let ghost ids = spec_ids(running_ids@);
        let n = self.containers.len();
        let mut kept: Vec<ContainerInfo> = Vec::new();
        let mut i: usize = 0;
        assert(self@.containers.take(0) =~= Seq::<ContainerView>::empty());
        assert(views_of(kept@) =~= spec_retain_running(self@.containers.take(0), ids));
        while i < n
            invariant
                0 <= i <= n == self@.containers.len(),
                *self == *old(self),
                views_of(kept@) == spec_retain_running(self@.containers.take(i as int), ids),
            decreases n - i,
        {
            let ghost prefix = self@.containers.take(i as int);
            assert(self@.containers.take(i as int + 1).drop_last() =~= prefix);
            assert(self@.containers.take(i as int + 1).last() == self@.containers[i as int]);
            let c = &self.containers[i];
            assert(c@ == self@.containers[i as int]);
            if contains_str(running_ids, c.id.as_str()) {
                kept.push(c.duplicate());
                assert(views_of(kept@) =~= spec_retain_running(prefix, ids).push(
                    self@.containers[i as int],
                ));
            }
            i = i + 1;
        }
        assert(self@.containers.take(n as int) =~= self@.containers);
        proof {
            lemma_retain_running_props(self@.containers, ids);
        }
        self.containers = kept;
        proof {
            let p_old = old(self)@;
            let p_new = self@;
            assert(p_new.containers =~= spec_retain_running(p_old.containers, ids));
        }
    }

    /// A read-only summary of the pool for observability: counts by status,
    /// capacity utilization as a whole percentage, and the two scale
    /// signals, `needs_scale_up` by the pool's own rule.
    #[verifier::loop_isolation(false)]
    pub fn get_status(&self) -> (r: PoolStatus)
        requires
            self@.wf(),
        ensures
            r.function_name@ == self@.function_name,
            r.total_containers == self@.containers.len(),
            r.healthy_containers == count_status(self@.containers, ContainerStatus::Healthy),
            r.overloaded_containers == count_status(
                self@.containers,
                ContainerStatus::Overloaded,
            ),
            r.idle_containers == count_status(self@.containers, ContainerStatus::Idle),
            r.min_containers == self@.min_containers,
            r.max_containers == self@.max_containers,
            r.capacity_utilization_percentage == (if self@.max_containers > 0 {
                (self@.containers.len() * 100) as int / self@.max_containers as int
            } else {
                0int
            }),
            r.needs_scale_up == self@.spec_needs_scale_up(),
            r.can_scale_down == (count_status(self@.containers, ContainerStatus::Idle) > 0
                && self@.containers.len() > self@.min_containers),
    {
        let n = self.containers.len();
        let mut healthy: usize = 0;
        let mut overloaded: usize = 0;
        let mut idle: usize = 0;
        let mut i: usize = 0;
        assert(self@.containers.take(0) =~= Seq::<ContainerView>::empty());
        while i < n
            invariant
                0 <= i <= n == self@.containers.len(),
                healthy == count_status(self@.containers.take(i as int), ContainerStatus::Healthy),
                overloaded == count_status(
                    self@.containers.take(i as int),
                    ContainerStatus::Overloaded,
                ),
                idle == count_status(self@.containers.take(i as int), ContainerStatus::Idle),
                healthy + overloaded + idle <= i,
            decreases n - i,
        {
            let ghost prefix = self@.containers.take(i as int);
            assert(self@.containers.take(i as int + 1).drop_last() =~= prefix);
            assert(self@.containers.take(i as int + 1).last() == self@.containers[i as int]);
            let c = &self.containers[i];
            assert(c@ == self@.containers[i as int]);
            match c.status {
                ContainerStatus::Healthy => {
                    healthy = healthy + 1;
                },
                ContainerStatus::Overloaded => {
                    overloaded = overloaded + 1;
                },
                ContainerStatus::Idle => {
                    idle = idle + 1;
                },
            }
            i = i + 1;
        }
        assert(self@.containers.take(n as int) =~= self@.containers);
        let capacity_utilization_percentage: u64 = if self.max_containers > 0 {
            ((n as u128 * 100) / (self.max_containers as u128)) as u64
        } else {
            0
        };
        proof {
            if self.max_containers > 0 {
                let m = self.max_containers as int;
                let x = n as int * 100;
                assert(n as int == self@.containers.len());
                assert(n as int <= m);
                assert(x <= m * 100);
                vstd::arithmetic::div_mod::lemma_div_is_ordered(x, m * 100, m);
                vstd::arithmetic::div_mod::lemma_div_multiples_vanish(100, m);
                assert(x / m <= 100);
            }
            lemma_count_status_full(self@.containers, ContainerStatus::Overloaded);
        }
        PoolStatus {
            function_name: self.function_name.clone(),
            total_containers: n,
            healthy_containers: healthy,
            overloaded_containers: overloaded,
            idle_containers: idle,
            min_containers: self.min_containers,
            max_containers: self.max_containers,
            capacity_utilization_percentage,
            needs_scale_up: n > 0 && overloaded == n && n < self.max_containers,
            can_scale_down: idle > 0 && n > self.min_containers,
        }
    }
}

/// A read-only summary of one pool.
pub struct PoolStatus {
    pub function_name: String,
    pub total_containers: usize,
    pub healthy_containers: usize,
    pub overloaded_containers: usize,
    pub idle_containers: usize,
    pub min_containers: usize,
    pub max_containers: usize,
    pub capacity_utilization_percentage: u64,
    pub needs_scale_up: bool,
    pub can_scale_down: bool,
}

/// The views of a sequence of records.
pub open spec fn views_of(cs: Seq<ContainerInfo>) -> Seq<ContainerView> {
    Seq::new(cs.len(), |i: int| cs[i]@)
}

/// The views of a sequence of metric samples.
pub open spec fn spec_samples(v: Seq<MetricSample>) -> Seq<MetricSampleView> {
    Seq::new(v.len(), |i: int| v[i]@)
}

/// The views of a sequence of strings.
pub open spec fn spec_ids(v: Seq<String>) -> Seq<Seq<char>> {
    Seq::new(v.len(), |i: int| v[i]@)
}

/// A record after an optional sample: updated by the state machine when a
/// sample is present, untouched otherwise.
pub open spec fn spec_apply_sample(
    c: ContainerView,
    sample: Option<MetricSampleView>,
    config: MonitoringConfig,
    now_ms: u64,
) -> ContainerView {
    match sample {
        Some(s) => spec_update_metrics(
            c,
            s.cpu_usage,
            s.memory_usage,
            config.cpu_overload_threshold,
            config.memory_overload_threshold,
            config.cooldown_cpu_threshold,
            now_ms,
        ),
        None => c,
    }
}

/// Whether some record carries the given id.
pub open spec fn holds_id(cs: Seq<ContainerView>, id: Seq<char>) -> bool {
    exists|j: int| 0 <= j < cs.len() && (#[trigger] cs[j]).id == id
}

/// The ids of the records eligible for scale-down, in pool order.
pub open spec fn spec_eligible_ids(cs: Seq<ContainerView>, cooldown_ms: u64, now_ms: u64) -> Seq<
    Seq<char>,
>
    decreases cs.len(),
{
    if cs.len() == 0 {
        Seq::empty()
    } else if spec_eligible_for_scaledown(cs.last(), cooldown_ms, now_ms) {
        spec_eligible_ids(cs.drop_last(), cooldown_ms, now_ms).push(cs.last().id)
    } else {
        spec_eligible_ids(cs.drop_last(), cooldown_ms, now_ms)
    }
}

/// The records whose ids appear in `ids`, in pool order.
pub open spec fn spec_retain_running(cs: Seq<ContainerView>, ids: Seq<Seq<char>>) -> Seq<
    ContainerView,
>
    decreases cs.len(),
{
    if cs.len() == 0 {
        Seq::empty()
    } else if ids.contains(cs.last().id) {
        spec_retain_running(cs.drop_last(), ids).push(cs.last())
    } else {
        spec_retain_running(cs.drop_last(), ids)
    }
}

/// Retention keeps only records of the original pool, in particular their
/// ids stay unique and their invariants hold; and every kept id is running.
pub proof fn lemma_retain_running_props(cs: Seq<ContainerView>, ids: Seq<Seq<char>>)
    requires
        forall|i: int, j: int|
            #![trigger cs[i], cs[j]]
            0 <= i < j < cs.len() ==> cs[i].id != cs[j].id,
        forall|i: int| 0 <= i < cs.len() ==> (#[trigger] cs[i]).wf(),
    ensures
        spec_retain_running(cs, ids).len() <= cs.len(),
        forall|k: int|
            0 <= k < spec_retain_running(cs, ids).len() ==> cs.contains(
                #[trigger] spec_retain_running(cs, ids)[k],
            ),
        forall|k: int|
            0 <= k < spec_retain_running(cs, ids).len() ==> ids.contains(
                (#[trigger] spec_retain_running(cs, ids)[k]).id,
            ),
        forall|k: int| 0 <= k < spec_retain_running(cs, ids).len() ==> (
        #[trigger] spec_retain_running(cs, ids)[k]).wf(),
        forall|a: int, b: int|
            #![trigger spec_retain_running(cs, ids)[a], spec_retain_running(cs, ids)[b]]
            0 <= a < b < spec_retain_running(cs, ids).len() ==> spec_retain_running(cs, ids)[a].id
                != spec_retain_running(cs, ids)[b].id,
    decreases cs.len(),
{
    let r = spec_retain_running(cs, ids);
    if cs.len() == 0 {
    } else {
        let front = cs.drop_last();
        let last = cs.last();
        assert(forall|i: int| 0 <= i < front.len() ==> front[i] == cs[i]);
        lemma_retain_running_props(front, ids);
        let rf = spec_retain_running(front, ids);
        assert forall|k: int| 0 <= k < r.len() implies cs.contains(#[trigger] r[k]) by {
            if ids.contains(last.id) {
                if k < rf.len() {
                    assert(r[k] == rf[k]);
                    assert(front.contains(rf[k]));
                    let w = choose|w: int| 0 <= w < front.len() && front[w] == rf[k];
                    assert(cs[w] == rf[k]);
                } else {
                    assert(r[k] == last);
                    assert(cs[cs.len() - 1] == last);
                }
            } else {
                assert(r[k] == rf[k]);
                assert(front.contains(rf[k]));
                let w = choose|w: int| 0 <= w < front.len() && front[w] == rf[k];
                assert(cs[w] == rf[k]);
            }
        }
        if ids.contains(last.id) {
            assert forall|a: int, b: int|
                #![trigger r[a], r[b]]
                0 <= a < b < r.len() implies r[a].id != r[b].id by {
                if b < rf.len() {
                    assert(r[a] == rf[a] && r[b] == rf[b]);
                } else {
                    assert(r[b] == last);
                    assert(r[a] == rf[a]);
                    assert(front.contains(rf[a]));
                    let w = choose|w: int| 0 <= w < front.len() && front[w] == rf[a];
                    assert(cs[w] == rf[a]);
                    assert(cs[w].id != last.id);
                }
            }
        }
    }
}

/// Find the first sample addressed to `id` and hand back its readings.
#[verifier::loop_isolation(false)]
pub fn find_sample(samples: &Vec<MetricSample>, id: &str) -> (r: Option<(u64, u64)>)
    ensures
        match spec_first_sample(spec_samples(samples@), id@) {
            Some(s) => r == Some((s.cpu_usage, s.memory_usage)),
            None => r is None,
        },
{
    let ghost whole = spec_samples(samples@);
    let n = samples.len();
    let mut j: usize = 0;
    assert(whole.skip(0) =~= whole);
    while j < n
        invariant
            0 <= j <= n == samples@.len(),
            whole == spec_samples(samples@),
            spec_first_sample(whole, id@) == spec_first_sample(whole.skip(j as int), id@),
        decreases n - j,
    {
        assert(whole.skip(j as int)[0] == whole[j as int]);
        assert(whole.skip(j as int).drop_first() =~= whole.skip(j as int + 1));
        if crate::text::str_eq(samples[j].container_id.as_str(), id) {
            assert(whole[j as int].container_id == id@);
            return Some((samples[j].cpu_usage, samples[j].memory_usage));
        }
        assert(whole[j as int].container_id != id@);
        j = j + 1;
    }
    assert(whole.skip(n as int).len() == 0);
    None
}

/// Whether any string in `v` holds the characters of `s`.
#[verifier::loop_isolation(false)]
pub fn contains_str(v: &Vec<String>, s: &str) -> (r: bool)
    ensures
        r == spec_ids(v@).contains(s@),
{
    let n = v.len();
    let mut i: usize = 0;
    while i < n
        invariant
            0 <= i <= n == v@.len(),
            forall|j: int| 0 <= j < i ==> spec_ids(v@)[j] != s@,
        decreases n - i,
    {
        if crate::text::str_eq(v[i].as_str(), s) {
            assert(spec_ids(v@)[i as int] == s@);
            return true;
        }
        assert(spec_ids(v@)[i as int] != s@);
        i = i + 1;
    }
    assert(forall|j: int| 0 <= j < spec_ids(v@).len() ==> spec_ids(v@)[j] != s@);
    false
}

/// The id at position `k` of the eligible list names an eligible container
/// of the pool.
pub open spec fn eligible_id_named(
    cs: Seq<ContainerView>,
    cooldown_ms: u64,
    now_ms: u64,
    k: int,
) -> bool {
    exists|j: int|
        0 <= j < cs.len() && (#[trigger] cs[j]).id == spec_eligible_ids(cs, cooldown_ms, now_ms)[k]
            && spec_eligible_for_scaledown(cs[j], cooldown_ms, now_ms)
}

/// Every eligible id names a container of the pool.
pub proof fn lemma_eligible_ids_sound(cs: Seq<ContainerView>, cooldown_ms: u64, now_ms: u64)
    ensures
        forall|k: int|
            0 <= k < spec_eligible_ids(cs, cooldown_ms, now_ms).len() ==> #[trigger] eligible_id_named(
                cs,
                cooldown_ms,
                now_ms,
                k,
            ),
    decreases cs.len(),
{
    if cs.len() == 0 {
        assert(spec_eligible_ids(cs, cooldown_ms, now_ms) =~= Seq::<Seq<char>>::empty());
    } else {
        let front = cs.drop_last();
        lemma_eligible_ids_sound(front, cooldown_ms, now_ms);
        let ids = spec_eligible_ids(cs, cooldown_ms, now_ms);
        let fids = spec_eligible_ids(front, cooldown_ms, now_ms);
        assert forall|k: int| 0 <= k < ids.len() implies #[trigger] eligible_id_named(
            cs,
            cooldown_ms,
            now_ms,
            k,
        ) by {
            if spec_eligible_for_scaledown(cs.last(), cooldown_ms, now_ms) {
                assert(ids == fids.push(cs.last().id));
                if k < fids.len() {
                    assert(ids[k] == fids[k]);
                    assert(eligible_id_named(front, cooldown_ms, now_ms, k));
                    let j = choose|j: int|
                        0 <= j < front.len() && (#[trigger] front[j]).id == fids[k]
                            && spec_eligible_for_scaledown(front[j], cooldown_ms, now_ms);
                    assert(cs[j] == front[j]);
                    assert(cs[j].id == ids[k]);
                } else {
                    assert(ids[k] == cs.last().id);
                    assert(cs[cs.len() - 1] == cs.last());
                }
            } else {
                assert(ids == fids);
                assert(ids[k] == fids[k]);
                assert(eligible_id_named(front, cooldown_ms, now_ms, k));
                let j = choose|j: int|
                    0 <= j < front.len() && (#[trigger] front[j]).id == fids[k]
                        && spec_eligible_for_scaledown(front[j], cooldown_ms, now_ms);
                assert(cs[j] == front[j]);
                assert(cs[j].id == ids[k]);
            }
        }
    }
}

/// With unique container ids, the eligible ids are pairwise distinct.
pub proof fn lemma_eligible_ids_distinct(cs: Seq<ContainerView>, cooldown_ms: u64, now_ms: u64)
    requires
        forall|i: int, j: int|
            #![trigger cs[i], cs[j]]
            0 <= i < j < cs.len() ==> cs[i].id != cs[j].id,
    ensures
        forall|a: int, b: int|
            #![trigger spec_eligible_ids(cs, cooldown_ms, now_ms)[a], spec_eligible_ids(cs, cooldown_ms, now_ms)[b]]
            0 <= a < b < spec_eligible_ids(cs, cooldown_ms, now_ms).len() ==> spec_eligible_ids(
                cs,
                cooldown_ms,
                now_ms,
            )[a] != spec_eligible_ids(cs, cooldown_ms, now_ms)[b],
    decreases cs.len(),
{
    if cs.len() == 0 {
        assert(spec_eligible_ids(cs, cooldown_ms, now_ms) =~= Seq::<Seq<char>>::empty());
    } else {
        let front = cs.drop_last();
        assert(forall|i: int| 0 <= i < front.len() ==> front[i] == cs[i]);
        lemma_eligible_ids_distinct(front, cooldown_ms, now_ms);
        lemma_eligible_ids_sound(front, cooldown_ms, now_ms);
        let ids = spec_eligible_ids(cs, cooldown_ms, now_ms);
        let fids = spec_eligible_ids(front, cooldown_ms, now_ms);
        assert forall|a: int, b: int|
            #![trigger ids[a], ids[b]]
            0 <= a < b < ids.len() implies ids[a] != ids[b] by {
            if spec_eligible_for_scaledown(cs.last(), cooldown_ms, now_ms) {
                assert(ids == fids.push(cs.last().id));
                if b < fids.len() {
                    assert(ids[a] == fids[a] && ids[b] == fids[b]);
                } else {
                    assert(ids[b] == cs.last().id);
                    assert(ids[a] == fids[a]);
                    assert(eligible_id_named(front, cooldown_ms, now_ms, a));
                    let j = choose|j: int|
                        0 <= j < front.len() && (#[trigger] front[j]).id == fids[a]
                            && spec_eligible_for_scaledown(front[j], cooldown_ms, now_ms);
                    assert(cs[j].id == fids[a]);
                    assert(cs[j].id != cs[cs.len() - 1].id);
                    assert(cs[cs.len() - 1] == cs.last());
                }
            } else {
                assert(ids == fids);
                assert(ids[a] == fids[a] && ids[b] == fids[b]);
            }
        }
    }
}

/// The capacity bound is part of the pool's invariant: a well-formed pool
/// never holds more containers than its ceiling.
pub proof fn lemma_pool_capacity(p: PoolView)
    requires
        p.wf(),
    ensures
        p.containers.len() <= p.max_containers,
{
}

/// An empty pool asks for nothing: it never signals a scale-up, and no
/// record of it can be selected for dispatch, so selection comes back
/// absent.
pub proof fn lemma_empty_pool_has_no_candidate(p: PoolView, now_ms: u64)
    requires
        p.containers.len() == 0,
    ensures
        !p.spec_needs_scale_up(),
        p.none_dispatchable_below(p.containers.len() as int, now_ms),
        p.none_overloaded(),
        forall|i: int, upto: int| !p.best_dispatch_below(i, upto, now_ms) || upto > 0,
        forall|i: int| !(#[trigger] p.first_overloaded_at(i)),
{
}

} // verus!
