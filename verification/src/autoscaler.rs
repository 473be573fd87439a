use vstd::prelude::*;
use crate::container::{spec_mark_active, ContainerInfo, ContainerView};
use crate::pool::{
    spec_to_container_details, ContainerDetails, ContainerPool, MonitoringConfig, PoolStatus,
    PoolView,
};

verus! {

/// Global configuration of the autoscaler.
#[derive(Clone, Copy, Debug)]
pub struct AutoscalerConfig {
    /// Thresholds and timing for every pool.
    pub monitoring: MonitoringConfig,
    /// Capacity floor per function.
    pub min_containers_per_function: usize,
    /// Capacity ceiling per function.
    pub max_containers_per_function: usize,
    /// Period of the scaling loop, in milliseconds.
    pub scale_check_interval_ms: u64,
}

/// What the dispatcher should do for an invocation.
pub enum DispatchPlan {
    /// Route to this container; it has been marked active.
    UseExisting(ContainerDetails),
    /// No container can take the request, but there is room: provision one,
    /// then register it with `register_provisioned`.
    NeedsProvision,
    /// The pool is saturated: no candidate and no room.
    Saturated,
}

/// Mathematical image of the autoscaler.
pub ghost struct AutoscalerView {
    pub pools: Seq<PoolView>,
    pub config: AutoscalerConfig,
    pub docker_compose_network_host: Seq<char>,
}

/// The autoscaler: every pool, keyed by its function key, and the global
/// configuration.  The engine, metrics and persistence collaborators live
/// outside the library; callers run the control loop and the dispatch path
/// around these decision methods.
pub struct Autoscaler {
    /// One pool per function key.
    pub pools: Vec<ContainerPool>,
    /// Global configuration.
    pub config: AutoscalerConfig,
    /// Network the containers are attached to.
    pub docker_compose_network_host: String,
}

impl View for Autoscaler {
    type V = AutoscalerView;

    open spec fn view(&self) -> AutoscalerView {
        AutoscalerView {
            pools: Seq::new(self.pools@.len(), |i: int| self.pools@[i]@),
            config: self.config,
            docker_compose_network_host: self.docker_compose_network_host@,
        }
    }
}

impl AutoscalerView {
    /// The autoscaler's invariant: ordered capacity bounds, well-formed
    /// pools, and one pool per function key.
    pub open spec fn wf(self) -> bool {
        &&& self.config.min_containers_per_function <= self.config.max_containers_per_function
        &&& forall|i: int| 0 <= i < self.pools.len() ==> (#[trigger] self.pools[i]).wf()
        &&& forall|i: int, j: int|
            #![trigger self.pools[i], self.pools[j]]
            0 <= i < j < self.pools.len() ==> self.pools[i].function_name
                != self.pools[j].function_name
    }

    /// All pools' timestamps lie at or before the given clock reading.
    pub open spec fn timestamps_at_most(self, now_ms: u64) -> bool {
        forall|i: int|
            0 <= i < self.pools.len() ==> (#[trigger] self.pools[i]).timestamps_at_most(now_ms)
    }

    /// No pool with index below `upto` serves the key.
    pub open spec fn no_pool_below(self, upto: int, key: Seq<char>) -> bool {
        forall|j: int| 0 <= j < upto ==> (#[trigger] self.pools[j]).function_name != key
    }
}

impl Autoscaler {
    /// An autoscaler with no pools yet.
    pub fn new(config: AutoscalerConfig, docker_compose_network_host: String) -> (r: Self)
        requires
            config.min_containers_per_function <= config.max_containers_per_function,
        ensures
            r@.pools.len() == 0,
            r@.config == config,
            r@.docker_compose_network_host == docker_compose_network_host@,
            r@.wf(),
    {
        let r = Autoscaler { pools: Vec::new(), config, docker_compose_network_host };
        assert(r@.pools.len() == 0);
        r
    }

    /// The global configuration.
    pub fn get_config(&self) -> (r: &AutoscalerConfig)
        ensures
            *r == self@.config,
    {
        &self.config
    }

    /// How many pools exist.
    pub fn pool_count(&self) -> (r: usize)
        ensures
            r == self@.pools.len(),
    {
        self.pools.len()
    }

    /// The index of the pool serving the key, if one exists.
    #[verifier::loop_isolation(false)]
    pub fn pool_index_of(&self, function_key: &str) -> (r: Option<usize>)
        ensures
            match r {
                Some(i) => {
                    &&& 0 <= i < self@.pools.len()
                    &&& self@.pools[i as int].function_name == function_key@
                    &&& self@.no_pool_below(i as int, function_key@)
                },
                None => self@.no_pool_below(self@.pools.len() as int, function_key@),
            },
    {
        let n = self.pools.len();
        let mut i: usize = 0;
        while i < n
            invariant
                0 <= i <= n == self@.pools.len(),
                self@.no_pool_below(i as int, function_key@),
            decreases n - i,
        {
            if crate::text::str_eq(self.pools[i].function_name.as_str(), function_key) {
                assert(self@.pools[i as int].function_name == function_key@);
                return Some(i);
            }
            assert(self@.pools[i as int].function_name != function_key@);
            i = i + 1;
        }
        None
    }

    /// Find the pool for the key, creating an empty one lazily on the first
    /// invocation; returns its index.
    pub fn get_or_create_pool(&mut self, function_key: &str) -> (r: usize)
        requires
            old(self)@.wf(),
        ensures
            final(self)@.wf(),
            final(self)@.config == old(self)@.config,
            final(self)@.docker_compose_network_host == old(self)@.docker_compose_network_host,
            0 <= r < final(self)@.pools.len(),
            final(self)@.pools[r as int].function_name == function_key@,
            old(self)@.no_pool_below(old(self)@.pools.len() as int, function_key@)
                ==> final(self)@.pools == old(self)@.pools.push(
                (PoolView {
                    function_name: function_key@,
                    containers: Seq::empty(),
                    min_containers: old(self)@.config.min_containers_per_function,
                    max_containers: old(self)@.config.max_containers_per_function,
                    config: old(self)@.config.monitoring,
                }),
            ),
            !old(self)@.no_pool_below(old(self)@.pools.len() as int, function_key@) ==> (final(self)@.pools == old(self)@.pools && old(self)@.pools[r as int].function_name
                == function_key@),
    {
        match self.pool_index_of(function_key) {
            Some(i) => {
                assert(!old(self)@.no_pool_below(old(self)@.pools.len() as int, function_key@));
                i
            },
            None => {
                let key = String::from_str(function_key);
                let pool = ContainerPool::new(
                    key,
                    self.config.monitoring,
                    self.config.min_containers_per_function,
                    self.config.max_containers_per_function,
                );
                let r = self.pools.len();
                assert(pool@.containers =~= Seq::<ContainerView>::empty());
                self.pools.push(pool);
                proof {
                    let p_old = old(self)@;
                    let p_new = self@;
                    assert(p_new.pools =~= p_old.pools.push(
                        PoolView {
                            function_name: function_key@,
                            containers: Seq::empty(),
                            min_containers: p_old.config.min_containers_per_function,
                            max_containers: p_old.config.max_containers_per_function,
                            config: p_old.config.monitoring,
                        },
                    ));
                    assert forall|a: int, b: int|
                        #![trigger p_new.pools[a], p_new.pools[b]]
                        0 <= a < b < p_new.pools.len() implies p_new.pools[a].function_name
                        != p_new.pools[b].function_name by {
                        if b < p_old.pools.len() as int {
                            assert(p_new.pools[a] == p_old.pools[a]);
                            assert(p_new.pools[b] == p_old.pools[b]);
                        } else {
                            assert(p_new.pools[a] == p_old.pools[a]);
                            assert(p_new.pools[b].function_name == function_key@);
                            assert(p_old.pools[a].function_name != function_key@);
                        }
                    }
                    assert forall|j: int| 0 <= j < p_new.pools.len() implies (
                    #[trigger] p_new.pools[j]).wf() by {
                        if j < p_old.pools.len() as int {
                            assert(p_new.pools[j] == p_old.pools[j]);
                        }
                    }
                    assert(p_new.wf());
                }
                r
            },
        }
    }

    /// The dispatch fast path for one pool: hand out the healthiest
    /// container, marking it active; ask for a provision when the pool has
    /// room under the global ceiling; report saturation otherwise.
    pub fn dispatch_from_pool(&mut self, pool_idx: usize, now_ms: u64) -> (r: DispatchPlan)
        requires
            old(self)@.wf(),
            old(self)@.timestamps_at_most(now_ms),
            0 <= pool_idx < old(self)@.pools.len(),
        ensures
            final(self)@.wf(),
            final(self)@.config == old(self)@.config,
            final(self)@.docker_compose_network_host == old(self)@.docker_compose_network_host,
            final(self)@.pools.len() == old(self)@.pools.len(),
            forall|j: int|
                0 <= j < old(self)@.pools.len() && j != pool_idx ==> final(self)@.pools[j] == old(
                    self,
                )@.pools[j],
            ({
                let p = old(self)@.pools[pool_idx as int];
                let q = final(self)@.pools[pool_idx as int];
                &&& q.function_name == p.function_name
                &&& q.min_containers == p.min_containers
                &&& q.max_containers == p.max_containers
                &&& q.config == p.config
                &&& match r {
                    DispatchPlan::UseExisting(d) => exists|i: int|
                        {
                            &&& 0 <= i < p.containers.len()
                            &&& d@ == spec_to_container_details(#[trigger] p.containers[i])
                            &&& (p.best_dispatch_below(i, p.containers.len() as int, now_ms) || (
                            p.none_dispatchable_below(p.containers.len() as int, now_ms)
                                && p.first_overloaded_at(i)))
                            &&& final(self)@.pools[pool_idx as int].containers
                                == p.containers.update(i, spec_mark_active(p.containers[i], now_ms))
                        },
                    DispatchPlan::NeedsProvision => {
                        &&& p.none_dispatchable_below(p.containers.len() as int, now_ms)
                        &&& p.none_overloaded()
                        &&& p.containers.len() < old(
                            self,
                        )@.config.max_containers_per_function
                        &&& final(self)@.pools == old(self)@.pools
                    },
                    DispatchPlan::Saturated => {
                        &&& p.none_dispatchable_below(p.containers.len() as int, now_ms)
                        &&& p.none_overloaded()
                        &&& p.containers.len() >= old(
                            self,
                        )@.config.max_containers_per_function
                        &&& final(self)@.pools == old(self)@.pools
                    },
                }
            }),
    {
        let ghost p = old(self)@.pools[pool_idx as int];
        assert(self@.pools[pool_idx as int] == self.pools@[pool_idx as int]@);
        let picked = self.pools[pool_idx].get_healthiest_container(now_ms);
        match picked {
            Some(d) => {
                let pool = &mut self.pools[pool_idx];
                pool.mark_container_active(d.container_id.as_str(), now_ms);
                proof {
                    let p_new = self@;
                    let i = choose|i: int|
                        {
                            &&& 0 <= i < p.containers.len()
                            &&& d@ == spec_to_container_details(#[trigger] p.containers[i])
                            &&& (p.best_dispatch_below(i, p.containers.len() as int, now_ms) || (
                            p.none_dispatchable_below(p.containers.len() as int, now_ms)
                                && p.first_overloaded_at(i)))
                        };
                    assert(p.containers[i].id == d@.container_id);
                    assert(exists|k: int|
                        0 <= k < p.containers.len() && (#[trigger] p.containers[k]).id
                            == d.container_id@);
                    let k = choose|k: int|
                        {
                            &&& 0 <= k < p.containers.len()
                            &&& (#[trigger] p.containers[k]).id == d.container_id@
                            &&& p_new.pools[pool_idx as int].containers == p.containers.update(
                                k,
                                spec_mark_active(p.containers[k], now_ms),
                            )
                        };
                    assert(k == i || p.containers[k].id == p.containers[i].id);
                    if k != i {
                        assert(false);
                    }
                    assert forall|j: int|
                        0 <= j < p_new.pools.len() implies (#[trigger] p_new.pools[j]).wf() by {
                        if j != pool_idx as int {
                            assert(p_new.pools[j] == old(self)@.pools[j]);
                        }
                    }
                    assert forall|a: int, b: int|
                        #![trigger p_new.pools[a], p_new.pools[b]]
                        0 <= a < b < p_new.pools.len() implies p_new.pools[a].function_name
                        != p_new.pools[b].function_name by {
                        assert(p_new.pools[a].function_name == old(
                            self,
                        )@.pools[a].function_name);
                        assert(p_new.pools[b].function_name == old(
                            self,
                        )@.pools[b].function_name);
                    }
                    assert(p_new.wf());
                }
                DispatchPlan::UseExisting(d)
            },
            None => {
                let count = self.pools[pool_idx].container_count();
                assert(final(self)@.pools =~= old(self)@.pools);
                if count < self.config.max_containers_per_function {
                    DispatchPlan::NeedsProvision
                } else {
                    DispatchPlan::Saturated
                }
            },
        }
    }

    /// Register a freshly provisioned container with a pool and mark it
    /// active for the dispatch that provisioned it.  Refused when the pool
    /// is at its own ceiling or already holds the id.
    pub fn register_provisioned(&mut self, pool_idx: usize, info: ContainerInfo, now_ms: u64) -> (r:
        bool)
        requires
            old(self)@.wf(),
            old(self)@.timestamps_at_most(now_ms),
            0 <= pool_idx < old(self)@.pools.len(),
            info@.wf(),
            info@.timestamps_at_most(now_ms),
        ensures
            final(self)@.wf(),
            final(self)@.config == old(self)@.config,
            final(self)@.docker_compose_network_host == old(self)@.docker_compose_network_host,
            final(self)@.pools.len() == old(self)@.pools.len(),
            forall|j: int|
                0 <= j < old(self)@.pools.len() && j != pool_idx ==> final(self)@.pools[j] == old(
                    self,
                )@.pools[j],
            ({
                let p = old(self)@.pools[pool_idx as int];
                let q = final(self)@.pools[pool_idx as int];
                let can = p.containers.len() < p.max_containers && forall|i: int|
                    0 <= i < p.containers.len() ==> (#[trigger] p.containers[i]).id != info@.id;
                &&& q.function_name == p.function_name
                &&& q.min_containers == p.min_containers
                &&& q.max_containers == p.max_containers
                &&& q.config == p.config
                &&& r == can
                &&& r ==> final(self)@.pools[pool_idx as int].containers == p.containers.push(
                    spec_mark_active(info@, now_ms),
                )
                &&& !r ==> final(self)@.pools == old(self)@.pools
            }),
    {
        let ghost info0 = info@;
        let mut info = info;
        info.mark_active(now_ms);
        let pool = &mut self.pools[pool_idx];
        let r = pool.insert_container(info);
        proof {
            let p_new = self@;
            assert(spec_mark_active(info0, now_ms).id == info0.id);
            assert forall|j: int| 0 <= j < p_new.pools.len() implies (
            #[trigger] p_new.pools[j]).wf() by {
                if j != pool_idx as int {
                    assert(p_new.pools[j] == old(self)@.pools[j]);
                }
            }
            assert forall|a: int, b: int|
                #![trigger p_new.pools[a], p_new.pools[b]]
                0 <= a < b < p_new.pools.len() implies p_new.pools[a].function_name
                != p_new.pools[b].function_name by {
                assert(p_new.pools[a].function_name == old(self)@.pools[a].function_name);
                assert(p_new.pools[b].function_name == old(self)@.pools[b].function_name);
            }
            assert(p_new.wf());
            if !r {
                assert(final(self)@.pools =~= old(self)@.pools);
            }
        }
        r
    }

    /// One pool's scale-down step of the control loop: walk the finished-
    /// cooldown candidates in order, removing each while the pool stays
    /// above the global floor; the removed ids are returned for the caller
    /// to tear down engine-side.  Above the floor the final count is pinned:
    /// the floor, or the old count less every candidate, whichever is
    /// larger; and the removed ids are exactly the candidates taken until
    /// the floor was reached.
    #[verifier::loop_isolation(false)]
    pub fn check_and_scale_down_pool(&mut self, pool_idx: usize, now_ms: u64) -> (r: Vec<String>)
        requires
            old(self)@.wf(),
            old(self)@.timestamps_at_most(now_ms),
            0 <= pool_idx < old(self)@.pools.len(),
        ensures
            final(self)@.wf(),
            final(self)@.config == old(self)@.config,
            final(self)@.docker_compose_network_host == old(self)@.docker_compose_network_host,
            final(self)@.pools.len() == old(self)@.pools.len(),
            forall|j: int|
                0 <= j < old(self)@.pools.len() && j != pool_idx ==> final(self)@.pools[j] == old(
                    self,
                )@.pools[j],
            ({
                let p = old(self)@.pools[pool_idx as int];
                let q = final(self)@.pools[pool_idx as int];
                let min = old(self)@.config.min_containers_per_function;
                let n = p.containers.len() as int;
                let elig = crate::pool::spec_eligible_ids(
                    p.containers,
                    p.config.cooldown_duration_ms,
                    now_ms,
                );
                &&& q.function_name == p.function_name
                &&& q.min_containers == p.min_containers
                &&& q.max_containers == p.max_containers
                &&& q.config == p.config
                &&& (n <= min ==> q == p && r@.len() == 0)
                &&& (n > min ==> q.containers.len() == vstd::math::max(min as int, n - elig.len()))
                &&& (n > min ==> crate::pool::spec_ids(r@) == elig.take(
                    vstd::math::min(elig.len() as int, n - min),
                ))
                &&& forall|a: int|
                    0 <= a < q.containers.len() ==> exists|b: int|
                        0 <= b < p.containers.len() && (#[trigger] q.containers[a])
                            == p.containers[b]
            }),
    {
        let ghost p = old(self)@.pools[pool_idx as int];
        let ghost n = p.containers.len() as int;
        assert(self@.pools[pool_idx as int] == self.pools@[pool_idx as int]@);
        let candidates = self.pools[pool_idx].get_scaledown_candidates(now_ms);
        let ghost elig = crate::pool::spec_eligible_ids(
            p.containers,
            p.config.cooldown_duration_ms,
            now_ms,
        );
        proof {
            crate::pool::lemma_eligible_ids_sound(
                p.containers,
                p.config.cooldown_duration_ms,
                now_ms,
            );
            crate::pool::lemma_eligible_ids_distinct(
                p.containers,
                p.config.cooldown_duration_ms,
                now_ms,
            );
        }
        let min = self.config.min_containers_per_function;
        let m = candidates.len();
        assert(m == elig.len());
        let mut removed: Vec<String> = Vec::new();
        let mut k: usize = 0;
        assert(crate::pool::spec_ids(removed@) =~= elig.take(0));
        proof {
            assert forall|t: int| #![trigger elig[t]] k <= t < m implies crate::pool::holds_id(
                self@.pools[pool_idx as int].containers,
                elig[t],
            ) by {
                assert(crate::pool::eligible_id_named(
                    p.containers,
                    p.config.cooldown_duration_ms,
                    now_ms,
                    t,
                ));
            }
        }
        while k < m
            invariant
                0 <= k <= m == candidates@.len(),
                crate::pool::spec_ids(candidates@) == elig,
                self@.pools.len() == old(self)@.pools.len(),
                0 <= pool_idx < self@.pools.len(),
                self@.config == old(self)@.config,
                self@.docker_compose_network_host == old(self)@.docker_compose_network_host,
                min == old(self)@.config.min_containers_per_function,
                forall|j: int|
                    0 <= j < old(self)@.pools.len() && j != pool_idx ==> self@.pools[j] == old(
                        self,
                    )@.pools[j],
                self@.wf(),
                self@.pools[pool_idx as int].function_name == p.function_name,
                self@.pools[pool_idx as int].min_containers == p.min_containers,
                self@.pools[pool_idx as int].max_containers == p.max_containers,
                self@.pools[pool_idx as int].config == p.config,
                n <= min ==> self@.pools[pool_idx as int] == p && removed@.len() == 0,
                n > min ==> self@.pools[pool_idx as int].containers.len() == vstd::math::max(
                    min as int,
                    n - k,
                ),
                n > min ==> crate::pool::spec_ids(removed@) == elig.take(
                    vstd::math::min(k as int, n - min),
                ),
                forall|t: int|
                    #![trigger elig[t]]
                    k <= t < m ==> crate::pool::holds_id(
                        self@.pools[pool_idx as int].containers,
                        elig[t],
                    ),
                forall|a: int|
                    0 <= a < self@.pools[pool_idx as int].containers.len() ==> exists|b: int|
                        0 <= b < p.containers.len() && (#[trigger] self@.pools[pool_idx as int]
                            .containers[a]) == p.containers[b],
            decreases m - k,
        {
            let count = self.pools[pool_idx].container_count();
            if count > min {
                assert(n > min);
                let ghost before = self@.pools[pool_idx as int];
                assert(crate::pool::holds_id(before.containers, elig[k as int]));
                assert(exists|j: int|
                    0 <= j < before.containers.len() && (#[trigger] before.containers[j]).id
                        == elig[k as int]);
                assert(crate::pool::spec_ids(candidates@)[k as int] == candidates@[k as int]@);
                let pool = &mut self.pools[pool_idx];
                let was_removed = pool.remove_container(candidates[k].as_str());
                assert(was_removed);
                proof {
                    let after = self@.pools[pool_idx as int];
                    let w = choose|w: int|
                        0 <= w < before.containers.len() && (#[trigger] before.containers[w]).id
                            == candidates@[k as int]@ && after.containers
                            == before.containers.remove(w);
                    assert(after.containers.len() == before.containers.len() - 1);
                    assert forall|a: int| 0 <= a < after.containers.len() implies exists|b: int|
                        0 <= b < p.containers.len() && (#[trigger] after.containers[a])
                            == p.containers[b] by {
                        let a0 = if a < w {
                            a
                        } else {
                            a + 1
                        };
                        assert(after.containers[a] == before.containers[a0]);
                    }
                    // Every later candidate survives this removal: its id
                    // differs from the removed one, so its holder is another
                    // record.
                    assert forall|t: int| #![trigger elig[t]] k + 1 <= t < m implies
                        crate::pool::holds_id(after.containers, elig[t]) by {
                        assert(elig[t] != elig[k as int]);
                        assert(crate::pool::holds_id(before.containers, elig[t]));
                        let j0 = choose|j0: int|
                            0 <= j0 < before.containers.len() && (
                            #[trigger] before.containers[j0]).id == elig[t];
                        assert(before.containers[j0].id != before.containers[w].id);
                        assert(j0 != w);
                        let j1 = if j0 < w {
                            j0
                        } else {
                            j0 - 1
                        };
                        assert(after.containers[j1] == before.containers[j0]);
                    }
                    let p_new = self@;
                    assert forall|j: int| 0 <= j < p_new.pools.len() implies (
                    #[trigger] p_new.pools[j]).wf() by {
                        if j != pool_idx as int {
                            assert(p_new.pools[j] == old(self)@.pools[j]);
                        }
                    }
                    assert forall|a: int, b: int|
                        #![trigger p_new.pools[a], p_new.pools[b]]
                        0 <= a < b < p_new.pools.len() implies p_new.pools[a].function_name
                        != p_new.pools[b].function_name by {
                        assert(p_new.pools[a].function_name == old(self)@.pools[a].function_name);
                        assert(p_new.pools[b].function_name == old(self)@.pools[b].function_name);
                    }
                    assert(p_new.wf());
                }
                removed.push(candidates[k].clone());
                proof {
                    assert((k as int) < n - min);
                    assert(crate::pool::spec_ids(removed@) =~= elig.take(k as int).push(
                        elig[k as int],
                    ));
                    assert(elig.take(k as int).push(elig[k as int]) =~= elig.take(k as int + 1));
                }
            } else {
                proof {
                    if n > min {
                        assert(k as int >= n - min);
                        assert(vstd::math::max(min as int, n - (k + 1)) == min as int);
                        assert(vstd::math::min((k + 1) as int, n - min) == n - min);
                        assert(vstd::math::min(k as int, n - min) == n - min);
                    }
                }
            }
            k = k + 1;
        }
        proof {
            if n > min {
                assert(vstd::math::min(m as int, n - min) == vstd::math::min(
                    elig.len() as int,
                    n - min,
                ));
            }
        }
        removed
    }

    /// Adopt a pool rebuilt from storage; refused when it is empty or its
    /// key is already served.  An adopted pool's containers must have been
    /// validated against the engine by the caller.
    pub fn adopt_pool(&mut self, pool: ContainerPool) -> (r: bool)
        requires
            old(self)@.wf(),
            pool@.wf(),
        ensures
            final(self)@.wf(),
            final(self)@.config == old(self)@.config,
            final(self)@.docker_compose_network_host == old(self)@.docker_compose_network_host,
            r == (pool@.containers.len() > 0 && old(self)@.no_pool_below(
                old(self)@.pools.len() as int,
                pool@.function_name,
            )),
            r ==> final(self)@.pools == old(self)@.pools.push(pool@),
            !r ==> final(self)@.pools == old(self)@.pools,
    {
        if pool.container_count() == 0 {
            assert(final(self)@.pools =~= old(self)@.pools);
            return false;
        }
        match self.pool_index_of(pool.get_function_name()) {
            Some(_) => {
                assert(!old(self)@.no_pool_below(old(self)@.pools.len() as int,
                pool@.function_name));
                assert(final(self)@.pools =~= old(self)@.pools);
                false
            },
            None => {
                let ghost pv = pool@;
                self.pools.push(pool);
                proof {
                    let p_old = old(self)@;
                    let p_new = self@;
                    assert(p_new.pools =~= p_old.pools.push(pv));
                    assert forall|a: int, b: int|
                        #![trigger p_new.pools[a], p_new.pools[b]]
                        0 <= a < b < p_new.pools.len() implies p_new.pools[a].function_name
                        != p_new.pools[b].function_name by {
                        if b < p_old.pools.len() as int {
                            assert(p_new.pools[a] == p_old.pools[a]);
                            assert(p_new.pools[b] == p_old.pools[b]);
                        } else {
                            assert(p_new.pools[a] == p_old.pools[a]);
                            assert(p_new.pools[b] == pv);
                            assert(p_old.pools[a].function_name != pv.function_name);
                        }
                    }
                    assert forall|j: int| 0 <= j < p_new.pools.len() implies (
                    #[trigger] p_new.pools[j]).wf() by {
                        if j < p_old.pools.len() as int {
                            assert(p_new.pools[j] == p_old.pools[j]);
                        } else {
                            assert(p_new.pools[j] == pv);
                        }
                    }
                    assert(p_new.wf());
                }
                true
            },
        }
    }

    /// The keys of every pool, for stale-state cleanup after recovery.
    #[verifier::loop_isolation(false)]
    pub fn active_keys(&self) -> (r: Vec<String>)
        ensures
            r@.len() == self@.pools.len(),
            forall|i: int| 0 <= i < r@.len() ==> (#[trigger] r@[i])@ == self@.pools[i].function_name,
    {
        let n = self.pools.len();
        let mut out: Vec<String> = Vec::new();
        let mut i: usize = 0;
        while i < n
            invariant
                0 <= i <= n == self@.pools.len(),
                out@.len() == i,
                forall|j: int|
                    0 <= j < i ==> (#[trigger] out@[j])@ == self@.pools[j].function_name,
            decreases n - i,
        {
            out.push(self.pools[i].function_name.clone());
            i = i + 1;
        }
        out
    }

    /// A read-only summary of every pool, for observability.
    #[verifier::loop_isolation(false)]
    pub fn get_all_pool_status(&self) -> (r: Vec<PoolStatus>)
        requires
            self@.wf(),
        ensures
            r@.len() == self@.pools.len(),
            forall|i: int|
                0 <= i < r@.len() ==> {
                    &&& (#[trigger] r@[i]).function_name@ == self@.pools[i].function_name
                    &&& r@[i].total_containers == self@.pools[i].containers.len()
                    &&& r@[i].healthy_containers == crate::pool::count_status(
                        self@.pools[i].containers,
                        crate::container::ContainerStatus::Healthy,
                    )
                    &&& r@[i].overloaded_containers == crate::pool::count_status(
                        self@.pools[i].containers,
                        crate::container::ContainerStatus::Overloaded,
                    )
                    &&& r@[i].idle_containers == crate::pool::count_status(
                        self@.pools[i].containers,
                        crate::container::ContainerStatus::Idle,
                    )
                    &&& r@[i].min_containers == self@.pools[i].min_containers
                    &&& r@[i].max_containers == self@.pools[i].max_containers
                    &&& r@[i].capacity_utilization_percentage == (
                    if self@.pools[i].max_containers > 0 {
                        (self@.pools[i].containers.len() * 100) as int
                            / self@.pools[i].max_containers as int
                    } else {
                        0int
                    })
                    &&& r@[i].needs_scale_up == self@.pools[i].spec_needs_scale_up()
                    &&& r@[i].can_scale_down == (crate::pool::count_status(
                        self@.pools[i].containers,
                        crate::container::ContainerStatus::Idle,
                    ) > 0 && self@.pools[i].containers.len() > self@.pools[i].min_containers)
                },
    {
        let n = self.pools.len();
        let mut out: Vec<PoolStatus> = Vec::new();
        let mut i: usize = 0;
        while i < n
            invariant
                0 <= i <= n == self@.pools.len(),
                out@.len() == i,
                forall|j: int|
                    0 <= j < i ==> {
                        &&& (#[trigger] out@[j]).function_name@ == self@.pools[j].function_name
                        &&& out@[j].total_containers == self@.pools[j].containers.len()
                        &&& out@[j].healthy_containers == crate::pool::count_status(
                            self@.pools[j].containers,
                            crate::container::ContainerStatus::Healthy,
                        )
                        &&& out@[j].overloaded_containers == crate::pool::count_status(
                            self@.pools[j].containers,
                            crate::container::ContainerStatus::Overloaded,
                        )
                        &&& out@[j].idle_containers == crate::pool::count_status(
                            self@.pools[j].containers,
                            crate::container::ContainerStatus::Idle,
                        )
                        &&& out@[j].min_containers == self@.pools[j].min_containers
                        &&& out@[j].max_containers == self@.pools[j].max_containers
                        &&& out@[j].capacity_utilization_percentage == (
                        if self@.pools[j].max_containers > 0 {
                            (self@.pools[j].containers.len() * 100) as int
                                / self@.pools[j].max_containers as int
                        } else {
                            0int
                        })
                        &&& out@[j].needs_scale_up == self@.pools[j].spec_needs_scale_up()
                        &&& out@[j].can_scale_down == (crate::pool::count_status(
                            self@.pools[j].containers,
                            crate::container::ContainerStatus::Idle,
                        ) > 0 && self@.pools[j].containers.len() > self@.pools[j].min_containers)
                    },
            decreases n - i,
        {
            assert(self@.pools[i as int].wf());
            let status = self.pools[i].get_status();
            out.push(status);
            i = i + 1;
        }
        out
    }
}

} // verus!
