use vstd::prelude::*;
use vstd::utf8::{decode_utf8, encode_utf8, valid_utf8};
use crate::container::{ContainerInfo, ContainerStatus, ContainerView};
use crate::pool::{ContainerPool, MonitoringConfig, PoolView};
use crate::text::{
    bytes_suffix, bytes_to_string, expect_bytes, lemma_encode_utf8_concat, spec_expect,
    string_bytes,
};

verus! {

/// How the autoscaler's state is kept in the outside key-value store.
#[derive(Clone, Debug)]
pub struct PersistenceConfig {
    /// Whether persistence is active at all.
    pub enabled: bool,
    /// Address of the key-value store.
    pub redis_url: String,
    /// Namespace every key is written under.
    pub key_prefix: String,
    /// How many pools are loaded in parallel during recovery.
    pub batch_size: usize,
}

impl Default for PersistenceConfig {
    /// Persistence on, against a local store, under the `autoscaler`
    /// namespace, restoring fifty pools at a time.
    fn default() -> (r: Self)
        ensures
            r.enabled == true,
            r.redis_url@ == "redis://localhost:6379"@,
            r.key_prefix@ == "autoscaler"@,
            r.batch_size == 50,
    {
        PersistenceConfig {
            enabled: true,
            redis_url: String::from_str("redis://localhost:6379"),
            key_prefix: String::from_str("autoscaler"),
            batch_size: 50,
        }
    }
}

/// Mathematical image of a persisted container record.
pub ghost struct PersistedContainerView {
    pub id: Seq<char>,
    pub name: Seq<char>,
    pub container_port: u32,
    pub status: ContainerStatus,
    pub last_active_unix: i64,
    pub idle_since_unix: Option<i64>,
}

/// The serializable form of a container record: monotonic timestamps are
/// replaced by wall-clock seconds.
pub struct PersistedContainerInfo {
    pub id: String,
    pub name: String,
    pub container_port: u32,
    pub status: ContainerStatus,
    pub last_active_unix: i64,
    pub idle_since_unix: Option<i64>,
}

impl View for PersistedContainerInfo {
    type V = PersistedContainerView;

    open spec fn view(&self) -> PersistedContainerView {
        PersistedContainerView {
            id: self.id@,
            name: self.name@,
            container_port: self.container_port,
            status: self.status,
            last_active_unix: self.last_active_unix,
            idle_since_unix: self.idle_since_unix,
        }
    }
}

/// The wall-clock second a monotonic millisecond reading stands for: the
/// current wall clock minus the whole seconds elapsed since the reading,
/// clamped at zero.
pub open spec fn spec_to_unix(t_ms: u64, now_ms: u64, now_unix_s: u64) -> i64 {
    if (now_ms - t_ms) as int / 1000 <= now_unix_s {
        (now_unix_s - (now_ms - t_ms) as int / 1000) as i64
    } else {
        0
    }
}

/// The monotonic millisecond reading a stored wall-clock second stands for:
/// the current monotonic clock minus the seconds that have passed since the
/// value was stored, clamped at zero.
pub open spec fn spec_from_unix(t_unix: i64, now_ms: u64, now_unix_s: u64) -> u64 {
    let delta_s = if t_unix < 0 {
        now_unix_s as int
    } else if t_unix > now_unix_s {
        0int
    } else {
        now_unix_s - t_unix
    };
    if delta_s * 1000 <= now_ms {
        (now_ms - delta_s * 1000) as u64
    } else {
        0
    }
}

/// The persisted image of a live record at the given clocks.
pub open spec fn spec_persist_container(
    c: ContainerView,
    now_ms: u64,
    now_unix_s: u64,
) -> PersistedContainerView {
    PersistedContainerView {
        id: c.id,
        name: c.name,
        container_port: c.container_port,
        status: c.status,
        last_active_unix: spec_to_unix(c.last_active, now_ms, now_unix_s),
        idle_since_unix: match c.idle_since {
            Some(t) => Some(spec_to_unix(t, now_ms, now_unix_s)),
            None => None,
        },
    }
}

/// The live record a persisted image stands for at the given clocks.  The
/// idle timer is kept exactly when the stored status is idle, so the record
/// satisfies its invariant whatever the stored bytes held: an idle record
/// without a stored timer counts as idle since now.
pub open spec fn spec_revive_container(
    p: PersistedContainerView,
    now_ms: u64,
    now_unix_s: u64,
) -> ContainerView {
    ContainerView {
        id: p.id,
        name: p.name,
        container_port: p.container_port,
        status: p.status,
        last_active: spec_from_unix(p.last_active_unix, now_ms, now_unix_s),
        idle_since: if p.status is Idle {
            match p.idle_since_unix {
                Some(t) => Some(spec_from_unix(t, now_ms, now_unix_s)),
                None => Some(now_ms),
            }
        } else {
            None
        },
    }
}

impl PersistedContainerInfo {
    /// Freeze a live record for storage, translating its monotonic
    /// timestamps to wall-clock seconds.
    pub fn from_container_info(container: &ContainerInfo, now_ms: u64, now_unix_s: u64) -> (r:
        Self)
        requires
            container@.timestamps_at_most(now_ms),
            now_unix_s <= i64::MAX as u64,
        ensures
            r@ == spec_persist_container(container@, now_ms, now_unix_s),
    {
        let last_active_unix = to_unix(container.last_active, now_ms, now_unix_s);
        let idle_since_unix = match container.idle_since {
            Some(t) => Some(to_unix(t, now_ms, now_unix_s)),
            None => None,
        };
        PersistedContainerInfo {
            id: container.id.clone(),
            name: container.name.clone(),
            container_port: container.container_port,
            status: container.status,
            last_active_unix,
            idle_since_unix,
        }
    }

    /// Thaw a stored record, translating its wall-clock seconds back onto
    /// the caller's monotonic clock.
    pub fn to_container_info(&self, now_ms: u64, now_unix_s: u64) -> (r: ContainerInfo)
        ensures
            r@ == spec_revive_container(self@, now_ms, now_unix_s),
            r@.wf(),
            r@.timestamps_at_most(now_ms),
    {
        let last_active = from_unix(self.last_active_unix, now_ms, now_unix_s);
        let idle_since = if self.status == ContainerStatus::Idle {
            match self.idle_since_unix {
                Some(t) => Some(from_unix(t, now_ms, now_unix_s)),
                None => Some(now_ms),
            }
        } else {
            None
        };
        ContainerInfo {
            id: self.id.clone(),
            name: self.name.clone(),
            container_port: self.container_port,
            status: self.status,
            last_active,
            idle_since,
        }
    }
}

/// Translate a monotonic millisecond reading to stored wall-clock seconds.
fn to_unix(t_ms: u64, now_ms: u64, now_unix_s: u64) -> (r: i64)
    requires
        t_ms <= now_ms,
        now_unix_s <= i64::MAX as u64,
    ensures
        r == spec_to_unix(t_ms, now_ms, now_unix_s),
        r >= 0,
{
    let elapsed_s = (now_ms - t_ms) / 1000;
    if elapsed_s <= now_unix_s {
        (now_unix_s - elapsed_s) as i64
    } else {
        0
    }
}

/// Translate stored wall-clock seconds back to a monotonic millisecond
/// reading, never past the caller's clock.
fn from_unix(t_unix: i64, now_ms: u64, now_unix_s: u64) -> (r: u64)
    ensures
        r == spec_from_unix(t_unix, now_ms, now_unix_s),
        r <= now_ms,
{
    let delta_s: u64 = if t_unix < 0 {
        now_unix_s
    } else if t_unix as u64 > now_unix_s {
        0
    } else {
        now_unix_s - (t_unix as u64)
    };
    let delta_ms = match delta_s.checked_mul(1000) {
        Some(v) => v,
        None => {
            assert(delta_s * 1000 > u64::MAX >= now_ms);
            return 0u64;
        },
    };
    if delta_ms <= now_ms {
        now_ms - delta_ms
    } else {
        0
    }
}

/// Freezing to wall-clock seconds never reverses the order of two
/// monotonic readings; sub-second gaps may collapse to ties.
pub proof fn lemma_to_unix_monotone(t1: u64, t2: u64, now_ms: u64, now_unix_s: u64)
    requires
        t1 <= t2 <= now_ms,
        now_unix_s <= i64::MAX as u64,
    ensures
        spec_to_unix(t1, now_ms, now_unix_s) <= spec_to_unix(t2, now_ms, now_unix_s),
{
    let e1 = (now_ms - t1) as int / 1000;
    let e2 = (now_ms - t2) as int / 1000;
    vstd::arithmetic::div_mod::lemma_div_is_ordered(
        (now_ms - t2) as int,
        (now_ms - t1) as int,
        1000,
    );
    vstd::arithmetic::div_mod::lemma_div_is_ordered(0, (now_ms - t2) as int, 1000);
    assert(0int / 1000 == 0);
    assert(0 <= e2 <= e1);
    if e1 <= now_unix_s {
        assert(0 <= now_unix_s - e1 <= now_unix_s - e2 <= i64::MAX);
    }
}

/// Thawing stored wall-clock seconds never reverses their order either.
pub proof fn lemma_from_unix_monotone(u1: i64, u2: i64, now_ms: u64, now_unix_s: u64)
    requires
        u1 <= u2,
    ensures
        spec_from_unix(u1, now_ms, now_unix_s) <= spec_from_unix(u2, now_ms, now_unix_s),
{
    let d1 = if u1 < 0 {
        now_unix_s as int
    } else if u1 > now_unix_s {
        0int
    } else {
        now_unix_s - u1
    };
    let d2 = if u2 < 0 {
        now_unix_s as int
    } else if u2 > now_unix_s {
        0int
    } else {
        now_unix_s - u2
    };
    assert(0 <= d2 <= d1);
    assert(d2 * 1000 <= d1 * 1000);
}

/// Mathematical image of a persisted pool.
pub ghost struct PersistedPoolView {
    pub function_name: Seq<char>,
    pub containers: Seq<PersistedContainerView>,
    pub min_containers: usize,
    pub max_containers: usize,
    pub config: MonitoringConfig,
    pub last_updated: i64,
}

/// The serializable form of one pool: composition, not identity.
pub struct PersistedPoolState {
    pub function_name: String,
    pub containers: Vec<PersistedContainerInfo>,
    pub min_containers: usize,
    pub max_containers: usize,
    pub config: MonitoringConfig,
    pub last_updated: i64,
}

impl View for PersistedPoolState {
    type V = PersistedPoolView;

    open spec fn view(&self) -> PersistedPoolView {
        PersistedPoolView {
            function_name: self.function_name@,
            containers: Seq::new(self.containers@.len(), |i: int| self.containers@[i]@),
            min_containers: self.min_containers,
            max_containers: self.max_containers,
            config: self.config,
            last_updated: self.last_updated,
        }
    }
}

/// The persisted image of a whole pool at the given clocks.
pub open spec fn spec_persist_pool(p: PoolView, now_ms: u64, now_unix_s: u64) -> PersistedPoolView {
    PersistedPoolView {
        function_name: p.function_name,
        containers: Seq::new(
            p.containers.len(),
            |i: int| spec_persist_container(p.containers[i], now_ms, now_unix_s),
        ),
        min_containers: p.min_containers,
        max_containers: p.max_containers,
        config: p.config,
        last_updated: now_unix_s as i64,
    }
}

impl ContainerPool {
    /// Freeze the pool for storage.
    pub fn to_persisted_state(&self, now_ms: u64, now_unix_s: u64) -> (r: PersistedPoolState)
        requires
            self@.timestamps_at_most(now_ms),
            now_unix_s <= i64::MAX as u64,
        ensures
            r@ == spec_persist_pool(self@, now_ms, now_unix_s),
    {
        let n = self.containers.len();
        let mut containers: Vec<PersistedContainerInfo> = Vec::new();
        let mut i: usize = 0;
        while i < n
            invariant
                0 <= i <= n == self@.containers.len(),
                self@.timestamps_at_most(now_ms),
                now_unix_s <= i64::MAX as u64,
                containers@.len() == i,
                forall|k: int|
                    0 <= k < i ==> (#[trigger] containers@[k])@ == spec_persist_container(
                        self@.containers[k],
                        now_ms,
                        now_unix_s,
                    ),
            decreases n - i,
        {
            let c = &self.containers[i];
            assert(c@ == self@.containers[i as int]);
            containers.push(PersistedContainerInfo::from_container_info(c, now_ms, now_unix_s));
            i = i + 1;
        }
        let r = PersistedPoolState {
            function_name: self.function_name.clone(),
            containers,
            min_containers: self.min_containers,
            max_containers: self.max_containers,
            config: self.config,
            last_updated: now_unix_s as i64,
        };
        proof {
            assert(r@.containers =~= spec_persist_pool(self@, now_ms, now_unix_s).containers);
        }
        r
    }

    /// Rebuild a pool from its stored image without touching the engine;
    /// the caller validates the containers against reality afterwards.
    /// Stored records beyond the stored ceiling, or with an id already seen,
    /// are dropped so the pool's invariant holds whatever the bytes held.
    pub fn from_persisted_state(persisted: &PersistedPoolState, now_ms: u64, now_unix_s: u64) -> (r:
        ContainerPool)
        ensures
            r@.wf(),
            r@.timestamps_at_most(now_ms),
            r@.function_name == persisted@.function_name,
            r@.min_containers == vstd::math::min(
                persisted@.min_containers as int,
                persisted@.max_containers as int,
            ),
            r@.max_containers == persisted@.max_containers,
            r@.config == persisted@.config,
            (forall|i: int, j: int|
                #![trigger persisted@.containers[i], persisted@.containers[j]]
                0 <= i < j < persisted@.containers.len() ==> persisted@.containers[i].id
                    != persisted@.containers[j].id) && persisted@.containers.len()
                <= persisted@.max_containers ==> r@.containers == Seq::new(
                persisted@.containers.len(),
                |i: int| spec_revive_container(persisted@.containers[i], now_ms, now_unix_s),
            ),
    {
        let min_containers = if persisted.min_containers <= persisted.max_containers {
            persisted.min_containers
        } else {
            persisted.max_containers
        };
        let mut pool = ContainerPool::new(
            persisted.function_name.clone(),
            persisted.config,
            min_containers,
            persisted.max_containers,
        );
        let n = persisted.containers.len();
        let mut i: usize = 0;
        while i < n
            invariant
                0 <= i <= n == persisted@.containers.len(),
                pool@.wf(),
                pool@.timestamps_at_most(now_ms),
                pool@.function_name == persisted@.function_name,
                pool@.min_containers == min_containers,
                pool@.max_containers == persisted@.max_containers,
                pool@.config == persisted@.config,
                (forall|a: int, b: int|
                    #![trigger persisted@.containers[a], persisted@.containers[b]]
                    0 <= a < b < persisted@.containers.len() ==> persisted@.containers[a].id
                        != persisted@.containers[b].id) && persisted@.containers.len()
                    <= persisted@.max_containers ==> pool@.containers == Seq::new(
                    i as nat,
                    |k: int| spec_revive_container(persisted@.containers[k], now_ms, now_unix_s),
                ),
            decreases n - i,
        {
            let p = &persisted.containers[i];
            assert(p@ == persisted@.containers[i as int]);
            let info = p.to_container_info(now_ms, now_unix_s);
            let ghost before = pool@.containers;
            let added = pool.insert_container(info);
            proof {
                if (forall|a: int, b: int|
                    #![trigger persisted@.containers[a], persisted@.containers[b]]
                    0 <= a < b < persisted@.containers.len() ==> persisted@.containers[a].id
                        != persisted@.containers[b].id) && persisted@.containers.len()
                    <= persisted@.max_containers {
                    let target = Seq::new(
                        i as nat,
                        |k: int|
                            spec_revive_container(persisted@.containers[k], now_ms, now_unix_s),
                    );
                    assert(before == target);
                    assert forall|k: int| 0 <= k < i as int implies (#[trigger] before[k]).id
                        != info@.id by {
                        assert(before[k] == spec_revive_container(
                            persisted@.containers[k],
                            now_ms,
                            now_unix_s,
                        ));
                        assert(persisted@.containers[k].id != persisted@.containers[i as int].id);
                    }
                    assert(added);
                    assert(pool@.containers =~= Seq::new(
                        (i + 1) as nat,
                        |k: int|
                            spec_revive_container(persisted@.containers[k], now_ms, now_unix_s),
                    ));
                }
            }
            i = i + 1;
        }
        pool
    }
}

/// Lightweight metadata the persistence layer stores beside the pools.
pub struct PersistenceMetadata {
    pub version: String,
    pub last_cleanup: i64,
    pub total_pools: usize,
}

/// Mathematical image of the persistence metadata.
pub ghost struct PersistenceMetadataView {
    pub version: Seq<char>,
    pub last_cleanup: i64,
    pub total_pools: usize,
}

impl View for PersistenceMetadata {
    type V = PersistenceMetadataView;

    open spec fn view(&self) -> PersistenceMetadataView {
        PersistenceMetadataView {
            version: self.version@,
            last_cleanup: self.last_cleanup,
            total_pools: self.total_pools,
        }
    }
}

impl PersistenceMetadata {
    /// Fresh metadata: schema version 1.0, cleaned up now.
    pub fn new(total_pools: usize, now_unix_s: u64) -> (r: Self)
        requires
            now_unix_s <= i64::MAX as u64,
        ensures
            r@.version == "1.0"@,
            r@.last_cleanup == now_unix_s as i64,
            r@.total_pools == total_pools,
    {
        PersistenceMetadata {
            version: String::from_str("1.0"),
            last_cleanup: now_unix_s as i64,
            total_pools,
        }
    }
}

/// The key-side of the persistence layer: key construction and recognition,
/// and the stale-key decision.  The store itself is driven by the caller.
#[derive(Clone)]
pub struct AutoscalerPersistence {
    pub config: PersistenceConfig,
}

impl AutoscalerPersistence {
    /// A persistence handler for the given configuration.
    pub fn new(config: PersistenceConfig) -> (r: Self)
        ensures
            r.config == config,
    {
        AutoscalerPersistence { config }
    }

    /// Whether persistence is active.
    pub fn is_enabled(&self) -> (r: bool)
        ensures
            r == self.config.enabled,
    {
        self.config.enabled
    }

    /// The store key a pool lives under.
    pub fn pool_key(&self, function_key: &str) -> (r: String)
        ensures
            r@ == self.config.key_prefix@ + ":pool:"@ + function_key@,
    {
        self.config.key_prefix.clone().concat(":pool:").concat(function_key)
    }

    /// The store key the metadata lives under.
    pub fn metadata_key(&self) -> (r: String)
        ensures
            r@ == self.config.key_prefix@ + ":metadata"@,
    {
        self.config.key_prefix.clone().concat(":metadata")
    }

    /// Recognize a pool key: on success the function key it was built from,
    /// absent when the key does not lie in this handler's pool namespace.
    #[verifier::rlimit(50)]
    pub fn strip_pool_key(&self, key: &str) -> (r: Option<String>)
        ensures
            match r {
                Some(fk) => key@ == self.config.key_prefix@ + ":pool:"@ + fk@,
                None => !(exists|fk: Seq<char>|
                    key@ == self.config.key_prefix@ + ":pool:"@ + fk),
            },
    {
        let ghost p0 = self.config.key_prefix@ + ":pool:"@;
        let kb = string_bytes(key);
        let mut pb = string_bytes(self.config.key_prefix.as_str());
        let mut mid = string_bytes(":pool:");
        pb.append(&mut mid);
        proof {
            lemma_encode_utf8_concat(self.config.key_prefix@, ":pool:"@);
            assert(pb@ == encode_utf8(p0));
            vstd::utf8::encode_utf8_valid_utf8(p0);
            vstd::utf8::encode_utf8_decode_utf8(p0);
        }
        let kn = kb.len();
        assert(kn == kb@.len());
        match expect_bytes(&kb, 0, pb.as_slice()) {
            Some(end) => {
                assert(kb@.skip(0) =~= kb@);
                let ghost rem = kb@.skip(pb@.len() as int);
                assert(spec_expect(kb@, pb@) is Some);
                assert(spec_expect(kb@, pb@)->0 == kb@.skip(pb@.len() as int));
                assert(spec_expect(kb@, pb@)->0 == rem);
                assert(rem.len() == kb@.len() - pb@.len());
                assert(end == (kb@.len() - rem.len()) as usize);
                assert(end == kb@.len() - rem.len());
                assert(end == pb@.len());
                let rest = bytes_suffix(&kb, end);
                proof {
                    assert(kb@.subrange(0, pb@.len() as int) == pb@);
                    assert(kb@ =~= pb@ + rest@);
                    if !valid_utf8(rest@) {
                        assert(kb@.subrange(pb@.len() as int, kb@.len() as int) =~= rest@);
                        vstd::utf8::partial_valid_partial_invalid_utf8(kb@, pb@.len() as int);
                        assert(false);
                    }
                    vstd::utf8::decode_utf8_encode_utf8(rest@);
                    let fkc = decode_utf8(rest@);
                    lemma_encode_utf8_concat(p0, fkc);
                    assert(encode_utf8(p0 + fkc) =~= encode_utf8(key@));
                    vstd::utf8::encode_utf8_decode_utf8(p0 + fkc);
                    vstd::utf8::encode_utf8_decode_utf8(key@);
                    assert(key@ == p0 + fkc);
                }
                match bytes_to_string(rest) {
                    Some(fk) => Some(fk),
                    None => {
                        proof {
                            assert(false);
                        }
                        None
                    },
                }
            },
            None => {
                proof {
                    if exists|fk: Seq<char>| key@ == p0 + fk {
                        let fk = choose|fk: Seq<char>| key@ == p0 + fk;
                        lemma_encode_utf8_concat(p0, fk);
                        assert(kb@ == pb@ + encode_utf8(fk));
                        assert(kb@.skip(0) =~= kb@);
                        assert(kb@.subrange(0, pb@.len() as int) =~= pb@);
                        assert(spec_expect(kb@, pb@) is Some);
                    }
                }
                None
            },
        }
    }

    /// The function keys hiding in a listing of store keys: every key that
    /// lies in the pool namespace, stripped down to its function key, in
    /// listing order.
    #[verifier::loop_isolation(false)]
    pub fn extract_function_keys(&self, keys: &Vec<String>) -> (r: Vec<String>)
        ensures
            spec_key_views(r@) == spec_extract(
                self.config.key_prefix@ + ":pool:"@,
                spec_key_views(keys@),
            ),
    {
        let ghost p0 = self.config.key_prefix@ + ":pool:"@;
        let n = keys.len();
        let mut out: Vec<String> = Vec::new();
        let mut i: usize = 0;
        assert(spec_key_views(keys@).take(0) =~= Seq::<Seq<char>>::empty());
        assert(spec_key_views(out@) =~= spec_extract(p0, spec_key_views(keys@).take(0)));
        while i < n
            invariant
                0 <= i <= n == keys@.len(),
                spec_key_views(out@) == spec_extract(p0, spec_key_views(keys@).take(i as int)),
            decreases n - i,
        {
            let ghost kv = spec_key_views(keys@);
            assert(kv.take(i as int + 1).drop_last() =~= kv.take(i as int));
            assert(kv.take(i as int + 1).last() == kv[i as int]);
            let key_i = keys[i].as_str();
            assert(key_i@ == kv[i as int]);
            match self.strip_pool_key(key_i) {
                Some(fk) => {
                    let ghost fkv = fk@;
                    proof {
                        assert(kv[i as int] == p0 + fkv);
                        assert((p0 + fkv).subrange(0, p0.len() as int) =~= p0);
                        assert((p0 + fkv).skip(p0.len() as int) =~= fkv);
                    }
                    out.push(fk);
                    assert(spec_key_views(out@) =~= spec_extract(p0, kv.take(i as int)).push(
                        fkv,
                    ));
                },
                None => {
                    proof {
                        if kv[i as int].len() >= p0.len() && kv[i as int].subrange(
                            0,
                            p0.len() as int,
                        ) == p0 {
                            let fkw = kv[i as int].skip(p0.len() as int);
                            assert(kv[i as int] =~= p0 + fkw);
                            assert(false);
                        }
                    }
                },
            }
            i = i + 1;
        }
        assert(spec_key_views(keys@).take(n as int) =~= spec_key_views(keys@));
        out
    }

    /// The persisted keys that no longer correspond to an active pool and
    /// should be deleted from the store.
    pub fn stale_keys(&self, persisted_keys: &Vec<String>, active_keys: &Vec<String>) -> (r: Vec<
        String,
    >)
        ensures
            spec_key_views(r@) == spec_stale(
                spec_key_views(persisted_keys@),
                spec_key_views(active_keys@),
            ),
    {
        let n = persisted_keys.len();
        let mut out: Vec<String> = Vec::new();
        let mut i: usize = 0;
        assert(spec_key_views(persisted_keys@).take(0) =~= Seq::<Seq<char>>::empty());
        assert(spec_key_views(out@) =~= spec_stale(
            spec_key_views(persisted_keys@).take(0),
            spec_key_views(active_keys@),
        ));
        while i < n
            invariant
                0 <= i <= n == persisted_keys@.len(),
                spec_key_views(out@) == spec_stale(
                    spec_key_views(persisted_keys@).take(i as int),
                    spec_key_views(active_keys@),
                ),
            decreases n - i,
        {
            let ghost pk = spec_key_views(persisted_keys@);
            let ghost ak = spec_key_views(active_keys@);
            assert(pk.take(i as int + 1).drop_last() =~= pk.take(i as int));
            assert(pk.take(i as int + 1).last() == pk[i as int]);
            if !crate::pool::contains_str(active_keys, persisted_keys[i].as_str()) {
                out.push(persisted_keys[i].clone());
                assert(spec_key_views(out@) =~= spec_stale(pk.take(i as int), ak).push(
                    pk[i as int],
                ));
            }
            i = i + 1;
        }
        assert(spec_key_views(persisted_keys@).take(n as int) =~= spec_key_views(
            persisted_keys@,
        ));
        out
    }
}

/// The views of a sequence of keys.
pub open spec fn spec_key_views(v: Seq<String>) -> Seq<Seq<char>> {
    Seq::new(v.len(), |i: int| v[i]@)
}

/// The function keys of the listed keys that lie under the pool prefix,
/// in listing order.
pub open spec fn spec_extract(prefix: Seq<char>, keys: Seq<Seq<char>>) -> Seq<Seq<char>>
    decreases keys.len(),
{
    if keys.len() == 0 {
        Seq::empty()
    } else if keys.last().len() >= prefix.len() && keys.last().subrange(0, prefix.len() as int)
        == prefix {
        spec_extract(prefix, keys.drop_last()).push(keys.last().skip(prefix.len() as int))
    } else {
        spec_extract(prefix, keys.drop_last())
    }
}

/// The keys of `persisted` that do not appear in `active`, in order.
pub open spec fn spec_stale(persisted: Seq<Seq<char>>, active: Seq<Seq<char>>) -> Seq<Seq<char>>
    decreases persisted.len(),
{
    if persisted.len() == 0 {
        Seq::empty()
    } else if !active.contains(persisted.last()) {
        spec_stale(persisted.drop_last(), active).push(persisted.last())
    } else {
        spec_stale(persisted.drop_last(), active)
    }
}

} // verus!
