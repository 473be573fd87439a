use vstd::prelude::*;
use vstd::utf8::{encode_utf8, valid_utf8};
use crate::container::MilliPercent;
use crate::errors::RuntimeError;
use crate::text::{
    bytes_to_string, dec_value, is_digit_byte, string_bytes, DIGIT_ZERO, MINUS,
};

verus! {

/// Configuration of the metrics client.
#[derive(Clone, Debug)]
pub struct MetricsConfig {
    /// Address of the metrics store.
    pub prometheus_url: String,
    /// Query timeout, in milliseconds.
    pub query_timeout_ms: u64,
    /// How long a fetched sample stays fresh, in milliseconds.
    pub cache_ttl_ms: u64,
    /// How many attempts one query gets.
    pub max_retries: u32,
}

impl Default for MetricsConfig {
    /// A local metrics store, 5 s timeout and cache, three attempts.
    fn default() -> (r: Self)
        ensures
            r.prometheus_url@ == "http://prometheus:9090"@,
            r.query_timeout_ms == 5000,
            r.cache_ttl_ms == 5000,
            r.max_retries == 3,
    {
        MetricsConfig {
            prometheus_url: String::from_str("http://prometheus:9090"),
            query_timeout_ms: 5000,
            cache_ttl_ms: 5000,
            max_retries: 3,
        }
    }
}

/// One cached sample.
pub struct CacheEntry {
    pub container_id: String,
    pub value: MilliPercent,
    pub timestamp_ms: u64,
}

/// Mathematical image of a cache entry.
pub ghost struct CacheEntryView {
    pub container_id: Seq<char>,
    pub value: MilliPercent,
    pub timestamp_ms: u64,
}

impl View for CacheEntry {
    type V = CacheEntryView;

    open spec fn view(&self) -> CacheEntryView {
        CacheEntryView {
            container_id: self.container_id@,
            value: self.value,
            timestamp_ms: self.timestamp_ms,
        }
    }
}

/// The first cache entry for `id`, if any.
pub open spec fn spec_cache_get(entries: Seq<CacheEntryView>, id: Seq<char>) -> Option<
    CacheEntryView,
>
    decreases entries.len(),
{
    if entries.len() == 0 {
        None
    } else if entries[0].container_id == id {
        Some(entries[0])
    } else {
        spec_cache_get(entries.drop_first(), id)
    }
}

/// Views of a cache.
pub open spec fn cache_views(v: Seq<CacheEntry>) -> Seq<CacheEntryView> {
    Seq::new(v.len(), |i: int| v[i]@)
}

/// The caching half of the metrics client: one entry per container and
/// metric, fresh for the configured TTL.  The HTTP half lives with the
/// caller, which hands response bodies to `metric_from_response`.
pub struct MetricsClient {
    pub config: MetricsConfig,
    pub cpu_cache: Vec<CacheEntry>,
    pub memory_cache: Vec<CacheEntry>,
}

impl MetricsClient {
    /// A client with empty caches.
    pub fn new(config: MetricsConfig) -> (r: Self)
        ensures
            r.config == config,
            cache_views(r.cpu_cache@).len() == 0,
            cache_views(r.memory_cache@).len() == 0,
    {
        let r = MetricsClient { config, cpu_cache: Vec::new(), memory_cache: Vec::new() };
        assert(cache_views(r.cpu_cache@).len() == 0);
        assert(cache_views(r.memory_cache@).len() == 0);
        r
    }

    /// The cached CPU sample for a container, while it is still fresh.
    pub fn get_cached_cpu(&self, container_id: &str, now_ms: u64) -> (r: Option<MilliPercent>)
        ensures
            r == spec_cache_lookup(
                cache_views(self.cpu_cache@),
                container_id@,
                self.config.cache_ttl_ms,
                now_ms,
            ),
    {
        cache_lookup(&self.cpu_cache, container_id, self.config.cache_ttl_ms, now_ms)
    }

    /// The cached memory sample for a container, while it is still fresh.
    pub fn get_cached_memory(&self, container_id: &str, now_ms: u64) -> (r: Option<MilliPercent>)
        ensures
            r == spec_cache_lookup(
                cache_views(self.memory_cache@),
                container_id@,
                self.config.cache_ttl_ms,
                now_ms,
            ),
    {
        cache_lookup(&self.memory_cache, container_id, self.config.cache_ttl_ms, now_ms)
    }

    /// Remember a CPU sample for a container, replacing its earlier one;
    /// every other container's entry is untouched.
    pub fn cache_cpu_metric(&mut self, container_id: &str, value: MilliPercent, now_ms: u64)
        ensures
            spec_cache_get(cache_views(final(self).cpu_cache@), container_id@) == Some(
                (CacheEntryView { container_id: container_id@, value: value, timestamp_ms: now_ms }),
            ),
            forall|other: Seq<char>|
                other != container_id@ ==> #[trigger] spec_cache_get(
                    cache_views(final(self).cpu_cache@),
                    other,
                ) == spec_cache_get(cache_views(old(self).cpu_cache@), other),
            final(self).config == old(self).config,
            final(self).memory_cache == old(self).memory_cache,
    {
        cache_store(&mut self.cpu_cache, container_id, value, now_ms);
    }

    /// Remember a memory sample for a container, replacing its earlier one;
    /// every other container's entry is untouched.
    pub fn cache_memory_metric(&mut self, container_id: &str, value: MilliPercent, now_ms: u64)
        ensures
            spec_cache_get(cache_views(final(self).memory_cache@), container_id@) == Some(
                (CacheEntryView { container_id: container_id@, value: value, timestamp_ms: now_ms }),
            ),
            forall|other: Seq<char>|
                other != container_id@ ==> #[trigger] spec_cache_get(
                    cache_views(final(self).memory_cache@),
                    other,
                ) == spec_cache_get(cache_views(old(self).memory_cache@), other),
            final(self).config == old(self).config,
            final(self).cpu_cache == old(self).cpu_cache,
    {
        cache_store(&mut self.memory_cache, container_id, value, now_ms);
    }
}

/// A fresh cached value: present and younger than the TTL.
pub open spec fn spec_cache_lookup(
    entries: Seq<CacheEntryView>,
    id: Seq<char>,
    ttl_ms: u64,
    now_ms: u64,
) -> Option<MilliPercent> {
    match spec_cache_get(entries, id) {
        Some(e) => if e.timestamp_ms <= now_ms && now_ms - e.timestamp_ms < ttl_ms {
            Some(e.value)
        } else {
            None
        },
        None => None,
    }
}

/// Look a container's sample up in one cache.
#[verifier::loop_isolation(false)]
fn cache_lookup(entries: &Vec<CacheEntry>, id: &str, ttl_ms: u64, now_ms: u64) -> (r: Option<
    MilliPercent,
>)
    ensures
        r == spec_cache_lookup(cache_views(entries@), id@, ttl_ms, now_ms),
{
    let ghost w = cache_views(entries@);
    let n = entries.len();
    let mut i: usize = 0;
    assert(w.skip(0) =~= w);
    while i < n
        invariant
            0 <= i <= n == entries@.len(),
            spec_cache_get(w, id@) == spec_cache_get(w.skip(i as int), id@),
        decreases n - i,
    {
        assert(w.skip(i as int)[0] == w[i as int]);
        assert(w.skip(i as int).drop_first() =~= w.skip(i as int + 1));
        if crate::text::str_eq(entries[i].container_id.as_str(), id) {
            assert(w[i as int].container_id == id@);
            let e = &entries[i];
            if e.timestamp_ms <= now_ms && now_ms - e.timestamp_ms < ttl_ms {
                return Some(e.value);
            }
            return None;
        }
        assert(w[i as int].container_id != id@);
        i = i + 1;
    }
    assert(w.skip(n as int).len() == 0);
    None
}

/// Store a sample in one cache, replacing the container's earlier entry or
/// appending a new one; entries of other containers are untouched.
#[verifier::loop_isolation(false)]
fn cache_store(entries: &mut Vec<CacheEntry>, id: &str, value: MilliPercent, now_ms: u64)
    ensures
        spec_cache_get(cache_views(final(entries)@), id@) == Some(
            (CacheEntryView { container_id: id@, value: value, timestamp_ms: now_ms }),
        ),
        forall|other: Seq<char>|
            other != id@ ==> #[trigger] spec_cache_get(cache_views(final(entries)@), other)
                == spec_cache_get(cache_views(old(entries)@), other),
{
    let n = entries.len();
    let mut i: usize = 0;
    while i < n
        invariant
            0 <= i <= n == entries@.len(),
            *entries == *old(entries),
            forall|j: int|
                0 <= j < i ==> (#[trigger] cache_views(entries@)[j]).container_id != id@,
        decreases n - i,
    {
        if crate::text::str_eq(entries[i].container_id.as_str(), id) {
            assert(cache_views(entries@)[i as int].container_id == id@);
            let e = &mut entries[i];
            e.value = value;
            e.timestamp_ms = now_ms;
            e.container_id = String::from_str(id);
            proof {
                let w = cache_views(entries@);
                let w_old = cache_views(old(entries)@);
                let entry = CacheEntryView { container_id: id@, value: value, timestamp_ms: now_ms };
                assert(w[i as int].container_id == id@);
                assert forall|j: int| 0 <= j < i as int implies (#[trigger] w[j]).container_id
                    != id@ by {
                    assert(entries@[j] == old(entries)@[j]);
                    assert(w[j] == w_old[j]);
                }
                lemma_cache_get_at(w, id@, i as int);
                assert(w =~= w_old.update(i as int, entry));
                assert forall|other: Seq<char>| other != id@ implies #[trigger] spec_cache_get(
                    w,
                    other,
                ) == spec_cache_get(w_old, other) by {
                    lemma_cache_get_update(w_old, i as int, entry, other);
                }
            }
            return ;
        }
        assert(cache_views(entries@)[i as int].container_id != id@);
        i = i + 1;
    }
    entries.push(
        CacheEntry { container_id: String::from_str(id), value, timestamp_ms: now_ms },
    );
    proof {
        let w = cache_views(entries@);
        let w_old = cache_views(old(entries)@);
        let entry = CacheEntryView { container_id: id@, value: value, timestamp_ms: now_ms };
        assert(w[n as int].container_id == id@);
        assert forall|j: int| 0 <= j < n as int implies (#[trigger] w[j]).container_id != id@ by {
            assert(entries@[j] == old(entries)@[j]);
            assert(w[j] == w_old[j]);
        }
        lemma_cache_get_at(w, id@, n as int);
        assert(w =~= w_old.push(entry));
        assert forall|other: Seq<char>| other != id@ implies #[trigger] spec_cache_get(w, other)
            == spec_cache_get(w_old, other) by {
            lemma_cache_get_push(w_old, entry, other);
        }
    }
}

/// When the first `i` entries miss and entry `i` matches, the lookup finds
/// entry `i`.
proof fn lemma_cache_get_at(entries: Seq<CacheEntryView>, id: Seq<char>, i: int)
    requires
        0 <= i < entries.len(),
        entries[i].container_id == id,
        forall|j: int| 0 <= j < i ==> (#[trigger] entries[j]).container_id != id,
    ensures
        spec_cache_get(entries, id) == Some(entries[i]),
    decreases i,
{
    if i == 0 {
    } else {
        assert(entries.drop_first()[i - 1] == entries[i]);
        assert(forall|j: int|
            0 <= j < i - 1 ==> (#[trigger] entries.drop_first()[j]).container_id != id);
        lemma_cache_get_at(entries.drop_first(), id, i - 1);
    }
}

/// Replacing the entry at `i` leaves every other container's lookup as it
/// was, provided neither the old nor the new entry carries that id.
proof fn lemma_cache_get_update(
    entries: Seq<CacheEntryView>,
    i: int,
    e: CacheEntryView,
    other: Seq<char>,
)
    requires
        0 <= i < entries.len(),
        entries[i].container_id != other,
        e.container_id != other,
    ensures
        spec_cache_get(entries.update(i, e), other) == spec_cache_get(entries, other),
    decreases entries.len(),
{
    let updated = entries.update(i, e);
    if i == 0 {
        assert(updated[0] == e);
        assert(updated.drop_first() =~= entries.drop_first());
    } else {
        assert(updated[0] == entries[0]);
        if entries[0].container_id == other {
        } else {
            assert(updated.drop_first() =~= entries.drop_first().update(i - 1, e));
            lemma_cache_get_update(entries.drop_first(), i - 1, e, other);
        }
    }
}

/// Appending an entry for one container leaves every other container's
/// lookup as it was.
proof fn lemma_cache_get_push(entries: Seq<CacheEntryView>, e: CacheEntryView, other: Seq<char>)
    requires
        e.container_id != other,
    ensures
        spec_cache_get(entries.push(e), other) == spec_cache_get(entries, other),
    decreases entries.len(),
{
    let appended = entries.push(e);
    if entries.len() == 0 {
        assert(appended[0] == e);
        assert(appended.drop_first() =~= Seq::<CacheEntryView>::empty());
        assert(spec_cache_get(Seq::<CacheEntryView>::empty(), other) is None);
        assert(spec_cache_get(appended, other) == spec_cache_get(appended.drop_first(), other));
        assert(spec_cache_get(entries, other) is None);
    } else {
        assert(appended[0] == entries[0]);
        if entries[0].container_id == other {
        } else {
            assert(appended.drop_first() =~= entries.drop_first().push(e));
            lemma_cache_get_push(entries.drop_first(), e, other);
        }
    }
}

/// Linear backoff before a retry: one hundred milliseconds per attempt.
pub fn backoff_ms(attempt: u32) -> (r: u64)
    ensures
        r == 100 * attempt as u64,
{
    100u64 * (attempt as u64)
}

/// The value a metrics sample string stands for, in milli-percent.
/// The store writes `NaN` and infinities during a container's first window;
/// those and negative readings count as zero load.  A plain decimal is read
/// to three fractional digits, saturating at `u64::MAX`; anything else is a
/// parse failure.
pub open spec fn spec_metric_value(s: Seq<u8>) -> Option<MilliPercent> {
    if s == encode_utf8("NaN"@) || s == encode_utf8("+Inf"@) || s == encode_utf8("-Inf"@) || s
        == encode_utf8("Inf"@) {
        Some(0)
    } else if s.len() > 0 && (s[0] == MINUS || s[0] == 0x2B) {
        match spec_decimal_mpct(s.skip(1)) {
            Some(v) => Some(if s[0] == MINUS { 0 } else { v }),
            None => None,
        }
    } else {
        spec_decimal_mpct(s)
    }
}

/// An unsigned decimal with an optional fractional part, read to
/// milli-percent precision with truncation, saturating at `u64::MAX`.
pub open spec fn spec_decimal_mpct(s: Seq<u8>) -> Option<MilliPercent> {
    match crate::text::spec_parse_u64(s) {
        None => None,
        Some((whole, rem)) => if rem.len() == 0 {
            Some(sat_u64(whole as nat * 1000))
        } else if rem[0] == 0x2E && rem.len() > 1 && all_digits(rem.skip(1)) {
            Some(sat_u64(whole as nat * 1000 + frac_mpct(rem.skip(1))))
        } else {
            None
        },
    }
}

/// Whether every byte is a decimal digit.
pub open spec fn all_digits(s: Seq<u8>) -> bool {
    forall|i: int| 0 <= i < s.len() ==> is_digit_byte(#[trigger] s[i])
}

/// The milli-percent value of a fractional digit string: its first three
/// digits, padded with zeros.
pub open spec fn frac_mpct(digits: Seq<u8>) -> nat {
    if digits.len() >= 3 {
        dec_value(digits.take(3))
    } else if digits.len() == 2 {
        dec_value(digits) * 10
    } else {
        dec_value(digits) * 100
    }
}

/// Clamp a mathematical value into `u64`.
pub open spec fn sat_u64(v: nat) -> u64 {
    if v > u64::MAX {
        u64::MAX
    } else {
        v as u64
    }
}

/// Parse a metrics sample string into milli-percent.
#[verifier::loop_isolation(false)]
pub fn parse_metric_value(s: &Vec<u8>) -> (r: Option<MilliPercent>)
    ensures
        r == spec_metric_value(s@),
{
    let n = s.len();
    assert(n == s@.len());
    if is_exactly(s, "NaN") || is_exactly(s, "+Inf") || is_exactly(s, "-Inf") || is_exactly(
        s,
        "Inf",
    ) {
        return Some(0);
    }
    if n > 0 && (s[0] == MINUS || s[0] == 0x2B) {
        let neg = s[0] == MINUS;
        assert(s@.skip(0) =~= s@);
        match decimal_mpct(s, 1) {
            Some(v) => Some(if neg { 0 } else { v }),
            None => None,
        }
    } else {
        match decimal_mpct(s, 0) {
            Some(v) => {
                assert(s@.skip(0) =~= s@);
                Some(v)
            },
            None => {
                assert(s@.skip(0) =~= s@);
                None
            },
        }
    }
}

/// Whether the bytes hold exactly the given literal.
fn is_exactly(s: &Vec<u8>, lit: &str) -> (r: bool)
    ensures
        r == (s@ == encode_utf8(lit@)),
{
    assert(s@.skip(0) =~= s@);
    match crate::codec::expect_lit(s, 0, lit) {
        Some(end) => {
            if end == s.len() {
                assert(s@.skip(end as int).len() == 0);
                assert(s@ =~= encode_utf8(lit@));
                true
            } else {
                assert(s@.len() != encode_utf8(lit@).len());
                false
            }
        },
        None => {
            proof {
                if s@ == encode_utf8(lit@) {
                    assert(s@.subrange(0, encode_utf8(lit@).len() as int) =~= encode_utf8(lit@));
                }
            }
            false
        },
    }
}

/// Parse an unsigned decimal with optional fraction starting at `pos`, to
/// milli-percent.
#[verifier::loop_isolation(false)]
fn decimal_mpct(s: &Vec<u8>, pos: usize) -> (r: Option<MilliPercent>)
    requires
        pos <= s@.len(),
    ensures
        r == spec_decimal_mpct(s@.skip(pos as int)),
{
    let n = s.len();
    assert(n == s@.len());
    let ghost w = s@.skip(pos as int);
    let (whole, after) = match crate::text::parse_u64(s, pos) {
        Some(x) => x,
        None => {
            return None;
        },
    };
    proof {
        crate::text::lemma_parse_u64_suffix(w);
        let rem = (crate::text::spec_parse_u64(w)->0).1;
        assert(rem == w.skip(w.len() - rem.len()));
        assert(w.skip(w.len() - rem.len()) =~= s@.skip(s@.len() - rem.len()));
        assert(s@.skip(after as int) == rem);
    }
    if after == n {
        assert(s@.skip(after as int).len() == 0);
        return Some(mul_sat_1000(whole, 0));
    }
    assert(s@.skip(after as int)[0] == s@[after as int]);
    if s[after] != 0x2E {
        return None;
    }
    if after + 1 == n {
        assert(s@.skip(after as int).len() == 1);
        return None;
    }
    // Every byte after the point must be a digit; the first three carry the
    // milli-percent precision.
    let fr_start = after + 1;
    let ghost frs = s@.skip(after as int).skip(1);
    assert(frs =~= s@.skip(fr_start as int));
    let mut i: usize = fr_start;
    while i < n
        invariant
            fr_start <= i <= n,
            forall|j: int| fr_start <= j < i ==> is_digit_byte(#[trigger] s@[j]),
        decreases n - i,
    {
        if !(s[i] >= DIGIT_ZERO && s[i] <= 0x39) {
            assert(!is_digit_byte(s@[i as int]));
            assert(frs[i - fr_start] == s@[i as int]);
            return None;
        }
        i = i + 1;
    }
    assert(all_digits(frs)) by {
        assert(forall|j: int| 0 <= j < frs.len() ==> frs[j] == s@[j + fr_start]);
    }
    let frac_len = n - fr_start;
    let d0 = (s[fr_start] - DIGIT_ZERO) as u64;
    let frac: u64 = if frac_len >= 3 {
        let d1 = (s[fr_start + 1] - DIGIT_ZERO) as u64;
        let d2 = (s[fr_start + 2] - DIGIT_ZERO) as u64;
        proof {
            let t = frs.take(3);
            assert(t.len() == 3);
            assert(t.drop_last() =~= frs.take(2));
            assert(frs.take(2).drop_last() =~= frs.take(1));
            assert(frs.take(1).drop_last() =~= Seq::<u8>::empty());
            assert(dec_value(Seq::<u8>::empty()) == 0);
            assert(frs.take(1).last() == frs[0]);
            assert(frs.take(2).last() == frs[1]);
            assert(t.last() == frs[2]);
            assert(frs[0] == s@[fr_start as int]);
            assert(frs[1] == s@[fr_start as int + 1]);
            assert(frs[2] == s@[fr_start as int + 2]);
            assert(dec_value(frs.take(1)) == (frs[0] - DIGIT_ZERO) as nat);
            assert(dec_value(frs.take(2)) == dec_value(frs.take(1)) * 10 + (frs[1]
                - DIGIT_ZERO) as nat);
            assert(dec_value(t) == dec_value(frs.take(2)) * 10 + (frs[2] - DIGIT_ZERO) as nat);
        }
        d0 * 100 + d1 * 10 + d2
    } else if frac_len == 2 {
        let d1 = (s[fr_start + 1] - DIGIT_ZERO) as u64;
        proof {
            assert(frs.len() == 2);
            assert(frs.drop_last() =~= frs.take(1));
            assert(frs.take(1).drop_last() =~= Seq::<u8>::empty());
            assert(dec_value(Seq::<u8>::empty()) == 0);
            assert(frs.take(1).last() == frs[0]);
            assert(frs.last() == frs[1]);
            assert(frs[0] == s@[fr_start as int]);
            assert(frs[1] == s@[fr_start as int + 1]);
            assert(dec_value(frs.take(1)) == (frs[0] - DIGIT_ZERO) as nat);
            assert(dec_value(frs) == dec_value(frs.take(1)) * 10 + (frs[1] - DIGIT_ZERO) as nat);
        }
        (d0 * 10 + d1) * 10
    } else {
        proof {
            assert(frs.len() == 1);
            assert(frs.drop_last() =~= Seq::<u8>::empty());
            assert(dec_value(Seq::<u8>::empty()) == 0);
            assert(frs.last() == frs[0]);
            assert(frs[0] == s@[fr_start as int]);
            assert(dec_value(frs) == (frs[0] - DIGIT_ZERO) as nat);
        }
        d0 * 100
    };
    assert(frac == frac_mpct(frs));
    assert(frac <= 999) by {
        assert(frac_mpct(frs) <= 999) by {
            if frs.len() >= 3 {
                let t = frs.take(3);
                assert(dec_value(t) <= 999) by {
                    assert(t.drop_last() =~= frs.take(2));
                    assert(frs.take(2).drop_last() =~= frs.take(1));
                    assert(frs.take(1).drop_last() =~= Seq::<u8>::empty());
                }
            }
        }
    }
    Some(mul_sat_1000(whole, frac))
}

/// `whole * 1000 + frac`, saturating at `u64::MAX`.
fn mul_sat_1000(whole: u64, frac: u64) -> (r: u64)
    ensures
        r == sat_u64(whole as nat * 1000 + frac as nat),
{
    match whole.checked_mul(1000) {
        Some(v) => match v.checked_add(frac) {
            Some(t) => t,
            None => u64::MAX,
        },
        None => {
            assert(whole as nat * 1000 + frac as nat > u64::MAX);
            u64::MAX
        },
    }
}

/// Interpret one metrics-store response: a failed status is an error, an
/// empty result set counts as zero load, a sample string is parsed, and an
/// unreadable sample is an error.
pub fn metric_from_response(status_success: bool, value: Option<&Vec<u8>>) -> (r: Result<
    MilliPercent,
    RuntimeError,
>)
    ensures
        match r {
            Ok(v) => {
                &&& status_success
                &&& (value is None ==> v == 0)
                &&& (value is Some ==> spec_metric_value(value->0@) == Some(v))
            },
            Err(e) => {
                &&& e is System
                &&& (!status_success || (value is Some && spec_metric_value(value->0@) is None))
            },
        },
{
    if !status_success {
        return Err(RuntimeError::System(String::from_str("metrics query was not successful")));
    }
    match value {
        None => Ok(0),
        Some(bytes) => match parse_metric_value(bytes) {
            Some(v) => Ok(v),
            None => Err(
                RuntimeError::System(String::from_str("failed to parse metric value")),
            ),
        },
    }
}

/// Copy the first `k` bytes of `s` into a fresh vector.
fn bytes_prefix(s: &Vec<u8>, k: usize) -> (r: Vec<u8>)
    requires
        k <= s@.len(),
    ensures
        r@ == s@.take(k as int),
{
    let mut out: Vec<u8> = Vec::new();
    let mut i: usize = 0;
    while i < k
        invariant
            0 <= i <= k <= s@.len(),
            out@ == s@.take(i as int),
        decreases k - i,
    {
        out.push(s[i]);
        assert(out@ =~= s@.take(i as int + 1));
        i = i + 1;
    }
    out
}

/// The query for a container's CPU usage: the rate of its total CPU seconds
/// over a thirty-second window, scaled to percent.  The store matches on the
/// first twelve bytes of the container id.
pub fn cpu_query(container_id: &str) -> (r: Option<String>)
    ensures
        encode_utf8(container_id@).len() < 12 ==> r is None,
        encode_utf8(container_id@).len() >= 12 && valid_utf8(
            encode_utf8(container_id@).take(12),
        ) ==> r is Some,
        r is Some ==> encode_utf8(r->0@) == encode_utf8(
            "rate(container_cpu_usage_seconds_total{id=~\"/docker/"@,
        ) + encode_utf8(container_id@).take(12) + encode_utf8(".*\"}[30s]) * 100"@),
{
    let idb = string_bytes(container_id);
    if idb.len() < 12 {
        return None;
    }
    let mut out = string_bytes("rate(container_cpu_usage_seconds_total{id=~\"/docker/");
    let mut mid = bytes_prefix(&idb, 12);
    let ghost midv = mid@;
    let mut tail = string_bytes(".*\"}[30s]) * 100");
    out.append(&mut mid);
    out.append(&mut tail);
    proof {
        vstd::utf8::encode_utf8_valid_utf8(
            "rate(container_cpu_usage_seconds_total{id=~\"/docker/"@,
        );
        vstd::utf8::encode_utf8_valid_utf8(".*\"}[30s]) * 100"@);
        if valid_utf8(midv) {
            vstd::utf8::valid_utf8_concat(
                encode_utf8("rate(container_cpu_usage_seconds_total{id=~\"/docker/"@),
                midv,
            );
            vstd::utf8::valid_utf8_concat(
                encode_utf8("rate(container_cpu_usage_seconds_total{id=~\"/docker/"@) + midv,
                encode_utf8(".*\"}[30s]) * 100"@),
            );
            assert(valid_utf8(out@));
        }
    }
    match bytes_to_string(out) {
        Some(q) => {
            proof {
                vstd::utf8::decode_utf8_encode_utf8(
                    encode_utf8("rate(container_cpu_usage_seconds_total{id=~\"/docker/"@)
                        + midv + encode_utf8(".*\"}[30s]) * 100"@),
                );
            }
            Some(q)
        },
        None => None,
    }
}

/// The query for a container's memory usage: its usage over its limit,
/// scaled to percent, matching on the first twelve bytes of the id in both
/// selectors.
pub fn memory_query(container_id: &str) -> (r: Option<String>)
    ensures
        encode_utf8(container_id@).len() < 12 ==> r is None,
        encode_utf8(container_id@).len() >= 12 && valid_utf8(
            encode_utf8(container_id@).take(12),
        ) ==> r is Some,
        r is Some ==> encode_utf8(r->0@) == encode_utf8(
            "(container_memory_usage_bytes{id=~\"/docker/"@,
        ) + encode_utf8(container_id@).take(12) + encode_utf8(
            ".*\"} / container_spec_memory_limit_bytes{id=~\"/docker/"@,
        ) + encode_utf8(container_id@).take(12) + encode_utf8(".*\"}) * 100"@),
{
    let idb = string_bytes(container_id);
    if idb.len() < 12 {
        return None;
    }
    let mut out = string_bytes("(container_memory_usage_bytes{id=~\"/docker/");
    let mut mid1 = bytes_prefix(&idb, 12);
    let ghost midv = mid1@;
    let mut sep = string_bytes(".*\"} / container_spec_memory_limit_bytes{id=~\"/docker/");
    let mut mid2 = bytes_prefix(&idb, 12);
    let mut tail = string_bytes(".*\"}) * 100");
    out.append(&mut mid1);
    out.append(&mut sep);
    out.append(&mut mid2);
    out.append(&mut tail);
    proof {
        vstd::utf8::encode_utf8_valid_utf8("(container_memory_usage_bytes{id=~\"/docker/"@);
        vstd::utf8::encode_utf8_valid_utf8(
            ".*\"} / container_spec_memory_limit_bytes{id=~\"/docker/"@,
        );
        vstd::utf8::encode_utf8_valid_utf8(".*\"}) * 100"@);
        if valid_utf8(midv) {
            vstd::utf8::valid_utf8_concat(
                encode_utf8("(container_memory_usage_bytes{id=~\"/docker/"@),
                midv,
            );
            vstd::utf8::valid_utf8_concat(
                encode_utf8("(container_memory_usage_bytes{id=~\"/docker/"@) + midv,
                encode_utf8(".*\"} / container_spec_memory_limit_bytes{id=~\"/docker/"@),
            );
            vstd::utf8::valid_utf8_concat(
                encode_utf8("(container_memory_usage_bytes{id=~\"/docker/"@) + midv
                    + encode_utf8(".*\"} / container_spec_memory_limit_bytes{id=~\"/docker/"@),
                midv,
            );
            vstd::utf8::valid_utf8_concat(
                encode_utf8("(container_memory_usage_bytes{id=~\"/docker/"@) + midv
                    + encode_utf8(".*\"} / container_spec_memory_limit_bytes{id=~\"/docker/"@)
                    + midv,
                encode_utf8(".*\"}) * 100"@),
            );
            assert(valid_utf8(out@));
        }
    }
    match bytes_to_string(out) {
        Some(q) => {
            proof {
                vstd::utf8::decode_utf8_encode_utf8(
                    encode_utf8("(container_memory_usage_bytes{id=~\"/docker/"@)
                        + encode_utf8(container_id@).take(12) + encode_utf8(
                        ".*\"} / container_spec_memory_limit_bytes{id=~\"/docker/"@,
                    ) + encode_utf8(container_id@).take(12) + encode_utf8(".*\"}) * 100"@),
                );
            }
            Some(q)
        },
        None => None,
    }
}

} // verus!
