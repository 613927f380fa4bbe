//! Counting what happens during a run, and summing it up at the end.

use std::collections::BTreeMap;

use dashmap::DashMap;
use vstd::prelude::*;
use vstd::std_specs::btree::{increasing_seq, key_obeys_cmp_spec};
use vstd::std_specs::cmp::OrdSpec;
use vstd::std_specs::iter::IteratorSpec;

use crate::client::{
    error_label, error_labels_differ, failures_view, CheckFailure, CheckFailureView, ConnError,
};
use crate::text::{str_less, text_less, text_order_is_total, text_order_is_transitive};

verus! {

broadcast use vstd::std_specs::btree::group_btree_axioms;

/// Percentiles reported in the result, in ascending order.
pub const PERCENTILES: [u64; 5] = [50, 75, 90, 95, 99];

/// At most this many failed assertions are kept as samples.
pub const MAX_CHECK_FAILURES: usize = 100;

/// Number of per-second buckets where the duration is unknown.
pub const DEFAULT_TIME_SERIES_CAP: usize = 3600;

// ----------------------------------------------------------------------
// Concurrent maps
// ----------------------------------------------------------------------

#[verifier::external_type_specification]
#[verifier::external_body]
#[verifier::reject_recursive_types(K)]
#[verifier::reject_recursive_types(V)]
#[verifier::reject_recursive_types(S)]
pub struct ExDashMap<K, V, S>(DashMap<K, V, S>);

/// What a map from status codes holds.
pub uninterp spec fn status_counts(map: DashMap<u16, u64>) -> Map<u16, u64>;

/// What a map from latencies holds.
pub uninterp spec fn latency_counts(map: DashMap<u64, u64>) -> Map<u64, u64>;

/// What a map from error names holds.
pub uninterp spec fn error_counts(map: DashMap<String, u64>) -> Map<Seq<char>, u64>;

/// `DashMap::new`: a map with nothing in it.
#[verifier::external_body]
fn status_new() -> (map: DashMap<u16, u64>)
    ensures
        holds_nothing(status_counts(map)),
{
    DashMap::new()
}

/// `DashMap::entry` with `or_insert`: the value of the key, which gets this
/// one if it has none.
#[verifier::external_body]
fn status_or_insert(map: &mut DashMap<u16, u64>, key: u16, value: u64) -> (found: u64)
    ensures
        found == count_in(status_counts(*old(map)), key, value),
        status_counts(*final(map)) == status_counts(*old(map)).insert(key, found),
{
    *map.entry(key).or_insert(value)
}

/// `DashMap::insert`: the key gets this value.
#[verifier::external_body]
fn status_insert(map: &mut DashMap<u16, u64>, key: u16, value: u64)
    ensures
        status_counts(*final(map)) == status_counts(*old(map)).insert(key, value),
{
    map.insert(key, value);
}

/// `DashMap::iter`: each key once with its value, in an order left open.
#[verifier::external_body]
fn status_entries(map: &DashMap<u16, u64>) -> (entries: Vec<(u16, u64)>)
    ensures
        lists(entries@, status_counts(*map)),
{
    map.iter().map(|e| (*e.key(), *e.value())).collect()
}

/// `DashMap::new`: a map with nothing in it.
#[verifier::external_body]
fn latency_new() -> (map: DashMap<u64, u64>)
    ensures
        holds_nothing(latency_counts(map)),
{
    DashMap::new()
}

/// `DashMap::entry` with `or_insert`: the value of the key, which gets this
/// one if it has none.
#[verifier::external_body]
fn latency_or_insert(map: &mut DashMap<u64, u64>, key: u64, value: u64) -> (found: u64)
    ensures
        found == count_in(latency_counts(*old(map)), key, value),
        latency_counts(*final(map)) == latency_counts(*old(map)).insert(key, found),
{
    *map.entry(key).or_insert(value)
}

/// `DashMap::insert`: the key gets this value.
#[verifier::external_body]
fn latency_insert(map: &mut DashMap<u64, u64>, key: u64, value: u64)
    ensures
        latency_counts(*final(map)) == latency_counts(*old(map)).insert(key, value),
{
    map.insert(key, value);
}

/// `DashMap::iter`: each key once with its value, in an order left open.
#[verifier::external_body]
fn latency_entries(map: &DashMap<u64, u64>) -> (entries: Vec<(u64, u64)>)
    ensures
        lists(entries@, latency_counts(*map)),
{
    map.iter().map(|e| (*e.key(), *e.value())).collect()
}

/// `DashMap::new`: a map with nothing in it.
#[verifier::external_body]
fn error_new() -> (map: DashMap<String, u64>)
    ensures
        holds_nothing(error_counts(map)),
{
    DashMap::new()
}

/// `DashMap::entry` with `or_insert`: the value of the key, which gets this
/// one if it has none.
#[verifier::external_body]
fn error_or_insert(map: &mut DashMap<String, u64>, key: String, value: u64) -> (found: u64)
    ensures
        found == count_in(error_counts(*old(map)), key@, value),
        error_counts(*final(map)) == error_counts(*old(map)).insert(key@, found),
{
    *map.entry(key).or_insert(value)
}

/// `DashMap::insert`: the key gets this value.
#[verifier::external_body]
fn error_insert(map: &mut DashMap<String, u64>, key: String, value: u64)
    ensures
        error_counts(*final(map)) == error_counts(*old(map)).insert(key@, value),
{
    map.insert(key, value);
}

/// `DashMap::iter`: each key once with its value, in an order left open.
#[verifier::external_body]
fn error_entries(map: &DashMap<String, u64>) -> (entries: Vec<(String, u64)>)
    ensures
        lists(counts_view(entries@), error_counts(*map)),
{
    map.iter().map(|e| (e.key().clone(), *e.value())).collect()
}

/// Whether no key has a value.
pub open spec fn holds_nothing<K>(map: Map<K, u64>) -> bool {
    map == Map::<K, u64>::empty()
}

/// The value of a key, or a default.
pub open spec fn count_in<K>(map: Map<K, u64>, key: K, default: u64) -> u64 {
    if map.contains_key(key) {
        map[key]
    } else {
        default
    }
}

/// Whether the entries are those of the map, each key once.
pub open spec fn lists<K>(entries: Seq<(K, u64)>, map: Map<K, u64>) -> bool {
    &&& forall|i: int|
        0 <= i < entries.len() ==> map.contains_key(#[trigger] entries[i].0) && map[entries[i].0]
            == entries[i].1
    &&& forall|k: K| #[trigger]
        map.contains_key(k) ==> exists|i: int| 0 <= i < entries.len() && #[trigger] entries[i].0
            == k
    &&& forall|i: int, j: int|
        0 <= i < j < entries.len() ==> #[trigger] entries[i].0 != #[trigger] entries[j].0
}

/// What a list of named counts holds.
pub open spec fn counts_view(counts: Seq<(String, u64)>) -> Seq<(Seq<char>, u64)> {
    Seq::new(counts.len(), |i: int| (counts[i].0@, counts[i].1))
}

// ----------------------------------------------------------------------
// Counters
// ----------------------------------------------------------------------

/// Addition on a counter that starts over after the largest number.
pub open spec fn wadd(a: u64, b: u64) -> u64 {
    if a + b > u64::MAX {
        (a + b - 0x1_0000_0000_0000_0000) as u64
    } else {
        (a + b) as u64
    }
}

/// A count of one more.
pub open spec fn bumped<K>(map: Map<K, u64>, key: K) -> Map<K, u64> {
    map.insert(key, wadd(count_in(map, key, 0), 1))
}

/// One second of sampled metrics.
#[derive(Clone, Copy, Debug)]
pub struct SecondBucket {
    pub requests: u64,
    pub success: u64,
    pub failed: u64,
    pub bytes: u64,
    pub sum_latency_us: u64,
    pub latency_count: u64,
}

impl SecondBucket {
    /// A second in which nothing has happened yet.
    pub fn new() -> (b: SecondBucket)
        ensures
            b == empty_second(),
    {
        SecondBucket {
            requests: 0,
            success: 0,
            failed: 0,
            bytes: 0,
            sum_latency_us: 0,
            latency_count: 0,
        }
    }
}

/// A second in which nothing has happened yet.
pub open spec fn empty_second() -> SecondBucket {
    SecondBucket {
        requests: 0,
        success: 0,
        failed: 0,
        bytes: 0,
        sum_latency_us: 0,
        latency_count: 0,
    }
}

/// The metrics of a run.
pub struct Metrics {
    pub total: u64,
    pub success: u64,
    pub failed: u64,
    pub bytes: u64,
    pub min_latency_us: u64,
    pub max_latency_us: u64,
    pub sum_latency_us: u64,
    pub latency_count: u64,
    pub checks_passed: u64,
    pub checks_failed: u64,
    status_codes: DashMap<u16, u64>,
    latency_buckets: DashMap<u64, u64>,
    pub check_failures: Vec<CheckFailure>,
    errors: DashMap<String, u64>,
    pub seconds: Vec<SecondBucket>,
}

/// What a `Metrics` holds.
pub struct MetricsView {
    pub total: u64,
    pub success: u64,
    pub failed: u64,
    pub bytes: u64,
    pub min_latency_us: u64,
    pub max_latency_us: u64,
    pub sum_latency_us: u64,
    pub latency_count: u64,
    pub checks_passed: u64,
    pub checks_failed: u64,
    pub status_codes: Map<u16, u64>,
    pub latency_buckets: Map<u64, u64>,
    pub check_failures: Seq<CheckFailureView>,
    pub errors: Map<Seq<char>, u64>,
    pub seconds: Seq<SecondBucket>,
}

impl View for Metrics {
    type V = MetricsView;

    closed spec fn view(&self) -> MetricsView {
        MetricsView {
            total: self.total,
            success: self.success,
            failed: self.failed,
            bytes: self.bytes,
            min_latency_us: self.min_latency_us,
            max_latency_us: self.max_latency_us,
            sum_latency_us: self.sum_latency_us,
            latency_count: self.latency_count,
            checks_passed: self.checks_passed,
            checks_failed: self.checks_failed,
            status_codes: status_counts(self.status_codes),
            latency_buckets: latency_counts(self.latency_buckets),
            check_failures: failures_view(self.check_failures@),
            errors: error_counts(self.errors),
            seconds: self.seconds@,
        }
    }
}

impl MetricsView {
    /// There is a bucket for at least one second, and no more samples of
    /// failed assertions than are kept.
    pub open spec fn wf(self) -> bool {
        &&& 1 <= self.seconds.len() <= usize::MAX
        &&& self.check_failures.len() <= MAX_CHECK_FAILURES
    }

    /// The bucket of a second since the start: the last one takes all later
    /// seconds.
    pub open spec fn second_index(self, at_secs: u64) -> int {
        if at_secs < self.seconds.len() {
            at_secs as int
        } else {
            self.seconds.len() - 1
        }
    }
}

/// The metrics at the start of a run of this many seconds.
pub open spec fn fresh_metrics(duration_secs: u64) -> MetricsView {
    MetricsView {
        total: 0,
        success: 0,
        failed: 0,
        bytes: 0,
        min_latency_us: u64::MAX,
        max_latency_us: 0,
        sum_latency_us: 0,
        latency_count: 0,
        checks_passed: 0,
        checks_failed: 0,
        status_codes: Map::empty(),
        latency_buckets: Map::empty(),
        check_failures: seq![],
        errors: Map::empty(),
        seconds: Seq::new(
            if duration_secs > 0 {
                (duration_secs + 2) as nat
            } else {
                DEFAULT_TIME_SERIES_CAP as nat
            },
            |i: int| empty_second(),
        ),
    }
}

/// The metrics after one request.
pub open spec fn after_request(
    m: MetricsView,
    at_secs: u64,
    latency_us: u64,
    status: u16,
    bytes: u64,
    is_success: bool,
    error: Option<ConnError>,
) -> MetricsView {
    let i = m.second_index(at_secs);
    let b = m.seconds[i];
    MetricsView {
        total: wadd(m.total, 1),
        success: if is_success {
            wadd(m.success, 1)
        } else {
            m.success
        },
        failed: if is_success {
            m.failed
        } else {
            wadd(m.failed, 1)
        },
        bytes: wadd(m.bytes, bytes),
        min_latency_us: if latency_us < m.min_latency_us {
            latency_us
        } else {
            m.min_latency_us
        },
        max_latency_us: if latency_us > m.max_latency_us {
            latency_us
        } else {
            m.max_latency_us
        },
        sum_latency_us: wadd(m.sum_latency_us, latency_us),
        latency_count: wadd(m.latency_count, 1),
        status_codes: bumped(m.status_codes, status),
        latency_buckets: bumped(m.latency_buckets, latency_us / 1000),
        errors: match error {
            Some(e) => bumped(m.errors, error_label(e)),
            None => m.errors,
        },
        seconds: m.seconds.update(
            i,
            SecondBucket {
                requests: wadd(b.requests, 1),
                success: if is_success {
                    wadd(b.success, 1)
                } else {
                    b.success
                },
                failed: if is_success {
                    b.failed
                } else {
                    wadd(b.failed, 1)
                },
                bytes: wadd(b.bytes, bytes),
                sum_latency_us: wadd(b.sum_latency_us, latency_us),
                latency_count: wadd(b.latency_count, 1),
            },
        ),
        ..m
    }
}

/// The samples of failed assertions after some more: up to the largest number
/// that is kept.
pub open spec fn sampled(
    kept: Seq<CheckFailureView>,
    failures: Seq<CheckFailureView>,
) -> Seq<CheckFailureView> {
    let all = kept + failures;
    if all.len() <= MAX_CHECK_FAILURES {
        all
    } else {
        all.take(MAX_CHECK_FAILURES as int)
    }
}

/// The metrics after the assertions on one reply.
pub open spec fn after_checks(
    m: MetricsView,
    passed: nat,
    failures: Seq<CheckFailureView>,
) -> MetricsView {
    MetricsView {
        checks_passed: wadd(m.checks_passed, passed as u64),
        checks_failed: wadd(m.checks_failed, failures.len() as u64),
        check_failures: sampled(m.check_failures, failures),
        ..m
    }
}

/// The metrics after one received event.
pub open spec fn after_event(m: MetricsView, at_secs: u64, bytes: u64) -> MetricsView {
    let i = m.second_index(at_secs);
    let b = m.seconds[i];
    MetricsView {
        total: wadd(m.total, 1),
        success: wadd(m.success, 1),
        bytes: wadd(m.bytes, bytes),
        seconds: m.seconds.update(
            i,
            SecondBucket {
                requests: wadd(b.requests, 1),
                success: wadd(b.success, 1),
                bytes: wadd(b.bytes, bytes),
                ..b
            },
        ),
        ..m
    }
}

/// The metrics after a message was sent that waits for its reply: it counts
/// toward the total, and whether it succeeds is open.
pub open spec fn after_sent(m: MetricsView, at_secs: u64) -> MetricsView {
    let i = m.second_index(at_secs);
    let b = m.seconds[i];
    MetricsView {
        total: wadd(m.total, 1),
        seconds: m.seconds.update(i, SecondBucket { requests: wadd(b.requests, 1), ..b }),
        ..m
    }
}

/// The metrics after the reply to a message that was counted when it was
/// sent: a success with a status, a latency and the bytes of both, and nothing
/// more toward the total.
pub open spec fn after_reply(
    m: MetricsView,
    at_secs: u64,
    latency_us: u64,
    status: u16,
    bytes: u64,
) -> MetricsView {
    let i = m.second_index(at_secs);
    let b = m.seconds[i];
    MetricsView {
        success: wadd(m.success, 1),
        bytes: wadd(m.bytes, bytes),
        min_latency_us: if latency_us < m.min_latency_us {
            latency_us
        } else {
            m.min_latency_us
        },
        max_latency_us: if latency_us > m.max_latency_us {
            latency_us
        } else {
            m.max_latency_us
        },
        sum_latency_us: wadd(m.sum_latency_us, latency_us),
        latency_count: wadd(m.latency_count, 1),
        status_codes: bumped(m.status_codes, status),
        latency_buckets: bumped(m.latency_buckets, latency_us / 1000),
        seconds: m.seconds.update(
            i,
            SecondBucket {
                success: wadd(b.success, 1),
                bytes: wadd(b.bytes, bytes),
                sum_latency_us: wadd(b.sum_latency_us, latency_us),
                latency_count: wadd(b.latency_count, 1),
                ..b
            },
        ),
        ..m
    }
}

/// The metrics after a connection that failed: it has the status 0.
pub open spec fn after_conn_error(m: MetricsView, at_secs: u64, error: ConnError) -> MetricsView {
    let i = m.second_index(at_secs);
    let b = m.seconds[i];
    MetricsView {
        failed: wadd(m.failed, 1),
        status_codes: bumped(m.status_codes, 0),
        errors: bumped(m.errors, error_label(error)),
        seconds: m.seconds.update(i, SecondBucket { failed: wadd(b.failed, 1), ..b }),
        ..m
    }
}

impl Metrics {
    /// The metrics at the start of a run of this many seconds; 0 where the
    /// duration is unknown.
    pub fn new(duration_secs: u64) -> (m: Metrics)
        requires
            duration_secs + 2 <= usize::MAX,
        ensures
            m@ == fresh_metrics(duration_secs),
            m@.wf(),
    {
        let cap: usize = if duration_secs > 0 {
            duration_secs as usize + 2
        } else {
            DEFAULT_TIME_SERIES_CAP
        };
        let mut seconds: Vec<SecondBucket> = Vec::new();
        for i in 0..cap
            invariant
                seconds@ == Seq::new(i as nat, |j: int| empty_second()),
        {
            seconds.push(SecondBucket::new());
            assert(seconds@ =~= Seq::new((i + 1) as nat, |j: int| empty_second()));
        }
        let m: Metrics = Metrics {
            total: 0,
            success: 0,
            failed: 0,
            bytes: 0,
            min_latency_us: u64::MAX,
            max_latency_us: 0,
            sum_latency_us: 0,
            latency_count: 0,
            checks_passed: 0,
            checks_failed: 0,
            status_codes: status_new(),
            latency_buckets: latency_new(),
            check_failures: Vec::new(),
            errors: error_new(),
            seconds,
        };
        assert(m@.check_failures =~= seq![]);
        m
    }

    /// The bucket of a second since the start.
    fn second_index(&self, at_secs: u64) -> (i: usize)
        requires
            self@.wf(),
        ensures
            i == self@.second_index(at_secs),
            i < self@.seconds.len(),
    {
        let len: usize = self.seconds.len();
        if at_secs < len as u64 {
            at_secs as usize
        } else {
            len - 1
        }
    }

    /// One more failure of this category.
    fn count_error(&mut self, error: ConnError)
        requires
            old(self)@.wf(),
        ensures
            final(self)@ == (MetricsView {
                errors: bumped(old(self)@.errors, error_label(error)),
                ..old(self)@
            }),
    {
        let label: &'static str = error.as_str();
        let found: u64 = error_or_insert(&mut self.errors, label.to_owned(), 0);
        error_insert(&mut self.errors, label.to_owned(), found.wrapping_add(1));
        assert(self@.errors =~= bumped(old(self)@.errors, error_label(error)));
    }

    /// One more latency.
    fn count_latency(&mut self, latency_us: u64)
        requires
            old(self)@.wf(),
        ensures
            final(self)@ == (MetricsView {
                min_latency_us: if latency_us < old(self)@.min_latency_us {
                    latency_us
                } else {
                    old(self)@.min_latency_us
                },
                max_latency_us: if latency_us > old(self)@.max_latency_us {
                    latency_us
                } else {
                    old(self)@.max_latency_us
                },
                sum_latency_us: wadd(old(self)@.sum_latency_us, latency_us),
                latency_count: wadd(old(self)@.latency_count, 1),
                latency_buckets: bumped(old(self)@.latency_buckets, latency_us / 1000),
                ..old(self)@
            }),
    {
        if latency_us < self.min_latency_us {
            self.min_latency_us = latency_us;
        }
        if latency_us > self.max_latency_us {
            self.max_latency_us = latency_us;
        }
        self.sum_latency_us = self.sum_latency_us.wrapping_add(latency_us);
        self.latency_count = self.latency_count.wrapping_add(1);
        let bucket_ms: u64 = latency_us / 1000;
        let count: u64 = latency_or_insert(&mut self.latency_buckets, bucket_ms, 0);
        latency_insert(&mut self.latency_buckets, bucket_ms, count.wrapping_add(1));
        assert(self@.latency_buckets =~= bumped(old(self)@.latency_buckets, bucket_ms));
    }

    /// One more of this status.
    fn count_status(&mut self, status: u16)
        requires
            old(self)@.wf(),
        ensures
            final(self)@ == (MetricsView {
                status_codes: bumped(old(self)@.status_codes, status),
                ..old(self)@
            }),
    {
        let count: u64 = status_or_insert(&mut self.status_codes, status, 0);
        status_insert(&mut self.status_codes, status, count.wrapping_add(1));
        assert(self@.status_codes =~= bumped(old(self)@.status_codes, status));
    }

    /// Record one request, answered or failed in this second since the start.
    pub fn record(
        &mut self,
        at_secs: u64,
        latency_us: u64,
        status: u16,
        bytes: u64,
        is_success: bool,
        error: Option<ConnError>,
    )
        requires
            old(self)@.wf(),
        ensures
            final(self)@ == after_request(
                old(self)@,
                at_secs,
                latency_us,
                status,
                bytes,
                is_success,
                error,
            ),
            final(self)@.wf(),
    {
        self.total = self.total.wrapping_add(1);
        self.bytes = self.bytes.wrapping_add(bytes);
        if is_success {
            self.success = self.success.wrapping_add(1);
        } else {
            self.failed = self.failed.wrapping_add(1);
        }
        self.count_latency(latency_us);
        self.count_status(status);
        if let Some(e) = error {
            self.count_error(e);
        }
        let i: usize = self.second_index(at_secs);
        let b: SecondBucket = self.seconds[i];
        self.seconds[i] = SecondBucket {
            requests: b.requests.wrapping_add(1),
            success: if is_success {
                b.success.wrapping_add(1)
            } else {
                b.success
            },
            failed: if is_success {
                b.failed
            } else {
                b.failed.wrapping_add(1)
            },
            bytes: b.bytes.wrapping_add(bytes),
            sum_latency_us: b.sum_latency_us.wrapping_add(latency_us),
            latency_count: b.latency_count.wrapping_add(1),
        };
    }

    /// Record the assertions on one reply.
    pub fn record_checks(&mut self, passed: usize, failures: &Vec<CheckFailure>)
        requires
            old(self)@.wf(),
        ensures
            final(self)@ == after_checks(old(self)@, passed as nat, failures_view(failures@)),
            final(self)@.wf(),
    {
        let ghost given = failures_view(failures@);
        let ghost kept = self@.check_failures;
        self.checks_passed = self.checks_passed.wrapping_add(passed as u64);
        self.checks_failed = self.checks_failed.wrapping_add(failures.len() as u64);
        let mut i: usize = 0;
        assert(kept + given.take(0) =~= kept);
        while i < failures.len() && self.check_failures.len() < MAX_CHECK_FAILURES
            invariant
                given == failures_view(failures@),
                kept.len() <= MAX_CHECK_FAILURES,
                i <= given.len(),
                self@.check_failures == kept + given.take(i as int),
                self@.check_failures.len() <= MAX_CHECK_FAILURES,
                self@ == (MetricsView {
                    checks_passed: wadd(old(self)@.checks_passed, passed as u64),
                    checks_failed: wadd(old(self)@.checks_failed, given.len() as u64),
                    check_failures: kept + given.take(i as int),
                    ..old(self)@
                }),
            decreases given.len() - i,
        {
            let ghost before = self@.check_failures;
            let failure: CheckFailure = failures[i].clone();
            self.check_failures.push(failure);
            proof {
                assert(given[i as int] == failure@);
                assert(self@.check_failures =~= before.push(failure@));
                assert(given.take(i as int + 1) =~= given.take(i as int).push(given[i as int]));
                assert(self@.check_failures =~= kept + given.take(i as int + 1));
            }
            i += 1;
        }
        proof {
            if i == given.len() {
                assert(given.take(i as int) =~= given);
                assert(kept + given =~= sampled(kept, given));
            } else {
                assert(kept + given.take(i as int) =~= sampled(kept, given));
            }
        }
    }

    /// Record one received event.
    pub fn record_event(&mut self, at_secs: u64, bytes: u64)
        requires
            old(self)@.wf(),
        ensures
            final(self)@ == after_event(old(self)@, at_secs, bytes),
            final(self)@.wf(),
    {
        self.total = self.total.wrapping_add(1);
        self.success = self.success.wrapping_add(1);
        self.bytes = self.bytes.wrapping_add(bytes);
        let i: usize = self.second_index(at_secs);
        let b: SecondBucket = self.seconds[i];
        self.seconds[i] = SecondBucket {
            requests: b.requests.wrapping_add(1),
            success: b.success.wrapping_add(1),
            bytes: b.bytes.wrapping_add(bytes),
            ..b
        };
    }

    /// Record a message that was sent and waits for its reply.
    pub fn record_sent(&mut self, at_secs: u64)
        requires
            old(self)@.wf(),
        ensures
            final(self)@ == after_sent(old(self)@, at_secs),
            final(self)@.wf(),
    {
        self.total = self.total.wrapping_add(1);
        let i: usize = self.second_index(at_secs);
        let b: SecondBucket = self.seconds[i];
        self.seconds[i] = SecondBucket { requests: b.requests.wrapping_add(1), ..b };
    }

    /// Record the reply to a message that was recorded when it was sent, with
    /// the bytes of both.
    pub fn record_reply(&mut self, at_secs: u64, latency_us: u64, status: u16, bytes: u64)
        requires
            old(self)@.wf(),
        ensures
            final(self)@ == after_reply(old(self)@, at_secs, latency_us, status, bytes),
            final(self)@.wf(),
    {
        self.success = self.success.wrapping_add(1);
        self.bytes = self.bytes.wrapping_add(bytes);
        self.count_latency(latency_us);
        self.count_status(status);
        let i: usize = self.second_index(at_secs);
        let b: SecondBucket = self.seconds[i];
        self.seconds[i] = SecondBucket {
            success: b.success.wrapping_add(1),
            bytes: b.bytes.wrapping_add(bytes),
            sum_latency_us: b.sum_latency_us.wrapping_add(latency_us),
            latency_count: b.latency_count.wrapping_add(1),
            ..b
        };
    }

    /// Record a connection that failed, for the workloads that stream.
    pub fn record_conn_error(&mut self, at_secs: u64, error: ConnError)
        requires
            old(self)@.wf(),
        ensures
            final(self)@ == after_conn_error(old(self)@, at_secs, error),
            final(self)@.wf(),
    {
        self.failed = self.failed.wrapping_add(1);
        self.count_status(0);
        self.count_error(error);
        let i: usize = self.second_index(at_secs);
        let b: SecondBucket = self.seconds[i];
        self.seconds[i] = SecondBucket { failed: b.failed.wrapping_add(1), ..b };
    }
}

// ----------------------------------------------------------------------
// Percentiles
// ----------------------------------------------------------------------

/// The sum of a count over `0..=last`.
pub open spec fn sum_to(count: spec_fn(int) -> nat, last: int) -> nat
    decreases last + 1,
{
    if last < 0 {
        0
    } else {
        sum_to(count, last - 1) + count(last)
    }
}

/// How often a latency was recorded.
pub open spec fn bucket_count(buckets: Map<u64, u64>) -> spec_fn(int) -> nat {
    |k: int|
        if 0 <= k <= u64::MAX && buckets.contains_key(k as u64) {
            buckets[k as u64] as nat
        } else {
            0
        }
}

/// How many recorded latencies are at most this one.
pub open spec fn at_most(buckets: Map<u64, u64>, latency: int) -> nat {
    sum_to(bucket_count(buckets), latency)
}

/// How many requests out of all make up a percentage, rounded down.
pub open spec fn share(total: u64, percent: u64) -> nat {
    (total as nat) * (percent as nat) / 100
}

/// Whether this recorded latency has so many at or below it.
pub open spec fn reaches(buckets: Map<u64, u64>, latency: u64, target: nat) -> bool {
    buckets.contains_key(latency) && at_most(buckets, latency as int) >= target
}

/// Whether this is the least recorded latency with the given share of all
/// requests at or below it; 0 where there is none.
pub open spec fn is_percentile(
    buckets: Map<u64, u64>,
    total: u64,
    percent: u64,
    latency: u64,
) -> bool {
    let target = share(total, percent);
    if total > 0 && exists|k: u64| reaches(buckets, k, target) {
        &&& reaches(buckets, latency, target)
        &&& forall|k: u64| reaches(buckets, k, target) ==> latency <= k
    } else {
        latency == 0
    }
}

proof fn sum_to_skips(count: spec_fn(int) -> nat, first: int, last: int)
    requires
        -1 <= first <= last,
        forall|k: int| first < k <= last ==> #[trigger] count(k) == 0,
    ensures
        sum_to(count, last) == sum_to(count, first),
    decreases last - first,
{
    if first < last {
        sum_to_skips(count, first, last - 1);
    }
}

/// The entries of a map by ascending keys.
pub fn ascending_entries(buckets: &BTreeMap<u64, u64>) -> (entries: Vec<(u64, u64)>)
    ensures
        lists(entries@, buckets@),
        forall|i: int, j: int|
            0 <= i < j < entries@.len() ==> #[trigger] entries@[i].0 < #[trigger] entries@[j].0,
{
    broadcast use vstd::laws_cmp::group_laws_cmp;

    let mut entries: Vec<(u64, u64)> = Vec::new();
    let iter = buckets.iter();
    let ghost pairs = iter.remaining();
    let ghost keys = pairs.map_values(|kv: (&u64, &u64)| *kv.0);
    assert(key_obeys_cmp_spec::<u64>());
    assert(increasing_seq(keys));
    for entry in it: iter
        invariant
            it.seq() == pairs,
            entries@.len() == it.index(),
            forall|i: int|
                0 <= i < entries@.len() ==> #[trigger] entries@[i] == (*pairs[i].0, *pairs[i].1),
    {
        entries.push((*entry.0, *entry.1));
    }
    proof {
        assert forall|i: int, j: int| 0 <= i < j < entries@.len() implies #[trigger] entries@[i].0
            < #[trigger] entries@[j].0 by {
            assert(keys[i].cmp_spec(&keys[j]) is Less);
        }
        assert forall|k: u64| #[trigger] buckets@.contains_key(k) implies exists|i: int|
            0 <= i < entries@.len() && #[trigger] entries@[i].0 == k by {
            assert(pairs.contains((&k, &buckets@[k])));
            let i = choose|i: int| 0 <= i < pairs.len() && pairs[i] == (&k, &buckets@[k]);
            assert(entries@[i].0 == k);
        }
        assert forall|i: int| 0 <= i < entries@.len() implies buckets@.contains_key(
            #[trigger] entries@[i].0,
        ) && buckets@[entries@[i].0] == entries@[i].1 by {
            assert(buckets@.contains_key(*pairs[i].0));
        }
    }
    entries
}

/// The counts of status codes by ascending codes.
pub fn ascending_codes(codes: &BTreeMap<u16, u64>) -> (entries: Vec<(u16, u64)>)
    ensures
        lists(entries@, codes@),
        forall|i: int, j: int|
            0 <= i < j < entries@.len() ==> #[trigger] entries@[i].0 < #[trigger] entries@[j].0,
{
    broadcast use vstd::laws_cmp::group_laws_cmp;

    let mut entries: Vec<(u16, u64)> = Vec::new();
    let iter = codes.iter();
    let ghost pairs = iter.remaining();
    let ghost keys = pairs.map_values(|kv: (&u16, &u64)| *kv.0);
    assert(key_obeys_cmp_spec::<u16>());
    assert(increasing_seq(keys));
    for entry in it: iter
        invariant
            it.seq() == pairs,
            entries@.len() == it.index(),
            forall|i: int|
                0 <= i < entries@.len() ==> #[trigger] entries@[i] == (*pairs[i].0, *pairs[i].1),
    {
        entries.push((*entry.0, *entry.1));
    }
    proof {
        assert forall|i: int, j: int| 0 <= i < j < entries@.len() implies #[trigger] entries@[i].0
            < #[trigger] entries@[j].0 by {
            assert(keys[i].cmp_spec(&keys[j]) is Less);
        }
        assert forall|k: u16| #[trigger] codes@.contains_key(k) implies exists|i: int|
            0 <= i < entries@.len() && #[trigger] entries@[i].0 == k by {
            assert(pairs.contains((&k, &codes@[k])));
            let i = choose|i: int| 0 <= i < pairs.len() && pairs[i] == (&k, &codes@[k]);
            assert(entries@[i].0 == k);
        }
        assert forall|i: int| 0 <= i < entries@.len() implies codes@.contains_key(
            #[trigger] entries@[i].0,
        ) && codes@[entries@[i].0] == entries@[i].1 by {
            assert(codes@.contains_key(*pairs[i].0));
        }
    }
    entries
}

/// The recorded latencies below an entry are those of the entries before it.
proof fn at_most_of_entry(entries: Seq<(u64, u64)>, buckets: Map<u64, u64>, i: int)
    requires
        lists(entries, buckets),
        forall|i: int, j: int|
            0 <= i < j < entries.len() ==> #[trigger] entries[i].0 < #[trigger] entries[j].0,
        0 <= i < entries.len(),
    ensures
        at_most(buckets, entries[i].0 as int) == entries[i].1 + (if i == 0 {
            0
        } else {
            at_most(buckets, entries[i - 1].0 as int)
        }),
{
    let count = bucket_count(buckets);
    let first = if i == 0 {
        -1
    } else {
        entries[i - 1].0 as int
    };
    let last = entries[i].0 as int;
    assert forall|k: int| first < k <= last - 1 implies #[trigger] count(k) == 0 by {
        if buckets.contains_key(k as u64) {
            let j = choose|j: int| 0 <= j < entries.len() && #[trigger] entries[j].0 == k as u64;
            assert(j >= i ==> entries[i].0 <= entries[j].0);
            assert(j < i ==> entries[j].0 <= entries[i - 1].0);
        }
    }
    sum_to_skips(count, first, last - 1);
}

/// The percentiles of recorded latencies.
pub fn compute_percentiles(
    buckets: &BTreeMap<u64, u64>,
    total: u64,
    percents: &[u64],
) -> (values: Vec<u64>)
    ensures
        values@.len() == percents@.len(),
        forall|j: int|
            0 <= j < percents@.len() ==> is_percentile(
                buckets@,
                total,
                percents@[j],
                #[trigger] values@[j],
            ),
{
    let mut values: Vec<u64> = Vec::new();
    if total == 0 {
        for j in 0..percents.len()
            invariant
                values@.len() == j,
                forall|l: int| 0 <= l < j ==> #[trigger] values@[l] == 0,
        {
            values.push(0);
        }
        return values;
    }
    let mut targets: Vec<u128> = Vec::new();
    let mut found: Vec<bool> = Vec::new();
    for j in 0..percents.len()
        invariant
            values@.len() == j,
            found@.len() == j,
            targets@.len() == j,
            forall|l: int|
                0 <= l < j ==> #[trigger] targets@[l] == share(total, percents@[l])
                    && targets@[l] <= 0x8000_0000_0000_0000_0000_0000_0000_0000,
            forall|l: int| 0 <= l < j ==> !#[trigger] found@[l],
            forall|l: int| 0 <= l < j ==> #[trigger] values@[l] == 0,
    {
        let percent: u64 = percents[j];
        assert(0 <= (total as nat) * (percent as nat) <= 0xffff_ffff_ffff_ffff
            * 0xffff_ffff_ffff_ffff) by (nonlinear_arith)
            requires
                total <= 0xffff_ffff_ffff_ffff,
                percent <= 0xffff_ffff_ffff_ffff,
        ;
        targets.push((total as u128) * (percent as u128) / 100);
        values.push(0);
        found.push(false);
    }

    let entries: Vec<(u64, u64)> = ascending_entries(buckets);
    let mut cumulative: u128 = 0;
    let mut pending: bool = percents.len() > 0;
    let mut i: usize = 0;
    while i < entries.len() && pending
        invariant
            total > 0,
            i <= entries@.len(),
            lists(entries@, buckets@),
            forall|i: int, j: int|
                0 <= i < j < entries@.len() ==> #[trigger] entries@[i].0 < #[trigger] entries@[j].0,
            values@.len() == percents@.len(),
            found@.len() == percents@.len(),
            targets@.len() == percents@.len(),
            forall|l: int|
                0 <= l < percents@.len() ==> #[trigger] targets@[l] == share(total, percents@[l])
                    && targets@[l] <= 0x8000_0000_0000_0000_0000_0000_0000_0000,
            i == 0 ==> cumulative == 0,
            i > 0 ==> cumulative == at_most(buckets@, entries@[i - 1].0 as int),
            i > 0 && pending ==> cumulative < 0x8000_0000_0000_0000_0000_0000_0000_0000,
            forall|l: int|
                0 <= l < percents@.len() && #[trigger] found@[l] ==> is_percentile(
                    buckets@,
                    total,
                    percents@[l],
                    values@[l],
                ),
            forall|l: int|
                0 <= l < percents@.len() && !#[trigger] found@[l] ==> values@[l] == 0 && pending,
            forall|l: int, e: int|
                0 <= l < percents@.len() && 0 <= e < i && !#[trigger] found@[l] ==> !reaches(
                    buckets@,
                    (#[trigger] entries@[e]).0,
                    targets@[l] as nat,
                ),
        decreases entries@.len() - i,
    {
        let (bucket_ms, count): (u64, u64) = entries[i];
        proof {
            at_most_of_entry(entries@, buckets@, i as int);
        }
        cumulative = cumulative + count as u128;
        pending = false;
        for j in 0..percents.len()
            invariant
                total > 0,
                i < entries@.len(),
                lists(entries@, buckets@),
                forall|i: int, j: int|
                    0 <= i < j < entries@.len() ==> #[trigger] entries@[i].0
                        < #[trigger] entries@[j].0,
                entries@[i as int].0 == bucket_ms,
                values@.len() == percents@.len(),
                found@.len() == percents@.len(),
                targets@.len() == percents@.len(),
                forall|l: int|
                    0 <= l < percents@.len() ==> #[trigger] targets@[l] == share(
                        total,
                        percents@[l],
                    ) && targets@[l] <= 0x8000_0000_0000_0000_0000_0000_0000_0000,
                cumulative == at_most(buckets@, bucket_ms as int),
                pending ==> cumulative < 0x8000_0000_0000_0000_0000_0000_0000_0000,
                forall|l: int|
                    0 <= l < percents@.len() && #[trigger] found@[l] ==> is_percentile(
                        buckets@,
                        total,
                        percents@[l],
                        values@[l],
                    ),
                forall|l: int|
                    0 <= l < percents@.len() && !#[trigger] found@[l] ==> values@[l] == 0,
                forall|l: int| 0 <= l < j && !#[trigger] found@[l] ==> pending,
                forall|l: int, e: int|
                    0 <= l < percents@.len() && 0 <= e < i && !#[trigger] found@[l] ==> !reaches(
                        buckets@,
                        (#[trigger] entries@[e]).0,
                        targets@[l] as nat,
                    ),
                forall|l: int|
                    0 <= l < j && !#[trigger] found@[l] ==> !reaches(
                        buckets@,
                        bucket_ms,
                        targets@[l] as nat,
                    ),
        {
            if !found[j] {
                if cumulative >= targets[j] {
                    proof {
                        let target = targets@[j as int] as nat;
                        assert(buckets@.contains_key(entries@[i as int].0));
                        assert(reaches(buckets@, bucket_ms, target));
                        assert forall|k: u64| reaches(buckets@, k, target) implies bucket_ms
                            <= k by {
                            let e = choose|e: int|
                                0 <= e < entries@.len() && #[trigger] entries@[e].0 == k;
                            if e < i {
                                assert(!reaches(buckets@, entries@[e].0, target));
                            } else {
                                assert(entries@[i as int].0 <= entries@[e].0);
                            }
                        }
                    }
                    found.set(j, true);
                    values.set(j, bucket_ms);
                } else {
                    pending = true;
                }
            }
        }
        i += 1;
    }
    proof {
        assert forall|j: int| 0 <= j < percents@.len() implies is_percentile(
            buckets@,
            total,
            percents@[j],
            #[trigger] values@[j],
        ) by {
            let target = share(total, percents@[j]);
            assert(targets@[j] == target);
            if !found@[j] {
                assert forall|k: u64| !reaches(buckets@, k, target) by {
                    if buckets@.contains_key(k) {
                        let e = choose|e: int|
                            0 <= e < entries@.len() && #[trigger] entries@[e].0 == k;
                        assert(!reaches(buckets@, entries@[e].0, target));
                    }
                }
            }
        }
    }
    values
}

// ----------------------------------------------------------------------
// The result
// ----------------------------------------------------------------------

/// An average or single latency: `sum_us / count` microseconds, and 0 where
/// nothing was counted.
#[derive(Clone, Copy, Debug, PartialEq, Eq, Structural)]
pub struct Millis {
    pub sum_us: u64,
    pub count: u64,
}

/// Time since the start of a run.
#[derive(Clone, Copy, Debug, PartialEq, Eq, Structural)]
pub struct Elapsed {
    pub secs: u64,
    pub nanos: u32,
}

/// Events over a time, and 0 where no time has passed.
#[derive(Clone, Copy, Debug, PartialEq, Eq, Structural)]
pub struct Rate {
    pub events: u64,
    pub over: Elapsed,
}

/// One point in the per-second time series.
#[derive(Clone, Copy, Debug, PartialEq, Eq, Structural)]
pub struct TimePoint {
    /// Seconds since the start, from 0.
    pub t: u64,
    pub requests: u64,
    pub success: u64,
    pub failed: u64,
    pub bytes: u64,
    pub avg_ms: Millis,
}

/// What a run comes to.
#[derive(Debug)]
pub struct MetricsResult {
    pub total: u64,
    pub success: u64,
    pub failed: u64,
    pub elapsed_secs: Elapsed,
    pub rps: Rate,
    pub bytes: u64,
    pub min_ms: Millis,
    pub max_ms: Millis,
    pub avg_ms: Millis,
    pub status_codes: BTreeMap<u16, u64>,
    pub percentiles: BTreeMap<u64, u64>,
    pub p50_ms: u64,
    pub p95_ms: u64,
    pub p99_ms: u64,
    pub checks_passed: u64,
    pub checks_failed: u64,
    pub check_failures: Vec<CheckFailure>,
    pub errors: Vec<(String, u64)>,
    pub time_series: Vec<TimePoint>,
}

/// A point of the time series.
pub open spec fn time_point(t: int, b: SecondBucket) -> TimePoint {
    TimePoint {
        t: t as u64,
        requests: b.requests,
        success: b.success,
        failed: b.failed,
        bytes: b.bytes,
        avg_ms: Millis { sum_us: b.sum_latency_us, count: b.latency_count },
    }
}

/// One point for each second that has begun, as far as there are buckets.
pub open spec fn time_series(seconds: Seq<SecondBucket>, elapsed_secs: u64) -> Seq<TimePoint> {
    Seq::new(
        if elapsed_secs < seconds.len() {
            (elapsed_secs + 1) as nat
        } else {
            seconds.len()
        },
        |i: int| time_point(i, seconds[i]),
    )
}

/// Whether the named counts are those of the map, by ascending names.
pub open spec fn lists_by_name(counts: Seq<(Seq<char>, u64)>, map: Map<Seq<char>, u64>) -> bool {
    &&& lists(counts, map)
    &&& forall|i: int, j: int|
        0 <= i < j < counts.len() ==> text_less(
            #[trigger] counts[i].0,
            #[trigger] counts[j].0,
        )
}

/// Whether these are the percentiles of recorded latencies.
pub open spec fn holds_percentiles(
    percentiles: Map<u64, u64>,
    buckets: Map<u64, u64>,
    total: u64,
) -> bool {
    &&& percentiles.dom() == set![50u64, 75u64, 90u64, 95u64, 99u64]
    &&& forall|p: u64| #[trigger]
        percentiles.contains_key(p) ==> is_percentile(buckets, total, p, percentiles[p])
}

/// Whether `r` is what the metrics come to after this time.
pub open spec fn sums_up(r: MetricsResult, m: MetricsView, elapsed: Elapsed) -> bool {
    &&& r.total == m.total
    &&& r.success == m.success
    &&& r.failed == m.failed
    &&& r.bytes == m.bytes
    &&& r.elapsed_secs == elapsed
    &&& r.rps == (Rate { events: m.total, over: elapsed })
    &&& r.min_ms == if m.latency_count > 0 {
        Millis { sum_us: m.min_latency_us, count: 1 }
    } else {
        Millis { sum_us: 0, count: 0 }
    }
    &&& r.max_ms == if m.latency_count > 0 {
        Millis { sum_us: m.max_latency_us, count: 1 }
    } else {
        Millis { sum_us: 0, count: 0 }
    }
    &&& r.avg_ms == (Millis { sum_us: m.sum_latency_us, count: m.latency_count })
    &&& r.status_codes@ == m.status_codes
    &&& holds_percentiles(r.percentiles@, m.latency_buckets, m.latency_count)
    &&& r.p50_ms == r.percentiles@[50]
    &&& r.p95_ms == r.percentiles@[95]
    &&& r.p99_ms == r.percentiles@[99]
    &&& r.checks_passed == m.checks_passed
    &&& r.checks_failed == m.checks_failed
    &&& failures_view(r.check_failures@) == m.check_failures
    &&& lists_by_name(counts_view(r.errors@), m.errors)
    &&& r.time_series@ == time_series(m.seconds, elapsed.secs)
}

/// The named counts by ascending names.
fn sort_counts(entries: Vec<(String, u64)>, Ghost(map): Ghost<Map<Seq<char>, u64>>) -> (sorted: Vec<
    (String, u64),
>)
    requires
        lists(counts_view(entries@), map),
    ensures
        lists_by_name(counts_view(sorted@), map),
{
    let ghost given = counts_view(entries@);
    let mut sorted: Vec<(String, u64)> = Vec::new();
    let mut n: usize = 0;
    while n < entries.len()
        invariant
            given == counts_view(entries@),
            lists(given, map),
            n <= entries@.len(),
            forall|i: int, j: int|
                0 <= i < j < sorted@.len() ==> text_less(
                    #[trigger] counts_view(sorted@)[i].0,
                    #[trigger] counts_view(sorted@)[j].0,
                ),
            forall|i: int|
                0 <= i < sorted@.len() ==> given.take(n as int).contains(
                    #[trigger] counts_view(sorted@)[i],
                ),
            forall|i: int|
                0 <= i < n ==> counts_view(sorted@).contains(#[trigger] given[i]),
        decreases entries@.len() - n,
    {
        let name: &String = &entries[n].0;
        let ghost before = counts_view(sorted@);
        let mut at: usize = 0;
        while at < sorted.len() && str_less(sorted[at].0.as_str(), name.as_str())
            invariant
                before == counts_view(sorted@),
                at <= sorted@.len(),
                forall|i: int| 0 <= i < at ==> text_less(#[trigger] before[i].0, name@),
            decreases sorted@.len() - at,
        {
            assert(before[at as int].0 == sorted@[at as int].0@);
            at += 1;
        }
        sorted.insert(at, (name.clone(), entries[n].1));
        proof {
            let after = counts_view(sorted@);
            let new = given[n as int];
            assert(after =~= before.insert(at as int, new));
            assert forall|i: int| 0 <= i < before.len() implies #[trigger] before[i].0
                != new.0 by {
                let j = choose|j: int|
                    0 <= j < n && given.take(n as int)[j] == before[i];
                assert(given.take(n as int).contains(before[i]));
                assert(given[j].0 != given[n as int].0);
            }
            assert forall|i: int| at <= i < before.len() implies text_less(
                new.0,
                #[trigger] before[i].0,
            ) by {
                text_order_is_total(new.0, before[at as int].0);
                assert(before[at as int].0 == sorted@[at as int + 1].0@);
                if i > at {
                    text_order_is_transitive(new.0, before[at as int].0, before[i].0);
                }
            }
            assert forall|i: int, j: int| 0 <= i < j < after.len() implies text_less(
                #[trigger] after[i].0,
                #[trigger] after[j].0,
            ) by {
                if i == at {
                    assert(after[j] == before[j - 1]);
                } else if j == at {
                    assert(after[i] == before[i]);
                } else {
                    let a = if i < at {
                        i
                    } else {
                        i - 1
                    };
                    let b = if j < at {
                        j
                    } else {
                        j - 1
                    };
                    assert(after[i] == before[a] && after[j] == before[b]);
                }
            }
            assert forall|i: int| 0 <= i < after.len() implies given.take(n as int + 1).contains(
                #[trigger] after[i],
            ) by {
                if i == at {
                    assert(given.take(n as int + 1)[n as int] == new);
                } else {
                    let a = if i < at {
                        i
                    } else {
                        i - 1
                    };
                    assert(after[i] == before[a]);
                    assert(given.take(n as int).contains(before[a]));
                    let j = choose|j: int| 0 <= j < n && given.take(n as int)[j] == before[a];
                    assert(given.take(n as int + 1)[j] == before[a]);
                }
            }
            assert forall|i: int| 0 <= i < n + 1 implies after.contains(#[trigger] given[i]) by {
                if i == n {
                    assert(after[at as int] == new);
                } else {
                    assert(before.contains(given[i]));
                    let j = choose|j: int| 0 <= j < before.len() && before[j] == given[i];
                    let k = if j < at {
                        j
                    } else {
                        j + 1
                    };
                    assert(after[k] == given[i]);
                }
            }
        }
        n += 1;
    }
    proof {
        let list = counts_view(sorted@);
        assert(given.take(n as int) =~= given);
        assert forall|i: int| 0 <= i < list.len() implies map.contains_key(#[trigger] list[i].0)
            && map[list[i].0] == list[i].1 by {
            assert(given.contains(list[i]));
            let j = choose|j: int| 0 <= j < given.len() && given[j] == list[i];
            assert(map.contains_key(given[j].0));
        }
        assert forall|k: Seq<char>| #[trigger] map.contains_key(k) implies exists|i: int|
            0 <= i < list.len() && #[trigger] list[i].0 == k by {
            let j = choose|j: int| 0 <= j < given.len() && #[trigger] given[j].0 == k;
            assert(list.contains(given[j]));
            let i = choose|i: int| 0 <= i < list.len() && list[i] == given[j];
            assert(list[i].0 == k);
        }
        assert forall|i: int, j: int| 0 <= i < j < list.len() implies #[trigger] list[i].0
            != #[trigger] list[j].0 by {
            text_order_is_total(list[i].0, list[j].0);
        }
    }
    sorted
}

/// Give a status code its count.
fn put_status(map: &mut BTreeMap<u16, u64>, key: u16, count: u64)
    ensures
        final(map)@ == old(map)@.insert(key, count),
{
    broadcast use vstd::laws_cmp::group_laws_cmp;

    map.insert(key, count);
}

/// Give a number its count.
fn put_number(map: &mut BTreeMap<u64, u64>, key: u64, count: u64)
    ensures
        final(map)@ == old(map)@.insert(key, count),
{
    broadcast use vstd::laws_cmp::group_laws_cmp;

    map.insert(key, count);
}

/// What a number has.
fn number_of(map: &BTreeMap<u64, u64>, key: u64) -> (value: u64)
    requires
        map@.contains_key(key),
    ensures
        value == map@[key],
{
    broadcast use vstd::laws_cmp::group_laws_cmp;

    *map.get(&key).unwrap()
}

/// The percentiles by their percentages.
fn percentile_map(buckets: &BTreeMap<u64, u64>, total: u64) -> (percentiles: BTreeMap<u64, u64>)
    ensures
        holds_percentiles(percentiles@, buckets@, total),
{
    let percents: [u64; 5] = PERCENTILES;
    let values: Vec<u64> = compute_percentiles(buckets, total, percents.as_slice());
    let mut percentiles: BTreeMap<u64, u64> = BTreeMap::new();
    for i in 0..percents.len()
        invariant
            percents@ == PERCENTILES@,
            values@.len() == 5,
            forall|p: u64| #[trigger]
                percentiles@.contains_key(p) <==> exists|j: int| 0 <= j < i && percents@[j] == p,
            forall|j: int|
                0 <= j < i ==> percentiles@[#[trigger] percents@[j]] == values@[j],
    {
        let ghost before = percentiles@;
        put_number(&mut percentiles, percents[i], values[i]);
        assert forall|p: u64| #[trigger] percentiles@.contains_key(p) <==> exists|j: int|
            0 <= j < i + 1 && percents@[j] == p by {
            assert(before.contains_key(p) <==> exists|j: int| 0 <= j < i && percents@[j] == p);
            assert(percents@[i as int] == percents[i as int]);
        }
    }
    assert forall|p: u64| #[trigger] percentiles@.contains_key(p) implies is_percentile(
        buckets@,
        total,
        p,
        percentiles@[p],
    ) by {
        let j = choose|j: int| 0 <= j < 5 && percents@[j] == p;
        assert(is_percentile(buckets@, total, percents@[j], values@[j]));
    }
    assert(percentiles@.dom() =~= set![50u64, 75u64, 90u64, 95u64, 99u64]) by {
        assert(percents@[0] == 50 && percents@[1] == 75 && percents@[2] == 90 && percents@[3] == 95
            && percents@[4] == 99);
    }
    percentiles
}

impl Metrics {
    /// The time series of the seconds so far.
    fn build_time_series(&self, elapsed_secs: u64) -> (points: Vec<TimePoint>)
        requires
            self@.wf(),
        ensures
            points@ == time_series(self@.seconds, elapsed_secs),
    {
        let len: usize = self.seconds.len();
        let n: usize = if elapsed_secs < len as u64 {
            elapsed_secs as usize + 1
        } else {
            len
        };
        let mut points: Vec<TimePoint> = Vec::new();
        for i in 0..n
            invariant
                n <= self.seconds@.len(),
                self.seconds@ == self@.seconds,
                points@ == Seq::new(i as nat, |j: int| time_point(j, self@.seconds[j])),
        {
            let b: SecondBucket = self.seconds[i];
            points.push(
                TimePoint {
                    t: i as u64,
                    requests: b.requests,
                    success: b.success,
                    failed: b.failed,
                    bytes: b.bytes,
                    avg_ms: Millis { sum_us: b.sum_latency_us, count: b.latency_count },
                },
            );
            assert(points@ =~= Seq::new((i + 1) as nat, |j: int| time_point(j, self@.seconds[j])));
        }
        assert(points@ =~= time_series(self@.seconds, elapsed_secs));
        points
    }

    /// What the run comes to after this time.
    pub fn snapshot(&self, elapsed: Elapsed) -> (result: MetricsResult)
        requires
            self@.wf(),
        ensures
            sums_up(result, self@, elapsed),
    {
        let total: u64 = self.total;
        let latency_count: u64 = self.latency_count;
        let codes: Vec<(u16, u64)> = status_entries(&self.status_codes);
        let mut status_codes: BTreeMap<u16, u64> = BTreeMap::new();
        for i in 0..codes.len()
            invariant
                lists(codes@, self@.status_codes),
                forall|k: u16| #[trigger]
                    status_codes@.contains_key(k) <==> exists|j: int|
                        0 <= j < i && #[trigger] codes@[j].0 == k,
                forall|k: u16| #[trigger]
                    status_codes@.contains_key(k) ==> status_codes@[k] == self@.status_codes[k],
        {
            let ghost before = status_codes@;
            put_status(&mut status_codes, codes[i].0, codes[i].1);
            assert forall|k: u16| #[trigger] status_codes@.contains_key(k) <==> exists|j: int|
                0 <= j < i + 1 && #[trigger] codes@[j].0 == k by {
                assert(before.contains_key(k) <==> exists|j: int|
                    0 <= j < i && #[trigger] codes@[j].0 == k);
                assert(codes@[i as int].0 == codes@[i as int].0);
            }
        }
        assert(status_codes@ =~= self@.status_codes);

        let buckets: Vec<(u64, u64)> = latency_entries(&self.latency_buckets);
        let mut latency_dist: BTreeMap<u64, u64> = BTreeMap::new();
        for i in 0..buckets.len()
            invariant
                lists(buckets@, self@.latency_buckets),
                forall|k: u64| #[trigger]
                    latency_dist@.contains_key(k) <==> exists|j: int|
                        0 <= j < i && #[trigger] buckets@[j].0 == k,
                forall|k: u64| #[trigger]
                    latency_dist@.contains_key(k) ==> latency_dist@[k] == self@.latency_buckets[k],
        {
            let ghost before = latency_dist@;
            put_number(&mut latency_dist, buckets[i].0, buckets[i].1);
            assert forall|k: u64| #[trigger] latency_dist@.contains_key(k) <==> exists|j: int|
                0 <= j < i + 1 && #[trigger] buckets@[j].0 == k by {
                assert(before.contains_key(k) <==> exists|j: int|
                    0 <= j < i && #[trigger] buckets@[j].0 == k);
                assert(buckets@[i as int].0 == buckets@[i as int].0);
            }
        }
        assert(latency_dist@ =~= self@.latency_buckets);

        let percentiles: BTreeMap<u64, u64> = percentile_map(&latency_dist, latency_count);
        assert(percentiles@.dom().contains(50) && percentiles@.dom().contains(95)
            && percentiles@.dom().contains(99));
        let p50_ms: u64 = number_of(&percentiles, 50);
        let p95_ms: u64 = number_of(&percentiles, 95);
        let p99_ms: u64 = number_of(&percentiles, 99);

        let mut check_failures: Vec<CheckFailure> = Vec::new();
        for i in 0..self.check_failures.len()
            invariant
                failures_view(check_failures@) == self@.check_failures.take(i as int),
                self@.check_failures == failures_view(self.check_failures@),
        {
            let ghost before = failures_view(check_failures@);
            check_failures.push(self.check_failures[i].clone());
            assert(failures_view(check_failures@) =~= before.push(self@.check_failures[i as int]));
            assert(self@.check_failures.take(i as int + 1) =~= self@.check_failures.take(
                i as int,
            ).push(self@.check_failures[i as int]));
        }
        assert(self@.check_failures.take(self.check_failures@.len() as int)
            =~= self@.check_failures);

        MetricsResult {
            total,
            success: self.success,
            failed: self.failed,
            elapsed_secs: elapsed,
            rps: Rate { events: total, over: elapsed },
            bytes: self.bytes,
            min_ms: if latency_count > 0 {
                Millis { sum_us: self.min_latency_us, count: 1 }
            } else {
                Millis { sum_us: 0, count: 0 }
            },
            max_ms: if latency_count > 0 {
                Millis { sum_us: self.max_latency_us, count: 1 }
            } else {
                Millis { sum_us: 0, count: 0 }
            },
            avg_ms: Millis { sum_us: self.sum_latency_us, count: latency_count },
            status_codes,
            percentiles,
            p50_ms,
            p95_ms,
            p99_ms,
            checks_passed: self.checks_passed,
            checks_failed: self.checks_failed,
            check_failures,
            errors: sort_counts(error_entries(&self.errors), Ghost(self@.errors)),
            time_series: self.build_time_series(elapsed.secs),
        }
    }
}

// ----------------------------------------------------------------------
// Laws
// ----------------------------------------------------------------------

/// Something that is recorded during a run.
pub enum Recorded {
    Request {
        at_secs: u64,
        latency_us: u64,
        status: u16,
        bytes: u64,
        is_success: bool,
        error: Option<ConnError>,
    },
    Checks { passed: nat, failures: Seq<CheckFailureView> },
    Event { at_secs: u64, bytes: u64 },
    Sent { at_secs: u64 },
    Reply { at_secs: u64, latency_us: u64, status: u16, bytes: u64 },
    ConnFailure { at_secs: u64, cause: ConnError },
}

/// The metrics after one more recording.
pub open spec fn after_one(m: MetricsView, r: Recorded) -> MetricsView {
    match r {
        Recorded::Request { at_secs, latency_us, status, bytes, is_success, error } =>
            after_request(m, at_secs, latency_us, status, bytes, is_success, error),
        Recorded::Checks { passed, failures } => after_checks(m, passed, failures),
        Recorded::Event { at_secs, bytes } => after_event(m, at_secs, bytes),
        Recorded::Sent { at_secs } => after_sent(m, at_secs),
        Recorded::Reply { at_secs, latency_us, status, bytes } => after_reply(
            m,
            at_secs,
            latency_us,
            status,
            bytes,
        ),
        Recorded::ConnFailure { at_secs, cause } => after_conn_error(m, at_secs, cause),
    }
}

/// The metrics of a run in which all this was recorded.
pub open spec fn after_all(duration_secs: u64, all: Seq<Recorded>) -> MetricsView
    decreases all.len(),
{
    if all.len() == 0 {
        fresh_metrics(duration_secs)
    } else {
        after_one(after_all(duration_secs, all.drop_last()), all.last())
    }
}

/// How many recordings are of a sort.
pub open spec fn how_many(all: Seq<Recorded>, sort: spec_fn(Recorded) -> bool) -> nat
    decreases all.len(),
{
    if all.len() == 0 {
        0
    } else {
        how_many(all.drop_last(), sort) + (if sort(all.last()) {
            1nat
        } else {
            0
        })
    }
}

/// What counts toward the total: a request, an event or a message that waits
/// for its reply.
pub open spec fn is_counted() -> spec_fn(Recorded) -> bool {
    |r: Recorded| r is Request || r is Event || r is Sent
}

/// A message that waits for its reply.
pub open spec fn is_sent() -> spec_fn(Recorded) -> bool {
    |r: Recorded| r is Sent
}

/// The reply to a message.
pub open spec fn is_reply() -> spec_fn(Recorded) -> bool {
    |r: Recorded| r is Reply
}

/// A connection that failed.
pub open spec fn is_conn_failure() -> spec_fn(Recorded) -> bool {
    |r: Recorded| r is ConnFailure
}

/// What counts as success.
pub open spec fn is_good() -> spec_fn(Recorded) -> bool {
    |r: Recorded|
        match r {
            Recorded::Request { is_success, .. } => is_success,
            Recorded::Event { .. } => true,
            Recorded::Reply { .. } => true,
            _ => false,
        }
}

/// What counts as failure.
pub open spec fn is_bad() -> spec_fn(Recorded) -> bool {
    |r: Recorded|
        match r {
            Recorded::Request { is_success, .. } => !is_success,
            Recorded::ConnFailure { .. } => true,
            _ => false,
        }
}

/// The status of a recording. A connection that failed has the status 0.
pub open spec fn status_of(r: Recorded) -> Option<u16> {
    match r {
        Recorded::Request { status, .. } => Some(status),
        Recorded::Reply { status, .. } => Some(status),
        Recorded::ConnFailure { .. } => Some(0),
        _ => None,
    }
}

/// The latency of a recording.
pub open spec fn latency_of(r: Recorded) -> Option<u64> {
    match r {
        Recorded::Request { latency_us, .. } => Some(latency_us),
        Recorded::Reply { latency_us, .. } => Some(latency_us),
        _ => None,
    }
}

/// The category of a failure.
pub open spec fn error_of(r: Recorded) -> Option<ConnError> {
    match r {
        Recorded::Request { error, .. } => error,
        Recorded::ConnFailure { cause, .. } => Some(cause),
        _ => None,
    }
}

/// The second since the start in which something was recorded.
pub open spec fn second_of(r: Recorded) -> Option<u64> {
    match r {
        Recorded::Request { at_secs, .. } => Some(at_secs),
        Recorded::Checks { .. } => None,
        Recorded::Event { at_secs, .. } => Some(at_secs),
        Recorded::Sent { at_secs } => Some(at_secs),
        Recorded::Reply { at_secs, .. } => Some(at_secs),
        Recorded::ConnFailure { at_secs, .. } => Some(at_secs),
    }
}

/// The bytes of a recording.
pub open spec fn bytes_of(r: Recorded) -> u64 {
    match r {
        Recorded::Request { bytes, .. } => bytes,
        Recorded::Event { bytes, .. } => bytes,
        Recorded::Reply { bytes, .. } => bytes,
        _ => 0,
    }
}

/// What has a status.
pub open spec fn has_some_status() -> spec_fn(Recorded) -> bool {
    |r: Recorded| status_of(r) is Some
}

/// What has this status.
pub open spec fn has_status(code: u16) -> spec_fn(Recorded) -> bool {
    |r: Recorded| status_of(r) == Some(code)
}

/// What has a latency.
pub open spec fn is_timed() -> spec_fn(Recorded) -> bool {
    |r: Recorded| latency_of(r) is Some
}

/// What took this many whole milliseconds.
pub open spec fn has_latency(ms: u64) -> spec_fn(Recorded) -> bool {
    |r: Recorded| latency_of(r) matches Some(us) && us / 1000 == ms
}

/// What failed with a category.
pub open spec fn has_some_error() -> spec_fn(Recorded) -> bool {
    |r: Recorded| error_of(r) is Some
}

/// A failure of this category.
pub open spec fn has_error(e: ConnError) -> spec_fn(Recorded) -> bool {
    |r: Recorded| error_of(r) == Some(e)
}

/// All failed assertions, in the order in which they were recorded.
pub open spec fn all_failures(all: Seq<Recorded>) -> Seq<CheckFailureView>
    decreases all.len(),
{
    if all.len() == 0 {
        seq![]
    } else {
        all_failures(all.drop_last()) + (match all.last() {
            Recorded::Checks { failures, .. } => failures,
            _ => seq![],
        })
    }
}

/// How many assertions held in all.
pub open spec fn all_passed(all: Seq<Recorded>) -> nat
    decreases all.len(),
{
    if all.len() == 0 {
        0
    } else {
        all_passed(all.drop_last()) + (match all.last() {
            Recorded::Checks { passed, .. } => passed,
            _ => 0,
        })
    }
}

/// All bytes that were recorded.
pub open spec fn all_bytes(all: Seq<Recorded>) -> nat
    decreases all.len(),
{
    if all.len() == 0 {
        0
    } else {
        all_bytes(all.drop_last()) + bytes_of(all.last()) as nat
    }
}

/// All latencies that were recorded, added up.
pub open spec fn all_latencies(all: Seq<Recorded>) -> nat
    decreases all.len(),
{
    if all.len() == 0 {
        0
    } else {
        all_latencies(all.drop_last()) + (match latency_of(all.last()) {
            Some(us) => us as nat,
            None => 0,
        })
    }
}

/// Counts added up over seconds.
pub struct Totals {
    pub requests: nat,
    pub success: nat,
    pub failed: nat,
    pub bytes: nat,
}

/// What some seconds come to.
pub open spec fn totals_of(seconds: Seq<SecondBucket>) -> Totals
    decreases seconds.len(),
{
    if seconds.len() == 0 {
        Totals { requests: 0, success: 0, failed: 0, bytes: 0 }
    } else {
        let t = totals_of(seconds.drop_last());
        let b = seconds.last();
        Totals {
            requests: t.requests + b.requests as nat,
            success: t.success + b.success as nat,
            failed: t.failed + b.failed as nat,
            bytes: t.bytes + b.bytes as nat,
        }
    }
}

/// What some points of a time series come to.
pub open spec fn totals_reported(points: Seq<TimePoint>) -> Totals
    decreases points.len(),
{
    if points.len() == 0 {
        Totals { requests: 0, success: 0, failed: 0, bytes: 0 }
    } else {
        let t = totals_reported(points.drop_last());
        let p = points.last();
        Totals {
            requests: t.requests + p.requests as nat,
            success: t.success + p.success as nat,
            failed: t.failed + p.failed as nat,
            bytes: t.bytes + p.bytes as nat,
        }
    }
}

/// How often a status was recorded.
pub open spec fn code_count(codes: Map<u16, u64>) -> spec_fn(int) -> nat {
    |k: int|
        if 0 <= k <= u16::MAX && codes.contains_key(k as u16) {
            codes[k as u16] as nat
        } else {
            0
        }
}

/// How often any status was recorded.
pub open spec fn all_codes(codes: Map<u16, u64>) -> nat {
    sum_to(code_count(codes), u16::MAX as int)
}

/// How often any category of failure was recorded.
pub open spec fn all_errors(errors: Map<Seq<char>, u64>) -> int {
    count_in(errors, error_label(ConnError::Timeout), 0) + count_in(
        errors,
        error_label(ConnError::Dns),
        0,
    ) + count_in(errors, error_label(ConnError::Refused), 0) + count_in(
        errors,
        error_label(ConnError::Reset),
        0,
    ) + count_in(errors, error_label(ConnError::Tls), 0) + count_in(
        errors,
        error_label(ConnError::Protocol),
        0,
    ) + count_in(errors, error_label(ConnError::Other), 0)
}

proof fn how_many_is_at_most_all(all: Seq<Recorded>, sort: spec_fn(Recorded) -> bool)
    ensures
        how_many(all, sort) <= all.len(),
    decreases all.len(),
{
    if all.len() > 0 {
        how_many_is_at_most_all(all.drop_last(), sort);
    }
}

/// Sorts that agree on all recordings count the same.
pub proof fn how_many_is_same(
    all: Seq<Recorded>,
    a: spec_fn(Recorded) -> bool,
    b: spec_fn(Recorded) -> bool,
)
    requires
        forall|i: int| 0 <= i < all.len() ==> a(#[trigger] all[i]) == b(all[i]),
    ensures
        how_many(all, a) == how_many(all, b),
    decreases all.len(),
{
    if all.len() > 0 {
        let rest = all.drop_last();
        assert forall|i: int| 0 <= i < rest.len() implies a(#[trigger] rest[i]) == b(rest[i]) by {
            assert(rest[i] == all[i]);
        }
        how_many_is_same(rest, a, b);
        assert(all.last() == all[all.len() - 1]);
    }
}

proof fn sum_to_is_same(a: spec_fn(int) -> nat, b: spec_fn(int) -> nat, last: int)
    requires
        forall|k: int| 0 <= k <= last ==> #[trigger] a(k) == b(k),
    ensures
        sum_to(a, last) == sum_to(b, last),
    decreases last + 1,
{
    if last >= 0 {
        assert(a(last) == b(last));
        sum_to_is_same(a, b, last - 1);
    }
}

proof fn sum_to_of_one_more(a: spec_fn(int) -> nat, b: spec_fn(int) -> nat, at: int, last: int)
    requires
        0 <= at <= last,
        b(at) == a(at) + 1,
        forall|k: int| k != at ==> #[trigger] a(k) == b(k),
    ensures
        sum_to(b, last) == sum_to(a, last) + 1,
    decreases last,
{
    if last > at {
        assert(a(last) == b(last));
        sum_to_of_one_more(a, b, at, last - 1);
    } else {
        sum_to_is_same(a, b, last - 1);
    }
}

proof fn sum_to_of_nothing(a: spec_fn(int) -> nat, last: int)
    requires
        forall|k: int| #[trigger] a(k) == 0,
    ensures
        sum_to(a, last) == 0,
    decreases last + 1,
{
    if last >= 0 {
        assert(a(last) == 0);
        sum_to_of_nothing(a, last - 1);
    }
}

proof fn sum_to_holds_each(a: spec_fn(int) -> nat, at: int, last: int)
    requires
        0 <= at <= last,
    ensures
        a(at) <= sum_to(a, last),
    decreases last,
{
    if last > at {
        sum_to_holds_each(a, at, last - 1);
    }
}

/// Empty seconds come to nothing.
proof fn totals_of_nothing(seconds: Seq<SecondBucket>)
    requires
        forall|i: int| 0 <= i < seconds.len() ==> #[trigger] seconds[i] == empty_second(),
    ensures
        totals_of(seconds) == (Totals { requests: 0, success: 0, failed: 0, bytes: 0 }),
    decreases seconds.len(),
{
    if seconds.len() > 0 {
        assert(seconds.last() == empty_second());
        totals_of_nothing(seconds.drop_last());
    }
}

/// Each second is part of what the seconds come to, and a change of one
/// changes the totals by as much.
proof fn totals_after_update(seconds: Seq<SecondBucket>, i: int, b: SecondBucket)
    requires
        0 <= i < seconds.len(),
    ensures
        ({
            let (old_t, new_t) = (totals_of(seconds), totals_of(seconds.update(i, b)));
            &&& old_t.requests >= seconds[i].requests
            &&& old_t.success >= seconds[i].success
            &&& old_t.failed >= seconds[i].failed
            &&& old_t.bytes >= seconds[i].bytes
            &&& new_t.requests == old_t.requests - seconds[i].requests + b.requests
            &&& new_t.success == old_t.success - seconds[i].success + b.success
            &&& new_t.failed == old_t.failed - seconds[i].failed + b.failed
            &&& new_t.bytes == old_t.bytes - seconds[i].bytes + b.bytes
        }),
    decreases seconds.len(),
{
    let rest = seconds.drop_last();
    if i == seconds.len() - 1 {
        assert(seconds.update(i, b).drop_last() =~= rest);
    } else {
        assert(seconds.update(i, b).drop_last() =~= rest.update(i, b));
        totals_after_update(rest, i, b);
    }
}

/// What one recording adds to the totals, it adds to the seconds too.
#[verifier::spinoff_prover]
#[verifier::rlimit(40)]
proof fn one_recording_counts(m: MetricsView, r: Recorded)
    requires
        m.wf(),
        m.total < u64::MAX,
        m.success < u64::MAX,
        m.failed < u64::MAX,
        totals_of(m.seconds).requests == m.total,
        totals_of(m.seconds).success == m.success,
        totals_of(m.seconds).failed == m.failed,
    ensures
        ({
            let after = after_one(m, r);
            &&& after.wf()
            &&& after.seconds.len() == m.seconds.len()
            &&& after.total == m.total + (if is_counted()(r) {
                1int
            } else {
                0
            })
            &&& after.success == m.success + (if is_good()(r) {
                1int
            } else {
                0
            })
            &&& after.failed == m.failed + (if is_bad()(r) {
                1int
            } else {
                0
            })
            &&& totals_of(after.seconds).requests == after.total
            &&& totals_of(after.seconds).success == after.success
            &&& totals_of(after.seconds).failed == after.failed
            &&& m.bytes + bytes_of(r) <= u64::MAX && totals_of(m.seconds).bytes == m.bytes ==> {
                &&& after.bytes == m.bytes + bytes_of(r)
                &&& totals_of(after.seconds).bytes == after.bytes
            }
        }),
{
    if let Some(at_secs) = second_of(r) {
        let after = after_one(m, r);
        let i = m.second_index(at_secs);
        totals_after_update(m.seconds, i, after.seconds[i]);
        match r {
            Recorded::Request { .. } => {
                assert(after.seconds =~= m.seconds.update(i, after.seconds[i]));
            },
            Recorded::Event { .. } => {
                assert(after.seconds =~= m.seconds.update(i, after.seconds[i]));
            },
            Recorded::Sent { .. } => {
                assert(after.seconds =~= m.seconds.update(i, after.seconds[i]));
            },
            Recorded::Reply { .. } => {
                assert(after.seconds =~= m.seconds.update(i, after.seconds[i]));
            },
            Recorded::ConnFailure { .. } => {
                assert(after.seconds =~= m.seconds.update(i, after.seconds[i]));
            },
            Recorded::Checks { .. } => {},
        }
    }
}

/// The totals of a run are the numbers of what was recorded: every request,
/// every event and every message that waits for its reply counts once toward
/// the total, and every request, event, reply and failed connection as either
/// a success or a failure. The seconds share out those numbers and, as long as
/// their sum can be held, the bytes.
#[verifier::spinoff_prover]
pub proof fn totals_count_the_recordings(duration_secs: u64, all: Seq<Recorded>)
    requires
        duration_secs + 2 <= usize::MAX,
        all.len() <= u64::MAX,
    ensures
        ({
            let m = after_all(duration_secs, all);
            &&& m.wf()
            &&& m.total == how_many(all, is_counted())
            &&& m.success == how_many(all, is_good())
            &&& m.failed == how_many(all, is_bad())
            &&& m.seconds.len() == fresh_metrics(duration_secs).seconds.len()
            &&& totals_of(m.seconds).requests == m.total
            &&& totals_of(m.seconds).success == m.success
            &&& totals_of(m.seconds).failed == m.failed
            &&& all_bytes(all) <= u64::MAX ==> {
                &&& m.bytes == all_bytes(all)
                &&& totals_of(m.seconds).bytes == m.bytes
            }
        }),
    decreases all.len(),
{
    let m = after_all(duration_secs, all);
    if all.len() == 0 {
        totals_of_nothing(m.seconds);
    } else {
        let before = after_all(duration_secs, all.drop_last());
        totals_count_the_recordings(duration_secs, all.drop_last());
        how_many_is_at_most_all(all.drop_last(), is_counted());
        how_many_is_at_most_all(all.drop_last(), is_good());
        how_many_is_at_most_all(all.drop_last(), is_bad());
        one_recording_counts(before, all.last());
    }
}

/// Nothing is recorded in a second that has not begun.
proof fn later_seconds_are_empty(
    duration_secs: u64,
    all: Seq<Recorded>,
    elapsed_secs: u64,
    k: int,
)
    requires
        duration_secs + 2 <= usize::MAX,
        forall|i: int|
            0 <= i < all.len() ==> (second_of(#[trigger] all[i]) matches Some(at) ==> at
                <= elapsed_secs),
        elapsed_secs < k < fresh_metrics(duration_secs).seconds.len(),
    ensures
        after_all(duration_secs, all).seconds.len() == fresh_metrics(duration_secs).seconds.len(),
        after_all(duration_secs, all).seconds[k] == empty_second(),
    decreases all.len(),
{
    if all.len() > 0 {
        let rest = all.drop_last();
        assert forall|i: int| 0 <= i < rest.len() implies (second_of(
            #[trigger] rest[i],
        ) matches Some(at) ==> at <= elapsed_secs) by {
            assert(rest[i] == all[i]);
        }
        later_seconds_are_empty(duration_secs, rest, elapsed_secs, k);
        assert(all.last() == all[all.len() - 1]);
    }
}

/// Seconds past which nothing happened come to what those up to there do.
proof fn totals_without_the_rest(seconds: Seq<SecondBucket>, n: int)
    requires
        0 <= n <= seconds.len(),
        forall|i: int| n <= i < seconds.len() ==> #[trigger] seconds[i] == empty_second(),
    ensures
        totals_of(seconds) == totals_of(seconds.take(n)),
    decreases seconds.len(),
{
    if n == seconds.len() {
        assert(seconds.take(n) =~= seconds);
    } else {
        assert(seconds.last() == empty_second());
        assert(seconds.drop_last().take(n) =~= seconds.take(n));
        totals_without_the_rest(seconds.drop_last(), n);
    }
}

/// The points of a time series come to what their seconds do.
proof fn points_hold_their_seconds(seconds: Seq<SecondBucket>, points: Seq<TimePoint>)
    requires
        points.len() <= seconds.len(),
        forall|i: int|
            0 <= i < points.len() ==> #[trigger] points[i] == time_point(i, seconds[i]),
    ensures
        totals_reported(points) == totals_of(seconds.take(points.len() as int)),
    decreases points.len(),
{
    if points.len() > 0 {
        let n = points.len() as int;
        assert(seconds.take(n).drop_last() =~= seconds.take(n - 1));
        assert(points.last() == time_point(n - 1, seconds[n - 1]));
        points_hold_their_seconds(seconds, points.drop_last());
    }
}

/// Once the last second in which something was recorded has begun, the
/// points that the time series reports add up to the totals of the run:
/// requests, successes, failures and, as long as their sum can be held, the
/// bytes. There is one point for each second that has begun, as far as there
/// are buckets, and each has its own second.
pub proof fn reported_seconds_add_up(duration_secs: u64, all: Seq<Recorded>, elapsed_secs: u64)
    requires
        duration_secs + 2 <= usize::MAX,
        all.len() <= u64::MAX,
        forall|i: int|
            0 <= i < all.len() ==> (second_of(#[trigger] all[i]) matches Some(at) ==> at
                <= elapsed_secs),
    ensures
        ({
            let m = after_all(duration_secs, all);
            let points = time_series(m.seconds, elapsed_secs);
            &&& points.len() == if elapsed_secs < m.seconds.len() {
                elapsed_secs + 1
            } else {
                m.seconds.len() as int
            }
            &&& forall|i: int| 0 <= i < points.len() ==> (#[trigger] points[i]).t == i
            &&& totals_reported(points).requests == m.total
            &&& totals_reported(points).success == m.success
            &&& totals_reported(points).failed == m.failed
            &&& all_bytes(all) <= u64::MAX ==> totals_reported(points).bytes == m.bytes
        }),
{
    let m = after_all(duration_secs, all);
    let points = time_series(m.seconds, elapsed_secs);
    totals_count_the_recordings(duration_secs, all);
    points_hold_their_seconds(m.seconds, points);
    assert forall|k: int| points.len() <= k < m.seconds.len() implies #[trigger] m.seconds[k]
        == empty_second() by {
        later_seconds_are_empty(duration_secs, all, elapsed_secs, k);
    }
    totals_without_the_rest(m.seconds, points.len() as int);
}

/// Successes and failures make up the total and the failed connections,
/// without the messages whose reply has not come.
pub proof fn every_recording_succeeds_or_fails(all: Seq<Recorded>)
    ensures
        how_many(all, is_good()) + how_many(all, is_bad()) + how_many(all, is_sent()) == how_many(
            all,
            is_counted(),
        ) + how_many(all, is_conn_failure()) + how_many(all, is_reply()),
    decreases all.len(),
{
    if all.len() > 0 {
        every_recording_succeeds_or_fails(all.drop_last());
    }
}

/// Where a request fails exactly if it has the status 0 and no reply has that
/// status, the failures of a run are those counted under the status 0.
pub proof fn failures_have_the_status_0(duration_secs: u64, all: Seq<Recorded>)
    requires
        forall|i: int| #![trigger all[i]]
            0 <= i < all.len() ==> match all[i] {
                Recorded::Request { status, is_success, .. } => is_success == (status != 0),
                Recorded::Reply { status, .. } => status != 0,
                _ => true,
            },
    ensures
        after_all(duration_secs, all).failed == count_in(
            after_all(duration_secs, all).status_codes,
            0,
            0,
        ),
    decreases all.len(),
{
    if all.len() > 0 {
        let rest = all.drop_last();
        assert forall|i: int| #![trigger rest[i]] 0 <= i < rest.len() implies match rest[i] {
            Recorded::Request { status, is_success, .. } => is_success == (status != 0),
            Recorded::Reply { status, .. } => status != 0,
            _ => true,
        } by {
            assert(rest[i] == all[i]);
        }
        failures_have_the_status_0(duration_secs, rest);
        assert(all.last() == all[all.len() - 1]);
    }
}

/// A status, a latency and an error category are each counted as often as
/// they were recorded, and nothing else is.
pub proof fn counts_are_exact(
    duration_secs: u64,
    all: Seq<Recorded>,
    code: u16,
    ms: u64,
    e: ConnError,
)
    requires
        all.len() <= u64::MAX,
    ensures
        ({
            let m = after_all(duration_secs, all);
            &&& count_in(m.status_codes, code, 0) == how_many(all, has_status(code))
            &&& count_in(m.latency_buckets, ms, 0) == how_many(all, has_latency(ms))
            &&& count_in(m.errors, error_label(e), 0) == how_many(all, has_error(e))
            &&& m.status_codes.contains_key(code) == (how_many(all, has_status(code)) > 0)
            &&& m.latency_buckets.contains_key(ms) == (how_many(all, has_latency(ms)) > 0)
            &&& m.errors.contains_key(error_label(e)) == (how_many(all, has_error(e)) > 0)
            &&& forall|label: Seq<char>| #[trigger]
                m.errors.contains_key(label) ==> exists|e: ConnError| error_label(e) == label
        }),
    decreases all.len(),
{
    if all.len() > 0 {
        counts_are_exact(duration_secs, all.drop_last(), code, ms, e);
        how_many_is_at_most_all(all.drop_last(), has_status(code));
        how_many_is_at_most_all(all.drop_last(), has_latency(ms));
        how_many_is_at_most_all(all.drop_last(), has_error(e));
        if let Some(other) = error_of(all.last()) {
            if other != e {
                error_labels_differ(other, e);
            }
        }
    }
}

/// The counts of the latencies add up to the number of recordings that have
/// one, which is kept beside them.
pub proof fn every_latency_is_counted(duration_secs: u64, all: Seq<Recorded>)
    requires
        all.len() <= u64::MAX,
    ensures
        at_most(after_all(duration_secs, all).latency_buckets, u64::MAX as int) == how_many(
            all,
            is_timed(),
        ),
        after_all(duration_secs, all).latency_count == how_many(all, is_timed()),
    decreases all.len(),
{
    let m = after_all(duration_secs, all);
    let last = u64::MAX as int;
    if all.len() == 0 {
        sum_to_of_nothing(bucket_count(m.latency_buckets), last);
    } else {
        let before = after_all(duration_secs, all.drop_last());
        every_latency_is_counted(duration_secs, all.drop_last());
        how_many_is_at_most_all(all.drop_last(), is_timed());
        if let Some(us) = latency_of(all.last()) {
            let ms = (us / 1000) as int;
            let a = bucket_count(before.latency_buckets);
            let b = bucket_count(m.latency_buckets);
            sum_to_holds_each(a, ms, last);
            assert(b(ms) == a(ms) + 1);
            sum_to_of_one_more(a, b, ms, last);
        }
    }
}

/// The counts of the status codes add up to the number of recordings that
/// have a status.
pub proof fn every_status_is_counted(duration_secs: u64, all: Seq<Recorded>)
    requires
        all.len() <= u64::MAX,
    ensures
        all_codes(after_all(duration_secs, all).status_codes) == how_many(all, has_some_status()),
    decreases all.len(),
{
    let m = after_all(duration_secs, all);
    let last = u16::MAX as int;
    if all.len() == 0 {
        sum_to_of_nothing(code_count(m.status_codes), last);
    } else {
        let before = after_all(duration_secs, all.drop_last());
        every_status_is_counted(duration_secs, all.drop_last());
        how_many_is_at_most_all(all.drop_last(), has_some_status());
        if let Some(code) = status_of(all.last()) {
            let a = code_count(before.status_codes);
            let b = code_count(m.status_codes);
            sum_to_holds_each(a, code as int, last);
            assert(b(code as int) == a(code as int) + 1);
            sum_to_of_one_more(a, b, code as int, last);
        }
    }
}

/// Every failure with a category has one of the seven.
proof fn errors_by_category(all: Seq<Recorded>)
    ensures
        how_many(all, has_some_error()) == how_many(all, has_error(ConnError::Timeout)) + how_many(
            all,
            has_error(ConnError::Dns),
        ) + how_many(all, has_error(ConnError::Refused)) + how_many(
            all,
            has_error(ConnError::Reset),
        ) + how_many(all, has_error(ConnError::Tls)) + how_many(
            all,
            has_error(ConnError::Protocol),
        ) + how_many(all, has_error(ConnError::Other)),
    decreases all.len(),
{
    if all.len() > 0 {
        errors_by_category(all.drop_last());
        if let Some(e) = error_of(all.last()) {
            match e {
                ConnError::Timeout => {},
                ConnError::Refused => {},
                ConnError::Reset => {},
                ConnError::Tls => {},
                ConnError::Dns => {},
                ConnError::Protocol => {},
                ConnError::Other => {},
            }
        }
    }
}

/// The counts of the error categories add up to the number of recordings
/// that have one.
pub proof fn every_error_is_counted(duration_secs: u64, all: Seq<Recorded>)
    requires
        all.len() <= u64::MAX,
    ensures
        all_errors(after_all(duration_secs, all).errors) == how_many(all, has_some_error()),
{
    errors_by_category(all);
    counts_are_exact(duration_secs, all, 0, 0, ConnError::Timeout);
    counts_are_exact(duration_secs, all, 0, 0, ConnError::Dns);
    counts_are_exact(duration_secs, all, 0, 0, ConnError::Refused);
    counts_are_exact(duration_secs, all, 0, 0, ConnError::Reset);
    counts_are_exact(duration_secs, all, 0, 0, ConnError::Tls);
    counts_are_exact(duration_secs, all, 0, 0, ConnError::Protocol);
    counts_are_exact(duration_secs, all, 0, 0, ConnError::Other);
}

proof fn all_of_a_sort(all: Seq<Recorded>, sort: spec_fn(Recorded) -> bool)
    requires
        forall|i: int| 0 <= i < all.len() ==> sort(#[trigger] all[i]),
    ensures
        how_many(all, sort) == all.len(),
    decreases all.len(),
{
    if all.len() > 0 {
        assert(sort(all[all.len() - 1]));
        assert forall|i: int| 0 <= i < all.len() - 1 implies sort(
            #[trigger] all.drop_last()[i],
        ) by {
            assert(all.drop_last()[i] == all[i]);
        }
        all_of_a_sort(all.drop_last(), sort);
    }
}

/// In a run of requests alone every request counts once in the total, once
/// as a success or a failure, once under its status and once under its
/// latency; and the assertions are untouched.
pub proof fn every_request_counts_once(duration_secs: u64, all: Seq<Recorded>)
    requires
        duration_secs + 2 <= usize::MAX,
        all.len() <= u64::MAX,
        forall|i: int| 0 <= i < all.len() ==> (#[trigger] all[i]) is Request,
    ensures
        ({
            let m = after_all(duration_secs, all);
            &&& m.total == all.len()
            &&& m.success + m.failed == all.len()
            &&& all_codes(m.status_codes) == all.len()
            &&& at_most(m.latency_buckets, u64::MAX as int) == all.len()
            &&& m.latency_count == all.len()
            &&& all_errors(m.errors) == how_many(all, has_some_error())
            &&& m.checks_passed == 0
            &&& m.checks_failed == 0
            &&& m.check_failures == Seq::<CheckFailureView>::empty()
        }),
{
    totals_count_the_recordings(duration_secs, all);
    every_recording_succeeds_or_fails(all);
    every_status_is_counted(duration_secs, all);
    every_latency_is_counted(duration_secs, all);
    every_error_is_counted(duration_secs, all);
    all_of_a_sort(all, is_counted());
    all_of_a_sort(all, has_some_status());
    all_of_a_sort(all, is_timed());
    requests_are_no_checks(duration_secs, all);
}

proof fn requests_are_no_checks(duration_secs: u64, all: Seq<Recorded>)
    requires
        forall|i: int| 0 <= i < all.len() ==> (#[trigger] all[i]) is Request,
    ensures
        after_all(duration_secs, all).checks_passed == 0,
        after_all(duration_secs, all).checks_failed == 0,
        after_all(duration_secs, all).check_failures == Seq::<CheckFailureView>::empty(),
        how_many(all, is_conn_failure()) == 0,
        how_many(all, is_sent()) == 0,
        how_many(all, is_reply()) == 0,
    decreases all.len(),
{
    if all.len() > 0 {
        assert(all[all.len() - 1] is Request);
        assert forall|i: int| 0 <= i < all.len() - 1 implies (
            #[trigger] all.drop_last()[i]) is Request by {
            assert(all.drop_last()[i] == all[i]);
        }
        requests_are_no_checks(duration_secs, all.drop_last());
    }
}

/// Every assertion is counted, as long as the counts can be held.
pub proof fn every_assertion_is_counted(duration_secs: u64, all: Seq<Recorded>)
    requires
        all_passed(all) <= u64::MAX,
        all_failures(all).len() <= u64::MAX,
    ensures
        after_all(duration_secs, all).checks_passed == all_passed(all),
        after_all(duration_secs, all).checks_failed == all_failures(all).len(),
    decreases all.len(),
{
    if all.len() > 0 {
        every_assertion_is_counted(duration_secs, all.drop_last());
    }
}

/// The samples of failed assertions are the first ones of the run, at most
/// so many as are kept.
pub proof fn samples_are_the_first_failures(duration_secs: u64, all: Seq<Recorded>)
    ensures
        after_all(duration_secs, all).check_failures == sampled(seq![], all_failures(all)),
    decreases all.len(),
{
    if all.len() == 0 {
        assert(sampled(seq![], all_failures(all)) =~= seq![]);
    } else {
        samples_are_the_first_failures(duration_secs, all.drop_last());
        let before = all_failures(all.drop_last());
        let more = match all.last() {
            Recorded::Checks { failures, .. } => failures,
            _ => seq![],
        };
        assert(seq![] + before =~= before);
        assert(seq![] + (before + more) =~= before + more);
        assert(sampled(sampled(seq![], before), more) =~= sampled(seq![], before + more));
        assert(sampled(seq![], before + Seq::<CheckFailureView>::empty()) =~= sampled(
            seq![],
            before,
        )) by {
            assert(before + Seq::<CheckFailureView>::empty() =~= before);
        }
    }
}

/// Some recorded latency has as many at or below it as there are up to `last`.
proof fn last_latency_reaches(buckets: Map<u64, u64>, last: int) -> (latency: u64)
    requires
        last <= u64::MAX,
        at_most(buckets, last) > 0,
    ensures
        buckets.contains_key(latency),
        at_most(buckets, latency as int) == at_most(buckets, last),
    decreases last + 1,
{
    if buckets.contains_key(last as u64) {
        last as u64
    } else {
        last_latency_reaches(buckets, last - 1)
    }
}

/// Where every latency counted in the total is in the buckets, each percentile
/// is one of the recorded latencies, and at least that share of them is at or
/// below it.
pub proof fn percentile_is_a_latency(
    buckets: Map<u64, u64>,
    total: u64,
    percent: u64,
    latency: u64,
)
    requires
        total > 0,
        at_most(buckets, u64::MAX as int) >= total,
        percent <= 100,
        is_percentile(buckets, total, percent, latency),
    ensures
        buckets.contains_key(latency),
        at_most(buckets, latency as int) >= share(total, percent),
{
    let k = last_latency_reaches(buckets, u64::MAX as int);
    assert((total as nat) * (percent as nat) <= (total as nat) * 100) by (nonlinear_arith)
        requires
            percent <= 100,
    ;
    assert(reaches(buckets, k, share(total, percent)));
}

/// A higher percentile is no lower latency.
pub proof fn percentiles_ascend(
    buckets: Map<u64, u64>,
    total: u64,
    p: u64,
    q: u64,
    low: u64,
    high: u64,
)
    requires
        total > 0,
        at_most(buckets, u64::MAX as int) >= total,
        p <= q <= 100,
        is_percentile(buckets, total, p, low),
        is_percentile(buckets, total, q, high),
    ensures
        low <= high,
{
    percentile_is_a_latency(buckets, total, p, low);
    percentile_is_a_latency(buckets, total, q, high);
    assert((total as nat) * (p as nat) <= (total as nat) * (q as nat)) by (nonlinear_arith)
        requires
            p <= q,
    ;
    assert(reaches(buckets, high, share(total, p)));
}

/// The percentiles that the result of a run reports ascend, and each is a
/// latency that was recorded.
pub proof fn reported_percentiles_ascend(
    duration_secs: u64,
    all: Seq<Recorded>,
    elapsed: Elapsed,
    r: MetricsResult,
    p: u64,
    q: u64,
)
    requires
        0 < how_many(all, is_timed()),
        all.len() <= u64::MAX,
        sums_up(r, after_all(duration_secs, all), elapsed),
        r.percentiles@.contains_key(p),
        r.percentiles@.contains_key(q),
        p <= q,
    ensures
        r.percentiles@[p] <= r.percentiles@[q],
        how_many(all, has_latency(r.percentiles@[p])) > 0,
{
    let m = after_all(duration_secs, all);
    let low = r.percentiles@[p];
    every_latency_is_counted(duration_secs, all);
    assert(r.percentiles@.dom().contains(p) && r.percentiles@.dom().contains(q));
    percentiles_ascend(m.latency_buckets, m.latency_count, p, q, low, r.percentiles@[q]);
    percentile_is_a_latency(m.latency_buckets, m.latency_count, p, low);
    counts_are_exact(duration_secs, all, 0, low, ConnError::Other);
}

/// Every latency of a run lies between the shortest and the longest.
pub proof fn latencies_lie_between_the_extremes(duration_secs: u64, all: Seq<Recorded>, i: int)
    requires
        0 <= i < all.len(),
    ensures
        latency_of(all[i]) matches Some(us) ==> after_all(duration_secs, all).min_latency_us <= us
            <= after_all(duration_secs, all).max_latency_us,
    decreases all.len(),
{
    if i < all.len() - 1 {
        latencies_lie_between_the_extremes(duration_secs, all.drop_last(), i);
        assert(all.drop_last()[i] == all[i]);
    }
}

/// Without a latency the extremes are as they were at the start.
proof fn extremes_of_nothing(duration_secs: u64, all: Seq<Recorded>)
    requires
        how_many(all, is_timed()) == 0,
    ensures
        after_all(duration_secs, all).min_latency_us == u64::MAX,
        after_all(duration_secs, all).max_latency_us == 0,
    decreases all.len(),
{
    if all.len() > 0 {
        extremes_of_nothing(duration_secs, all.drop_last());
    }
}

/// The shortest and the longest latency of a run are latencies that were
/// recorded.
pub proof fn extremes_are_attained(duration_secs: u64, all: Seq<Recorded>)
    requires
        how_many(all, is_timed()) > 0,
    ensures
        exists|i: int|
            0 <= i < all.len() && latency_of(#[trigger] all[i]) == Some(
                after_all(duration_secs, all).min_latency_us,
            ),
        exists|i: int|
            0 <= i < all.len() && latency_of(#[trigger] all[i]) == Some(
                after_all(duration_secs, all).max_latency_us,
            ),
    decreases all.len(),
{
    let m = after_all(duration_secs, all);
    let rest = all.drop_last();
    let before = after_all(duration_secs, rest);
    let n = all.len() - 1;
    assert(all[n] == all.last());
    if how_many(rest, is_timed()) > 0 {
        extremes_are_attained(duration_secs, rest);
        let i = choose|i: int|
            0 <= i < rest.len() && latency_of(#[trigger] rest[i]) == Some(before.min_latency_us);
        let j = choose|j: int|
            0 <= j < rest.len() && latency_of(#[trigger] rest[j]) == Some(before.max_latency_us);
        assert(all[i] == rest[i] && all[j] == rest[j]);
        if m.min_latency_us == before.min_latency_us {
            assert(latency_of(all[i]) == Some(m.min_latency_us));
        } else {
            assert(latency_of(all[n]) == Some(m.min_latency_us));
        }
        if m.max_latency_us == before.max_latency_us {
            assert(latency_of(all[j]) == Some(m.max_latency_us));
        } else {
            assert(latency_of(all[n]) == Some(m.max_latency_us));
        }
    } else {
        extremes_of_nothing(duration_secs, rest);
        assert(latency_of(all[n]) == Some(m.min_latency_us));
        assert(latency_of(all[n]) == Some(m.max_latency_us));
    }
}

/// Where every latency is 0, so are the extremes and the sum.
pub proof fn latencies_of_0(duration_secs: u64, all: Seq<Recorded>)
    requires
        forall|i: int|
            0 <= i < all.len() ==> (latency_of(#[trigger] all[i]) matches Some(us) ==> us == 0),
    ensures
        after_all(duration_secs, all).sum_latency_us == 0,
        after_all(duration_secs, all).max_latency_us == 0,
        how_many(all, is_timed()) > 0 ==> after_all(duration_secs, all).min_latency_us == 0,
    decreases all.len(),
{
    if all.len() > 0 {
        let rest = all.drop_last();
        assert forall|i: int| 0 <= i < rest.len() implies (latency_of(
            #[trigger] rest[i],
        ) matches Some(us) ==> us == 0) by {
            assert(rest[i] == all[i]);
        }
        latencies_of_0(duration_secs, rest);
        assert(all.last() == all[all.len() - 1]);
    }
}

/// The sum of the latencies is what they add up to, as long as it can be
/// held.
pub proof fn latencies_add_up(duration_secs: u64, all: Seq<Recorded>)
    requires
        all_latencies(all) <= u64::MAX,
    ensures
        after_all(duration_secs, all).sum_latency_us == all_latencies(all),
    decreases all.len(),
{
    if all.len() > 0 {
        latencies_add_up(duration_secs, all.drop_last());
    }
}

/// Whether something was recorded in this second, of so many. The last second
/// takes all later ones.
pub open spec fn falls_in(r: Recorded, t: int, n: int) -> bool {
    second_of(r) matches Some(at) && if t < n - 1 {
        at == t
    } else {
        at >= n - 1
    }
}

/// What counts toward the total in this second.
pub open spec fn is_counted_in(t: int, n: int) -> spec_fn(Recorded) -> bool {
    |r: Recorded| (r is Request || r is Event || r is Sent) && falls_in(r, t, n)
}

/// What succeeds in this second: a request that did, an event or a reply.
pub open spec fn is_good_in(t: int, n: int) -> spec_fn(Recorded) -> bool {
    |r: Recorded|
        falls_in(r, t, n) && ((r matches Recorded::Request { is_success, .. } && is_success)
            || r is Event || r is Reply)
}

/// What fails in this second: a request that did, or a connection.
pub open spec fn is_bad_in(t: int, n: int) -> spec_fn(Recorded) -> bool {
    |r: Recorded|
        falls_in(r, t, n) && ((r matches Recorded::Request { is_success, .. } && !is_success)
            || r is ConnFailure)
}

/// What has a latency in this second: a request or a reply.
pub open spec fn is_timed_in(t: int, n: int) -> spec_fn(Recorded) -> bool {
    |r: Recorded| (r is Request || r is Reply) && falls_in(r, t, n)
}

/// The latencies of this second, added up.
pub open spec fn latencies_in(all: Seq<Recorded>, t: int, n: int) -> nat
    decreases all.len(),
{
    if all.len() == 0 {
        0
    } else {
        latencies_in(all.drop_last(), t, n) + (if falls_in(all.last(), t, n) {
            match all.last() {
                Recorded::Request { latency_us, .. } => latency_us as nat,
                Recorded::Reply { latency_us, .. } => latency_us as nat,
                _ => 0,
            }
        } else {
            0
        })
    }
}

/// The bytes of this second.
pub open spec fn bytes_in(all: Seq<Recorded>, t: int, n: int) -> nat
    decreases all.len(),
{
    if all.len() == 0 {
        0
    } else {
        bytes_in(all.drop_last(), t, n) + (if falls_in(all.last(), t, n) {
            match all.last() {
                Recorded::Request { bytes, .. } => bytes as nat,
                Recorded::Event { bytes, .. } => bytes as nat,
                Recorded::Reply { bytes, .. } => bytes as nat,
                _ => 0,
            }
        } else {
            0
        })
    }
}

/// There is a second for each one of a run and two more, and an hour of them
/// where the duration is unknown. Each holds what was recorded in it and
/// nothing else.
#[verifier::spinoff_prover]
#[verifier::rlimit(40)]
pub proof fn seconds_hold_their_own(duration_secs: u64, all: Seq<Recorded>, t: int)
    requires
        duration_secs + 2 <= usize::MAX,
        all.len() <= u64::MAX,
        0 <= t < after_all(duration_secs, all).seconds.len(),
    ensures
        ({
            let seconds = after_all(duration_secs, all).seconds;
            let n = seconds.len() as int;
            let b = seconds[t];
            &&& n == if duration_secs > 0 {
                duration_secs + 2
            } else {
                3600
            }
            &&& b.requests == how_many(all, is_counted_in(t, n))
            &&& b.success == how_many(all, is_good_in(t, n))
            &&& b.failed == how_many(all, is_bad_in(t, n))
            &&& b.latency_count == how_many(all, is_timed_in(t, n))
            &&& bytes_in(all, t, n) <= u64::MAX ==> b.bytes == bytes_in(all, t, n)
            &&& latencies_in(all, t, n) <= u64::MAX ==> b.sum_latency_us == latencies_in(all, t, n)
        }),
    decreases all.len(),
{
    if all.len() > 0 {
        let rest = all.drop_last();
        let before = after_all(duration_secs, rest);
        let n = before.seconds.len() as int;
        let r = all.last();
        totals_count_the_recordings(duration_secs, rest);
        totals_count_the_recordings(duration_secs, all);
        seconds_hold_their_own(duration_secs, rest, t);
        how_many_is_at_most_all(rest, is_counted_in(t, n));
        how_many_is_at_most_all(rest, is_good_in(t, n));
        how_many_is_at_most_all(rest, is_bad_in(t, n));
        how_many_is_at_most_all(rest, is_timed_in(t, n));
        if let Some(at) = second_of(r) {
            assert(falls_in(r, t, n) == (before.second_index(at) == t));
            match r {
                Recorded::Request { .. } => {},
                Recorded::Event { .. } => {},
                Recorded::Sent { .. } => {},
                Recorded::Reply { .. } => {},
                Recorded::ConnFailure { .. } => {},
                Recorded::Checks { .. } => {},
            }
        }
    }
}

/// What took at most so many whole milliseconds.
pub open spec fn is_at_most(ms: int) -> spec_fn(Recorded) -> bool {
    |r: Recorded|
        match r {
            Recorded::Request { latency_us, .. } => latency_us / 1000 <= ms,
            Recorded::Reply { latency_us, .. } => latency_us / 1000 <= ms,
            _ => false,
        }
}

/// The counts of the latencies up to one add up to the number of recordings
/// that took no longer.
pub proof fn latencies_up_to(duration_secs: u64, all: Seq<Recorded>, ms: int)
    requires
        all.len() <= u64::MAX,
        0 <= ms <= u64::MAX,
    ensures
        at_most(after_all(duration_secs, all).latency_buckets, ms) == how_many(
            all,
            is_at_most(ms),
        ),
    decreases all.len(),
{
    let m = after_all(duration_secs, all);
    if all.len() == 0 {
        sum_to_of_nothing(bucket_count(m.latency_buckets), ms);
    } else {
        let rest = all.drop_last();
        let before = after_all(duration_secs, rest);
        latencies_up_to(duration_secs, rest, ms);
        every_latency_is_counted(duration_secs, rest);
        how_many_is_at_most_all(rest, is_timed());
        if let Some(us) = latency_of(all.last()) {
            let at = (us / 1000) as int;
            let a = bucket_count(before.latency_buckets);
            let b = bucket_count(m.latency_buckets);
            sum_to_holds_each(a, at, u64::MAX as int);
            assert(b(at) == a(at) + 1);
            if at <= ms {
                sum_to_of_one_more(a, b, at, ms);
            } else {
                sum_to_is_same(a, b, ms);
            }
        }
    }
}

/// A percentile of a run, in whole milliseconds, is the least latency that was
/// recorded such that the share of all latencies that the percentage stands
/// for, rounded down, is at or below it.
pub proof fn percentile_is_least(
    duration_secs: u64,
    all: Seq<Recorded>,
    elapsed: Elapsed,
    r: MetricsResult,
    p: u64,
    ms: u64,
)
    requires
        all.len() <= u64::MAX,
        0 < how_many(all, is_timed()),
        sums_up(r, after_all(duration_secs, all), elapsed),
        p == 50 || p == 75 || p == 90 || p == 95 || p == 99,
    ensures
        r.percentiles@.contains_key(p),
        how_many(all, has_latency(r.percentiles@[p])) > 0,
        100 * how_many(all, is_at_most(r.percentiles@[p] as int)) > how_many(all, is_timed()) * p
            - 100,
        how_many(all, has_latency(ms)) > 0 && ms < r.percentiles@[p] ==> 100 * how_many(
            all,
            is_at_most(ms as int),
        ) + 100 <= how_many(all, is_timed()) * p,
{
    let m = after_all(duration_secs, all);
    let n = m.latency_count;
    assert(r.percentiles@.dom().contains(p));
    let v = r.percentiles@[p];
    every_latency_is_counted(duration_secs, all);
    percentile_is_a_latency(m.latency_buckets, n, p, v);
    latencies_up_to(duration_secs, all, v as int);
    latencies_up_to(duration_secs, all, ms as int);
    counts_are_exact(duration_secs, all, 0, v, ConnError::Other);
    counts_are_exact(duration_secs, all, 0, ms, ConnError::Other);
    let target = share(n, p);
    let product = (n as nat) * (p as nat);
    assert(target == product / 100);
    assert(product == how_many(all, is_timed()) * p);
    assert(reaches(m.latency_buckets, v, target));
    if m.latency_buckets.contains_key(ms) && ms < v {
        assert(!reaches(m.latency_buckets, ms, target));
        assert(how_many(all, is_at_most(ms as int)) + 1 <= target);
    }
}

/// Of the failed assertions of a run the first hundred are kept, in their
/// order, and all of them where there are no more.
pub proof fn a_hundred_failures_are_kept(duration_secs: u64, all: Seq<Recorded>)
    ensures
        ({
            let kept = after_all(duration_secs, all).check_failures;
            let failed = all_failures(all);
            &&& kept.len() == if failed.len() < 100 {
                failed.len()
            } else {
                100
            }
            &&& forall|i: int| 0 <= i < kept.len() ==> #[trigger] kept[i] == failed[i]
        }),
{
    samples_are_the_first_failures(duration_secs, all);
    assert(seq![] + all_failures(all) =~= all_failures(all));
}

}
