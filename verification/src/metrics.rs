//! In-process metrics: counters, gauges and histograms, and their Prometheus text.
//!
//! A registry is one value. Where several tasks share it, it stands behind a lock.

use vstd::prelude::*;
use vstd::string::*;

use crate::strings;
use crate::strings::push_decimal;
use crate::textmap::TextMap;

verus! {

/// How many buckets a latency histogram has, the last without an upper bound.
pub const BUCKETS: usize = 18;

/// How many buckets a size histogram has, the last without an upper bound.
pub const VALUE_BUCKETS: usize = 12;

/// The upper bound of a bucket of a latency histogram, in microseconds: 100 and then
/// doubling.
pub open spec fn latency_bound(i: int) -> nat
    decreases i,
{
    if i <= 0 {
        100
    } else {
        2 * latency_bound(i - 1)
    }
}

/// The upper bound of a bucket of a size histogram: 1 and then doubling.
pub open spec fn size_bound(i: int) -> nat
    decreases i,
{
    if i <= 0 {
        1
    } else {
        2 * size_bound(i - 1)
    }
}

/// Adds one to a counter. Counters wrap around.
pub fn incr(counter: &mut u64)
    ensures
        *final(counter) == old(counter).wrapping_add(1),
{
    *counter = counter.wrapping_add(1);
}

/// Adds to a counter. Counters wrap around.
pub fn add(counter: &mut u64, amount: u64)
    ensures
        *final(counter) == old(counter).wrapping_add(amount),
{
    *counter = counter.wrapping_add(amount);
}

/// Sets a gauge.
pub fn set(gauge: &mut u64, value: u64)
    ensures
        *final(gauge) == value,
{
    *gauge = value;
}

/// What the indexing queue holds at one time.
#[derive(Clone, Copy, Debug, PartialEq, Eq, Structural)]
pub struct QueueStateSample {
    pub jobs: u64,
    pub available_jobs: u64,
    pub claimed_jobs: u64,
    pub oldest_job_age_seconds: u64,
}

/// How far indexing lags behind writes in one namespace.
#[derive(Clone, Copy, Debug, PartialEq, Eq, Structural)]
pub struct IndexLagSample {
    pub unindexed_bytes: u64,
    pub unindexed_batches: u64,
}

/// What one maintenance pass did.
#[derive(Clone, Copy, Debug, PartialEq, Eq, Structural)]
pub struct MaintenancePassSample {
    pub compactions: u64,
    pub vector_maintenance: u64,
    pub gc_candidates: u64,
    pub gc_deletions: u64,
    pub errors: u64,
}

/// A latency histogram: how many observations fell in each bucket, and their sum in
/// microseconds.
#[derive(Clone, Copy, Debug)]
pub struct Histogram {
    pub buckets: [u64; 18],
    pub sum_micros: u64,
}

/// A latency histogram at one time.
#[derive(Clone, Copy, Debug, PartialEq, Eq)]
pub struct HistogramSnapshot {
    pub buckets: [u64; 18],
    pub sum_micros: u64,
}

/// A size histogram: how many observations fell in each bucket, and their sum.
#[derive(Clone, Copy, Debug)]
pub struct ValueHistogram {
    pub buckets: [u64; 12],
    pub sum: u64,
}

/// A size histogram at one time.
#[derive(Clone, Copy, Debug, PartialEq, Eq)]
pub struct ValueHistogramSnapshot {
    pub buckets: [u64; 12],
    pub sum: u64,
}

/// The bucket of an observation: the first whose bound it does not exceed, from `i`
/// on.
pub open spec fn latency_slot_from(micros: nat, i: int) -> int
    decreases 17 - i,
{
    if i >= 17 || micros <= latency_bound(i) {
        i
    } else {
        latency_slot_from(micros, i + 1)
    }
}

/// The bucket of an observation: the first whose bound it does not exceed, from `i`
/// on.
pub open spec fn size_slot_from(value: nat, i: int) -> int
    decreases 11 - i,
{
    if i >= 11 || value <= size_bound(i) {
        i
    } else {
        size_slot_from(value, i + 1)
    }
}

/// A duration in microseconds, up to what a counter holds.
pub open spec fn micros_of(elapsed_micros: u128) -> u64 {
    if elapsed_micros > u64::MAX {
        u64::MAX
    } else {
        elapsed_micros as u64
    }
}

impl Default for Histogram {
    fn default() -> (h: Histogram)
        ensures
            forall|i: int| 0 <= i < 18 ==> h.buckets@[i] == 0,
            h.sum_micros == 0,
    {
        Histogram { buckets: [0; 18], sum_micros: 0 }
    }
}

/// A histogram after one more duration, given in microseconds.
pub open spec fn is_observed(before: Histogram, elapsed_micros: u128, after: Histogram) -> bool {
    let micros = micros_of(elapsed_micros);
    let slot = latency_slot_from(micros as nat, 0);
    &&& 0 <= slot < 18
    &&& after.buckets@ == before.buckets@.update(slot, before.buckets@[slot].wrapping_add(1))
    &&& after.sum_micros == before.sum_micros.wrapping_add(micros)
}

impl Histogram {
    /// Records a duration, given in microseconds.
    pub fn observe(&mut self, elapsed_micros: u128)
        ensures
            is_observed(*old(self), elapsed_micros, *final(self)),
    {
        let micros: u64 = if elapsed_micros > 0xffff_ffff_ffff_ffff {
            0xffff_ffff_ffff_ffff
        } else {
            elapsed_micros as u64
        };
        let mut slot: usize = 0;
        let mut bound: u64 = 100;
        while slot < 17 && micros > bound
            invariant
                slot <= 17,
                bound == latency_bound(slot as int),
                bound <= 100 * 131072,
                slot == 0 ==> bound == 100,
                bound == 100 * pow_two(slot as nat),
                latency_slot_from(micros as nat, 0) == latency_slot_from(
                    micros as nat,
                    slot as int,
                ),
            decreases 17 - slot,
        {
            proof {
                lemma_pow_two(slot as nat + 1);
            }
            bound = 2 * bound;
            slot = slot + 1;
        }
        let count: u64 = self.buckets[slot].wrapping_add(1);
        self.buckets[slot] = count;
        self.sum_micros = self.sum_micros.wrapping_add(micros);
    }

    /// The histogram at this time.
    pub fn snapshot(&self) -> (s: HistogramSnapshot)
        ensures
            s.buckets@ == self.buckets@,
            s.sum_micros == self.sum_micros,
    {
        HistogramSnapshot { buckets: self.buckets, sum_micros: self.sum_micros }
    }
}

spec fn pow_two(n: nat) -> nat
    decreases n,
{
    if n == 0 {
        1
    } else {
        2 * pow_two((n - 1) as nat)
    }
}

proof fn lemma_pow_two(n: nat)
    requires
        n <= 17,
    ensures
        pow_two(n) <= 131072,
{
    reveal_with_fuel(pow_two, 18);
}

impl Default for ValueHistogram {
    fn default() -> (h: ValueHistogram)
        ensures
            forall|i: int| 0 <= i < 12 ==> h.buckets@[i] == 0,
            h.sum == 0,
    {
        ValueHistogram { buckets: [0; 12], sum: 0 }
    }
}

impl ValueHistogram {
    /// Records a size.
    pub fn observe(&mut self, value: u64)
        ensures
            ({
                let slot = size_slot_from(value as nat, 0);
                &&& 0 <= slot < 12
                &&& final(self).buckets@ == old(self).buckets@.update(
                    slot,
                    old(self).buckets@[slot].wrapping_add(1),
                )
                &&& final(self).sum == old(self).sum.wrapping_add(value)
            }),
    {
        let mut slot: usize = 0;
        let mut bound: u64 = 1;
        while slot < 11 && value > bound
            invariant
                slot <= 11,
                bound == size_bound(slot as int),
                bound == pow_two(slot as nat),
                size_slot_from(value as nat, 0) == size_slot_from(value as nat, slot as int),
            decreases 11 - slot,
        {
            proof {
                lemma_pow_two(slot as nat + 1);
            }
            bound = 2 * bound;
            slot = slot + 1;
        }
        let count: u64 = self.buckets[slot].wrapping_add(1);
        self.buckets[slot] = count;
        self.sum = self.sum.wrapping_add(value);
    }

    /// The histogram at this time.
    pub fn snapshot(&self) -> (s: ValueHistogramSnapshot)
        ensures
            s.buckets@ == self.buckets@,
            s.sum == self.sum,
    {
        ValueHistogramSnapshot { buckets: self.buckets, sum: self.sum }
    }
}

/// The sum of counts.
pub open spec fn total(counts: Seq<u64>) -> nat
    decreases counts.len(),
{
    if counts.len() == 0 {
        0
    } else {
        total(counts.drop_last()) + counts.last() as nat
    }
}

proof fn lemma_total_grows(counts: Seq<u64>, n: int)
    requires
        0 <= n <= counts.len(),
    ensures
        total(counts.take(n)) <= total(counts),
    decreases counts.len() - n,
{
    if n == counts.len() {
        assert(counts.take(n) =~= counts);
    } else {
        assert(counts.take(n + 1).drop_last() =~= counts.take(n));
        lemma_total_grows(counts, n + 1);
    }
}

fn sum_of(counts: &[u64]) -> (n: u64)
    requires
        total(counts@) <= u64::MAX,
    ensures
        n == total(counts@),
{
    let mut n: u64 = 0;
    let mut i: usize = 0;
    assert(counts@.take(0) =~= Seq::empty());
    while i < counts.len()
        invariant
            i <= counts@.len(),
            total(counts@) <= u64::MAX,
            n == total(counts@.take(i as int)),
        decreases counts@.len() - i,
    {
        proof {
            assert(counts@.take(i + 1).drop_last() =~= counts@.take(i as int));
            lemma_total_grows(counts@, i + 1);
        }
        n = n + counts[i];
        i = i + 1;
    }
    assert(counts@.take(i as int) =~= counts@);
    n
}

impl HistogramSnapshot {
    /// How many observations there are.
    pub fn count(&self) -> (n: u64)
        requires
            total(self.buckets@) <= u64::MAX,
        ensures
            n == total(self.buckets@),
    {
        sum_of(self.buckets.as_slice())
    }
}

impl ValueHistogramSnapshot {
    /// How many observations there are.
    pub fn count(&self) -> (n: u64)
        requires
            total(self.buckets@) <= u64::MAX,
        ensures
            n == total(self.buckets@),
    {
        sum_of(self.buckets.as_slice())
    }
}

proof fn lemma_total_update(counts: Seq<u64>, k: int, v: u64)
    requires
        0 <= k < counts.len(),
    ensures
        total(counts.update(k, v)) == total(counts) - counts[k] + v,
    decreases counts.len(),
{
    let now = counts.update(k, v);
    if k == counts.len() - 1 {
        assert(now.drop_last() =~= counts.drop_last());
    } else {
        lemma_total_update(counts.drop_last(), k, v);
        assert(now.drop_last() =~= counts.drop_last().update(k, v));
    }
}

/// Every observation is counted once: in one bucket, whatever it is, as long as that
/// bucket's counter does not wrap around.
pub proof fn law_observation_is_counted_once(before: Seq<u64>, slot: int)
    requires
        0 <= slot < before.len(),
        before[slot] < u64::MAX,
    ensures
        total(before.update(slot, before[slot].wrapping_add(1))) == total(before) + 1,
{
    lemma_total_update(before, slot, before[slot].wrapping_add(1));
}

/// Traffic to the object store, below the cache.
#[derive(Clone, Copy, Debug)]
pub struct ObjectStoreMetrics {
    pub gets: u64,
    pub get_ranges: u64,
    pub puts: u64,
    pub puts_if_absent: u64,
    pub compare_and_sets: u64,
    pub cas_mismatches: u64,
    pub lists: u64,
    pub deletes: u64,
    pub get_bytes: u64,
    pub range_bytes: u64,
    pub put_bytes: u64,
    pub request_latency: Histogram,
}

/// Traffic to the object store, below the cache. As it is at one time.
#[derive(Clone, Copy, Debug, PartialEq, Eq)]
pub struct ObjectStoreSnapshot {
    pub gets: u64,
    pub get_ranges: u64,
    pub puts: u64,
    pub puts_if_absent: u64,
    pub compare_and_sets: u64,
    pub cas_mismatches: u64,
    pub lists: u64,
    pub deletes: u64,
    pub get_bytes: u64,
    pub range_bytes: u64,
    pub put_bytes: u64,
    pub request_latency: HistogramSnapshot,
}

/// The values of the metrics.
pub open spec fn object_store_reads(s: ObjectStoreSnapshot, m: ObjectStoreMetrics) -> bool {
    &&& s.gets == m.gets
    &&& s.get_ranges == m.get_ranges
    &&& s.puts == m.puts
    &&& s.puts_if_absent == m.puts_if_absent
    &&& s.compare_and_sets == m.compare_and_sets
    &&& s.cas_mismatches == m.cas_mismatches
    &&& s.lists == m.lists
    &&& s.deletes == m.deletes
    &&& s.get_bytes == m.get_bytes
    &&& s.range_bytes == m.range_bytes
    &&& s.put_bytes == m.put_bytes
    &&& s.request_latency.buckets@ == m.request_latency.buckets@
    &&& s.request_latency.sum_micros == m.request_latency.sum_micros
}

impl Default for ObjectStoreMetrics {
    fn default() -> (m: ObjectStoreMetrics)
        ensures
            m.gets == 0,
            m.get_ranges == 0,
            m.puts == 0,
            m.puts_if_absent == 0,
            m.compare_and_sets == 0,
            m.cas_mismatches == 0,
            m.lists == 0,
            m.deletes == 0,
            m.get_bytes == 0,
            m.range_bytes == 0,
            m.put_bytes == 0,
            histogram_blank(m.request_latency),
    {
        ObjectStoreMetrics {
            gets: 0,
            get_ranges: 0,
            puts: 0,
            puts_if_absent: 0,
            compare_and_sets: 0,
            cas_mismatches: 0,
            lists: 0,
            deletes: 0,
            get_bytes: 0,
            range_bytes: 0,
            put_bytes: 0,
            request_latency: Histogram::default(),
        }
    }
}

impl ObjectStoreMetrics {
    /// The metrics at this time.
    pub fn snapshot(&self) -> (s: ObjectStoreSnapshot)
        ensures
            object_store_reads(s, *self),
    {
        ObjectStoreSnapshot {
            gets: self.gets,
            get_ranges: self.get_ranges,
            puts: self.puts,
            puts_if_absent: self.puts_if_absent,
            compare_and_sets: self.compare_and_sets,
            cas_mismatches: self.cas_mismatches,
            lists: self.lists,
            deletes: self.deletes,
            get_bytes: self.get_bytes,
            range_bytes: self.range_bytes,
            put_bytes: self.put_bytes,
            request_latency: self.request_latency.snapshot(),
        }
    }
}

/// What the cache holds and has done.
#[derive(Clone, Copy, Debug, PartialEq, Eq, Structural)]
pub struct CacheMetrics {
    pub hits: u64,
    pub misses: u64,
    pub bypasses: u64,
    pub evictions: u64,
    pub admission_rejections: u64,
    pub capacity_bytes: u64,
    pub resident_bytes: u64,
    pub entries: u64,
}

/// What the cache holds and has done. As it is at one time.
#[derive(Clone, Copy, Debug, PartialEq, Eq, Structural)]
pub struct CacheSnapshot {
    pub hits: u64,
    pub misses: u64,
    pub bypasses: u64,
    pub evictions: u64,
    pub admission_rejections: u64,
    pub capacity_bytes: u64,
    pub resident_bytes: u64,
    pub entries: u64,
}

/// The values of the metrics.
pub open spec fn cache_reads(s: CacheSnapshot, m: CacheMetrics) -> bool {
    &&& s.hits == m.hits
    &&& s.misses == m.misses
    &&& s.bypasses == m.bypasses
    &&& s.evictions == m.evictions
    &&& s.admission_rejections == m.admission_rejections
    &&& s.capacity_bytes == m.capacity_bytes
    &&& s.resident_bytes == m.resident_bytes
    &&& s.entries == m.entries
}

impl Default for CacheMetrics {
    fn default() -> (m: CacheMetrics)
        ensures
            m.hits == 0,
            m.misses == 0,
            m.bypasses == 0,
            m.evictions == 0,
            m.admission_rejections == 0,
            m.capacity_bytes == 0,
            m.resident_bytes == 0,
            m.entries == 0,
    {
        CacheMetrics {
            hits: 0,
            misses: 0,
            bypasses: 0,
            evictions: 0,
            admission_rejections: 0,
            capacity_bytes: 0,
            resident_bytes: 0,
            entries: 0,
        }
    }
}

impl CacheMetrics {
    /// The metrics at this time.
    pub fn snapshot(&self) -> (s: CacheSnapshot)
        ensures
            cache_reads(s, *self),
    {
        CacheSnapshot {
            hits: self.hits,
            misses: self.misses,
            bypasses: self.bypasses,
            evictions: self.evictions,
            admission_rejections: self.admission_rejections,
            capacity_bytes: self.capacity_bytes,
            resident_bytes: self.resident_bytes,
            entries: self.entries,
        }
    }
}

/// Work done by vector and text searches.
#[derive(Clone, Copy, Debug, PartialEq, Eq, Structural)]
pub struct SearchMetrics {
    pub ann_queries: u64,
    pub ann_candidates: u64,
    pub ann_estimated: u64,
    pub ann_reranked: u64,
    pub ann_pruned: u64,
    pub text_queries: u64,
    pub text_blocks_read: u64,
    pub text_blocks_skipped: u64,
}

/// Work done by vector and text searches. As it is at one time.
#[derive(Clone, Copy, Debug, PartialEq, Eq, Structural)]
pub struct SearchSnapshot {
    pub ann_queries: u64,
    pub ann_candidates: u64,
    pub ann_estimated: u64,
    pub ann_reranked: u64,
    pub ann_pruned: u64,
    pub text_queries: u64,
    pub text_blocks_read: u64,
    pub text_blocks_skipped: u64,
}

/// The values of the metrics.
pub open spec fn search_reads(s: SearchSnapshot, m: SearchMetrics) -> bool {
    &&& s.ann_queries == m.ann_queries
    &&& s.ann_candidates == m.ann_candidates
    &&& s.ann_estimated == m.ann_estimated
    &&& s.ann_reranked == m.ann_reranked
    &&& s.ann_pruned == m.ann_pruned
    &&& s.text_queries == m.text_queries
    &&& s.text_blocks_read == m.text_blocks_read
    &&& s.text_blocks_skipped == m.text_blocks_skipped
}

impl Default for SearchMetrics {
    fn default() -> (m: SearchMetrics)
        ensures
            m.ann_queries == 0,
            m.ann_candidates == 0,
            m.ann_estimated == 0,
            m.ann_reranked == 0,
            m.ann_pruned == 0,
            m.text_queries == 0,
            m.text_blocks_read == 0,
            m.text_blocks_skipped == 0,
    {
        SearchMetrics {
            ann_queries: 0,
            ann_candidates: 0,
            ann_estimated: 0,
            ann_reranked: 0,
            ann_pruned: 0,
            text_queries: 0,
            text_blocks_read: 0,
            text_blocks_skipped: 0,
        }
    }
}

impl SearchMetrics {
    /// The metrics at this time.
    pub fn snapshot(&self) -> (s: SearchSnapshot)
        ensures
            search_reads(s, *self),
    {
        SearchSnapshot {
            ann_queries: self.ann_queries,
            ann_candidates: self.ann_candidates,
            ann_estimated: self.ann_estimated,
            ann_reranked: self.ann_reranked,
            ann_pruned: self.ann_pruned,
            text_queries: self.text_queries,
            text_blocks_read: self.text_blocks_read,
            text_blocks_skipped: self.text_blocks_skipped,
        }
    }
}

/// The indexing queue.
#[derive(Clone, Copy, Debug)]
pub struct QueueMetrics {
    pub cas_attempts: u64,
    pub cas_successes: u64,
    pub cas_retries: u64,
    pub broker_batches: u64,
    pub broker_batch_requests: u64,
    pub jobs: u64,
    pub available_jobs: u64,
    pub claimed_jobs: u64,
    pub oldest_job_age_seconds: u64,
    pub broker_batch_size: ValueHistogram,
    pub claim_wait: Histogram,
}

/// The indexing queue. As it is at one time.
#[derive(Clone, Copy, Debug, PartialEq, Eq)]
pub struct QueueSnapshot {
    pub cas_attempts: u64,
    pub cas_successes: u64,
    pub cas_retries: u64,
    pub broker_batches: u64,
    pub broker_batch_requests: u64,
    pub jobs: u64,
    pub available_jobs: u64,
    pub claimed_jobs: u64,
    pub oldest_job_age_seconds: u64,
    pub broker_batch_size: ValueHistogramSnapshot,
    pub claim_wait: HistogramSnapshot,
}

/// The values of the metrics.
pub open spec fn queue_reads(s: QueueSnapshot, m: QueueMetrics) -> bool {
    &&& s.cas_attempts == m.cas_attempts
    &&& s.cas_successes == m.cas_successes
    &&& s.cas_retries == m.cas_retries
    &&& s.broker_batches == m.broker_batches
    &&& s.broker_batch_requests == m.broker_batch_requests
    &&& s.jobs == m.jobs
    &&& s.available_jobs == m.available_jobs
    &&& s.claimed_jobs == m.claimed_jobs
    &&& s.oldest_job_age_seconds == m.oldest_job_age_seconds
    &&& s.broker_batch_size.buckets@ == m.broker_batch_size.buckets@
    &&& s.broker_batch_size.sum == m.broker_batch_size.sum
    &&& s.claim_wait.buckets@ == m.claim_wait.buckets@
    &&& s.claim_wait.sum_micros == m.claim_wait.sum_micros
}

impl Default for QueueMetrics {
    fn default() -> (m: QueueMetrics)
        ensures
            m.cas_attempts == 0,
            m.cas_successes == 0,
            m.cas_retries == 0,
            m.broker_batches == 0,
            m.broker_batch_requests == 0,
            m.jobs == 0,
            m.available_jobs == 0,
            m.claimed_jobs == 0,
            m.oldest_job_age_seconds == 0,
            sizes_blank(m.broker_batch_size),
            histogram_blank(m.claim_wait),
    {
        QueueMetrics {
            cas_attempts: 0,
            cas_successes: 0,
            cas_retries: 0,
            broker_batches: 0,
            broker_batch_requests: 0,
            jobs: 0,
            available_jobs: 0,
            claimed_jobs: 0,
            oldest_job_age_seconds: 0,
            broker_batch_size: ValueHistogram::default(),
            claim_wait: Histogram::default(),
        }
    }
}

impl QueueMetrics {
    /// The metrics at this time.
    pub fn snapshot(&self) -> (s: QueueSnapshot)
        ensures
            queue_reads(s, *self),
    {
        QueueSnapshot {
            cas_attempts: self.cas_attempts,
            cas_successes: self.cas_successes,
            cas_retries: self.cas_retries,
            broker_batches: self.broker_batches,
            broker_batch_requests: self.broker_batch_requests,
            jobs: self.jobs,
            available_jobs: self.available_jobs,
            claimed_jobs: self.claimed_jobs,
            oldest_job_age_seconds: self.oldest_job_age_seconds,
            broker_batch_size: self.broker_batch_size.snapshot(),
            claim_wait: self.claim_wait.snapshot(),
        }
    }
}

/// What maintenance passes did.
#[derive(Clone, Copy, Debug, PartialEq, Eq, Structural)]
pub struct MaintenanceMetrics {
    pub passes: u64,
    pub skipped_leased_passes: u64,
    pub compactions: u64,
    pub vector_maintenance: u64,
    pub gc_candidates: u64,
    pub gc_deletions: u64,
    pub errors: u64,
}

/// What maintenance passes did. As it is at one time.
#[derive(Clone, Copy, Debug, PartialEq, Eq, Structural)]
pub struct MaintenanceSnapshot {
    pub passes: u64,
    pub skipped_leased_passes: u64,
    pub compactions: u64,
    pub vector_maintenance: u64,
    pub gc_candidates: u64,
    pub gc_deletions: u64,
    pub errors: u64,
}

/// The values of the metrics.
pub open spec fn maintenance_reads(s: MaintenanceSnapshot, m: MaintenanceMetrics) -> bool {
    &&& s.passes == m.passes
    &&& s.skipped_leased_passes == m.skipped_leased_passes
    &&& s.compactions == m.compactions
    &&& s.vector_maintenance == m.vector_maintenance
    &&& s.gc_candidates == m.gc_candidates
    &&& s.gc_deletions == m.gc_deletions
    &&& s.errors == m.errors
}

impl Default for MaintenanceMetrics {
    fn default() -> (m: MaintenanceMetrics)
        ensures
            m.passes == 0,
            m.skipped_leased_passes == 0,
            m.compactions == 0,
            m.vector_maintenance == 0,
            m.gc_candidates == 0,
            m.gc_deletions == 0,
            m.errors == 0,
    {
        MaintenanceMetrics {
            passes: 0,
            skipped_leased_passes: 0,
            compactions: 0,
            vector_maintenance: 0,
            gc_candidates: 0,
            gc_deletions: 0,
            errors: 0,
        }
    }
}

impl MaintenanceMetrics {
    /// The metrics at this time.
    pub fn snapshot(&self) -> (s: MaintenanceSnapshot)
        ensures
            maintenance_reads(s, *self),
    {
        MaintenanceSnapshot {
            passes: self.passes,
            skipped_leased_passes: self.skipped_leased_passes,
            compactions: self.compactions,
            vector_maintenance: self.vector_maintenance,
            gc_candidates: self.gc_candidates,
            gc_deletions: self.gc_deletions,
            errors: self.errors,
        }
    }
}

/// What became of indexing jobs.
#[derive(Clone, Copy, Debug, PartialEq, Eq, Structural)]
pub struct WorkerMetrics {
    pub claims: u64,
    pub flushes: u64,
    pub failures: u64,
    pub stale_claim_rejections: u64,
}

/// What became of indexing jobs. As it is at one time.
#[derive(Clone, Copy, Debug, PartialEq, Eq, Structural)]
pub struct WorkerSnapshot {
    pub claims: u64,
    pub flushes: u64,
    pub failures: u64,
    pub stale_claim_rejections: u64,
}

/// The values of the metrics.
pub open spec fn worker_reads(s: WorkerSnapshot, m: WorkerMetrics) -> bool {
    &&& s.claims == m.claims
    &&& s.flushes == m.flushes
    &&& s.failures == m.failures
    &&& s.stale_claim_rejections == m.stale_claim_rejections
}

impl Default for WorkerMetrics {
    fn default() -> (m: WorkerMetrics)
        ensures
            m.claims == 0,
            m.flushes == 0,
            m.failures == 0,
            m.stale_claim_rejections == 0,
    {
        WorkerMetrics {
            claims: 0,
            flushes: 0,
            failures: 0,
            stale_claim_rejections: 0,
        }
    }
}

impl WorkerMetrics {
    /// The metrics at this time.
    pub fn snapshot(&self) -> (s: WorkerSnapshot)
        ensures
            worker_reads(s, *self),
    {
        WorkerSnapshot {
            claims: self.claims,
            flushes: self.flushes,
            failures: self.failures,
            stale_claim_rejections: self.stale_claim_rejections,
        }
    }
}

/// How long the phases of writes and queries take.
#[derive(Clone, Copy, Debug)]
pub struct LatencyMetrics {
    pub write_total: Histogram,
    pub write_plan: Histogram,
    pub write_commit: Histogram,
    pub write_notify: Histogram,
    pub query_total: Histogram,
    pub query_plan: Histogram,
    pub query_candidates: Histogram,
    pub query_overlay: Histogram,
    pub query_rank: Histogram,
    pub query_materialize: Histogram,
}

/// How long the phases of writes and queries take. As it is at one time.
#[derive(Clone, Copy, Debug, PartialEq, Eq)]
pub struct LatencySnapshot {
    pub write_total: HistogramSnapshot,
    pub write_plan: HistogramSnapshot,
    pub write_commit: HistogramSnapshot,
    pub write_notify: HistogramSnapshot,
    pub query_total: HistogramSnapshot,
    pub query_plan: HistogramSnapshot,
    pub query_candidates: HistogramSnapshot,
    pub query_overlay: HistogramSnapshot,
    pub query_rank: HistogramSnapshot,
    pub query_materialize: HistogramSnapshot,
}

/// The values of the metrics.
pub open spec fn latency_reads(s: LatencySnapshot, m: LatencyMetrics) -> bool {
    &&& s.write_total.buckets@ == m.write_total.buckets@
    &&& s.write_total.sum_micros == m.write_total.sum_micros
    &&& s.write_plan.buckets@ == m.write_plan.buckets@
    &&& s.write_plan.sum_micros == m.write_plan.sum_micros
    &&& s.write_commit.buckets@ == m.write_commit.buckets@
    &&& s.write_commit.sum_micros == m.write_commit.sum_micros
    &&& s.write_notify.buckets@ == m.write_notify.buckets@
    &&& s.write_notify.sum_micros == m.write_notify.sum_micros
    &&& s.query_total.buckets@ == m.query_total.buckets@
    &&& s.query_total.sum_micros == m.query_total.sum_micros
    &&& s.query_plan.buckets@ == m.query_plan.buckets@
    &&& s.query_plan.sum_micros == m.query_plan.sum_micros
    &&& s.query_candidates.buckets@ == m.query_candidates.buckets@
    &&& s.query_candidates.sum_micros == m.query_candidates.sum_micros
    &&& s.query_overlay.buckets@ == m.query_overlay.buckets@
    &&& s.query_overlay.sum_micros == m.query_overlay.sum_micros
    &&& s.query_rank.buckets@ == m.query_rank.buckets@
    &&& s.query_rank.sum_micros == m.query_rank.sum_micros
    &&& s.query_materialize.buckets@ == m.query_materialize.buckets@
    &&& s.query_materialize.sum_micros == m.query_materialize.sum_micros
}

impl Default for LatencyMetrics {
    fn default() -> (m: LatencyMetrics)
        ensures
            histogram_blank(m.write_total),
            histogram_blank(m.write_plan),
            histogram_blank(m.write_commit),
            histogram_blank(m.write_notify),
            histogram_blank(m.query_total),
            histogram_blank(m.query_plan),
            histogram_blank(m.query_candidates),
            histogram_blank(m.query_overlay),
            histogram_blank(m.query_rank),
            histogram_blank(m.query_materialize),
    {
        LatencyMetrics {
            write_total: Histogram::default(),
            write_plan: Histogram::default(),
            write_commit: Histogram::default(),
            write_notify: Histogram::default(),
            query_total: Histogram::default(),
            query_plan: Histogram::default(),
            query_candidates: Histogram::default(),
            query_overlay: Histogram::default(),
            query_rank: Histogram::default(),
            query_materialize: Histogram::default(),
        }
    }
}

impl LatencyMetrics {
    /// The metrics at this time.
    pub fn snapshot(&self) -> (s: LatencySnapshot)
        ensures
            latency_reads(s, *self),
    {
        LatencySnapshot {
            write_total: self.write_total.snapshot(),
            write_plan: self.write_plan.snapshot(),
            write_commit: self.write_commit.snapshot(),
            write_notify: self.write_notify.snapshot(),
            query_total: self.query_total.snapshot(),
            query_plan: self.query_plan.snapshot(),
            query_candidates: self.query_candidates.snapshot(),
            query_overlay: self.query_overlay.snapshot(),
            query_rank: self.query_rank.snapshot(),
            query_materialize: self.query_materialize.snapshot(),
        }
    }
}

/// A histogram without observations.
pub open spec fn histogram_blank(h: Histogram) -> bool {
    h.sum_micros == 0 && forall|i: int| 0 <= i < 18 ==> #[trigger] h.buckets@[i] == 0
}

/// A size histogram without observations.
pub open spec fn sizes_blank(h: ValueHistogram) -> bool {
    h.sum == 0 && forall|i: int| 0 <= i < 12 ==> #[trigger] h.buckets@[i] == 0
}

impl QueueMetrics {
    /// Sets the gauges to what the queue holds.
    pub fn record_state(&mut self, sample: QueueStateSample)
        ensures
            *final(self) == (QueueMetrics {
                jobs: sample.jobs,
                available_jobs: sample.available_jobs,
                claimed_jobs: sample.claimed_jobs,
                oldest_job_age_seconds: sample.oldest_job_age_seconds,
                ..*old(self)
            }),
    {
        set(&mut self.jobs, sample.jobs);
        set(&mut self.available_jobs, sample.available_jobs);
        set(&mut self.claimed_jobs, sample.claimed_jobs);
        set(&mut self.oldest_job_age_seconds, sample.oldest_job_age_seconds);
    }

    /// Counts a batch of the broker and the requests in it.
    pub fn record_broker_batch(&mut self, request_count: u64)
        ensures
            *final(self) == (QueueMetrics {
                broker_batches: old(self).broker_batches.wrapping_add(1),
                broker_batch_requests: old(self).broker_batch_requests.wrapping_add(request_count),
                broker_batch_size: final(self).broker_batch_size,
                ..*old(self)
            }),
            ({
                let slot = size_slot_from(request_count as nat, 0);
                &&& 0 <= slot < 12
                &&& final(self).broker_batch_size.buckets@ == old(
                    self,
                ).broker_batch_size.buckets@.update(
                    slot,
                    old(self).broker_batch_size.buckets@[slot].wrapping_add(1),
                )
                &&& final(self).broker_batch_size.sum == old(
                    self,
                ).broker_batch_size.sum.wrapping_add(request_count)
            }),
    {
        incr(&mut self.broker_batches);
        self::add(&mut self.broker_batch_requests, request_count);
        self.broker_batch_size.observe(request_count);
    }

    /// Records how long a job waited for its claim, in microseconds.
    pub fn record_claim_wait(&mut self, wait_micros: u128)
        ensures
            *final(self) == (QueueMetrics { claim_wait: final(self).claim_wait, ..*old(self) }),
            ({
                let micros = micros_of(wait_micros);
                let slot = latency_slot_from(micros as nat, 0);
                &&& 0 <= slot < 18
                &&& final(self).claim_wait.buckets@ == old(self).claim_wait.buckets@.update(
                    slot,
                    old(self).claim_wait.buckets@[slot].wrapping_add(1),
                )
                &&& final(self).claim_wait.sum_micros == old(
                    self,
                ).claim_wait.sum_micros.wrapping_add(micros)
            }),
    {
        self.claim_wait.observe(wait_micros);
    }
}

impl MaintenanceMetrics {
    /// Counts a pass that ran, and what it did.
    pub fn record_pass(&mut self, sample: MaintenancePassSample)
        ensures
            *final(self) == (MaintenanceMetrics {
                passes: old(self).passes.wrapping_add(1),
                compactions: old(self).compactions.wrapping_add(sample.compactions),
                vector_maintenance: old(self).vector_maintenance.wrapping_add(
                    sample.vector_maintenance,
                ),
                gc_candidates: old(self).gc_candidates.wrapping_add(sample.gc_candidates),
                gc_deletions: old(self).gc_deletions.wrapping_add(sample.gc_deletions),
                errors: old(self).errors.wrapping_add(sample.errors),
                ..*old(self)
            }),
    {
        incr(&mut self.passes);
        self::add(&mut self.compactions, sample.compactions);
        self::add(&mut self.vector_maintenance, sample.vector_maintenance);
        self::add(&mut self.gc_candidates, sample.gc_candidates);
        self::add(&mut self.gc_deletions, sample.gc_deletions);
        self::add(&mut self.errors, sample.errors);
    }

    /// Counts a pass that another process's lease kept from running.
    pub fn record_skipped_pass(&mut self)
        ensures
            *final(self) == (MaintenanceMetrics {
                skipped_leased_passes: old(self).skipped_leased_passes.wrapping_add(1),
                ..*old(self)
            }),
    {
        incr(&mut self.skipped_leased_passes);
    }

    /// Counts a pass that failed as a whole.
    pub fn record_failed_pass(&mut self)
        ensures
            *final(self) == (MaintenanceMetrics {
                errors: old(self).errors.wrapping_add(1),
                ..*old(self)
            }),
    {
        incr(&mut self.errors);
    }
}

/// How far indexing lags behind, by namespace.
#[derive(Debug)]
pub struct IndexLagMetrics {
    pub samples: TextMap<IndexLagSample>,
}

impl Default for IndexLagMetrics {
    fn default() -> (m: IndexLagMetrics)
        ensures
            m.samples.wf(),
            m.samples.keys().len() == 0,
            m.samples.map() == Map::<Seq<char>, IndexLagSample>::empty(),
    {
        IndexLagMetrics { samples: TextMap::new() }
    }
}

impl IndexLagMetrics {
    /// Replaces all samples, so that a namespace that is gone no longer shows.
    pub fn record(&mut self, samples: TextMap<IndexLagSample>)
        ensures
            final(self).samples == samples,
    {
        self.samples = samples;
    }

    /// The samples at this time.
    pub fn snapshot(&self) -> (s: TextMap<IndexLagSample>)
        requires
            self.samples.wf(),
        ensures
            s.wf(),
            s.map() == self.samples.map(),
    {
        let m = &self.samples;
        let ghost keys = m.keys();
        let mut out: TextMap<IndexLagSample> = TextMap::new();
        let count: usize = m.len();
        let mut i: usize = 0;
        assert(out.map() =~= m.map().restrict(keys.take(0).to_set()));
        while i < count
            invariant
                i <= count,
                count == keys.len(),
                *m == self.samples,
                keys == m.keys(),
                m.wf(),
                out.wf(),
                out.map() == m.map().restrict(keys.take(i as int).to_set()),
            decreases count - i,
        {
            let key = m.key_at(i).clone();
            let value: IndexLagSample = *m.value_at(i);
            let ghost before = out.map();
            let ghost k0 = key@;
            out.insert(key, value);
            proof {
                m.lemma_position(i as int);
                let now = keys.take(i + 1);
                let was = keys.take(i as int);
                assert(now =~= was.push(k0));
                assert forall|x: Seq<char>| now.to_set().contains(x) <==> was.to_set().contains(x)
                    || x == k0 by {
                    if now.contains(x) && x != k0 {
                        assert(was[now.index_of(x)] == x);
                    }
                    if was.contains(x) {
                        assert(now[was.index_of(x)] == x);
                    }
                    assert(now[i as int] == k0);
                }
                assert(out.map() =~= m.map().restrict(now.to_set()));
            }
            i = i + 1;
        }
        proof {
            assert(keys.take(i as int) =~= keys);
            assert forall|x: Seq<char>| m.map().dom().contains(x) implies keys.to_set().contains(
                x,
            ) by {
                assert(keys.contains(x));
            }
            assert(out.map() =~= m.map());
        }
        out
    }
}

/// The registry.
#[derive(Debug)]
pub struct Metrics {
    pub object_store: ObjectStoreMetrics,
    pub cache: CacheMetrics,
    pub latency: LatencyMetrics,
    pub search: SearchMetrics,
    pub queue: QueueMetrics,
    pub index_lag: IndexLagMetrics,
    pub maintenance: MaintenanceMetrics,
    pub worker: WorkerMetrics,
}

/// The registry at one time.
#[derive(Debug)]
pub struct MetricsSnapshot {
    pub object_store: ObjectStoreSnapshot,
    pub cache: CacheSnapshot,
    pub latency: LatencySnapshot,
    pub search: SearchSnapshot,
    pub queue: QueueSnapshot,
    pub index_lag: TextMap<IndexLagSample>,
    pub maintenance: MaintenanceSnapshot,
    pub worker: WorkerSnapshot,
}

/// Nothing has been counted.
pub open spec fn metrics_blank(m: Metrics) -> bool {
    &&& m.object_store.gets == 0
    &&& m.object_store.get_ranges == 0
    &&& m.object_store.puts == 0
    &&& m.object_store.puts_if_absent == 0
    &&& m.object_store.compare_and_sets == 0
    &&& m.object_store.cas_mismatches == 0
    &&& m.object_store.lists == 0
    &&& m.object_store.deletes == 0
    &&& m.object_store.get_bytes == 0
    &&& m.object_store.range_bytes == 0
    &&& m.object_store.put_bytes == 0
    &&& histogram_blank(m.object_store.request_latency)
    &&& m.cache.hits == 0
    &&& m.cache.misses == 0
    &&& m.cache.bypasses == 0
    &&& m.cache.evictions == 0
    &&& m.cache.admission_rejections == 0
    &&& m.cache.capacity_bytes == 0
    &&& m.cache.resident_bytes == 0
    &&& m.cache.entries == 0
    &&& m.search.ann_queries == 0
    &&& m.search.ann_candidates == 0
    &&& m.search.ann_estimated == 0
    &&& m.search.ann_reranked == 0
    &&& m.search.ann_pruned == 0
    &&& m.search.text_queries == 0
    &&& m.search.text_blocks_read == 0
    &&& m.search.text_blocks_skipped == 0
    &&& m.queue.cas_attempts == 0
    &&& m.queue.cas_successes == 0
    &&& m.queue.cas_retries == 0
    &&& m.queue.broker_batches == 0
    &&& m.queue.broker_batch_requests == 0
    &&& m.queue.jobs == 0
    &&& m.queue.available_jobs == 0
    &&& m.queue.claimed_jobs == 0
    &&& m.queue.oldest_job_age_seconds == 0
    &&& sizes_blank(m.queue.broker_batch_size)
    &&& histogram_blank(m.queue.claim_wait)
    &&& m.maintenance.passes == 0
    &&& m.maintenance.skipped_leased_passes == 0
    &&& m.maintenance.compactions == 0
    &&& m.maintenance.vector_maintenance == 0
    &&& m.maintenance.gc_candidates == 0
    &&& m.maintenance.gc_deletions == 0
    &&& m.maintenance.errors == 0
    &&& m.worker.claims == 0
    &&& m.worker.flushes == 0
    &&& m.worker.failures == 0
    &&& m.worker.stale_claim_rejections == 0
    &&& histogram_blank(m.latency.write_total)
    &&& histogram_blank(m.latency.write_plan)
    &&& histogram_blank(m.latency.write_commit)
    &&& histogram_blank(m.latency.write_notify)
    &&& histogram_blank(m.latency.query_total)
    &&& histogram_blank(m.latency.query_plan)
    &&& histogram_blank(m.latency.query_candidates)
    &&& histogram_blank(m.latency.query_overlay)
    &&& histogram_blank(m.latency.query_rank)
    &&& histogram_blank(m.latency.query_materialize)
    &&& m.index_lag.samples.keys().len() == 0
}

impl Default for Metrics {
    fn default() -> (m: Metrics)
        ensures
            m.wf(),
            metrics_blank(m),
    {
        Metrics {
            object_store: ObjectStoreMetrics::default(),
            cache: CacheMetrics::default(),
            latency: LatencyMetrics::default(),
            search: SearchMetrics::default(),
            queue: QueueMetrics::default(),
            index_lag: IndexLagMetrics::default(),
            maintenance: MaintenanceMetrics::default(),
            worker: WorkerMetrics::default(),
        }
    }
}

impl Metrics {
    pub open spec fn wf(self) -> bool {
        self.index_lag.samples.wf()
    }

    /// A registry for several tasks to share, once it stands behind a lock.
    pub fn shared() -> (m: Metrics)
        ensures
            m.wf(),
            metrics_blank(m),
    {
        Metrics::default()
    }

    /// The registry at this time.
    pub fn snapshot(&self) -> (s: MetricsSnapshot)
        requires
            self.wf(),
        ensures
            object_store_reads(s.object_store, self.object_store),
            cache_reads(s.cache, self.cache),
            latency_reads(s.latency, self.latency),
            search_reads(s.search, self.search),
            queue_reads(s.queue, self.queue),
            s.index_lag.wf(),
            s.index_lag.map() == self.index_lag.samples.map(),
            maintenance_reads(s.maintenance, self.maintenance),
            worker_reads(s.worker, self.worker),
    {
        MetricsSnapshot {
            object_store: self.object_store.snapshot(),
            cache: self.cache.snapshot(),
            latency: self.latency.snapshot(),
            search: self.search.snapshot(),
            queue: self.queue.snapshot(),
            index_lag: self.index_lag.snapshot(),
            maintenance: self.maintenance.snapshot(),
            worker: self.worker.snapshot(),
        }
    }
}

// ---------------------------------------------------------------------------
// Prometheus text
// ---------------------------------------------------------------------------

/// A counter or gauge as it is shown.
struct Series<'a> {
    name: &'a str,
    help: &'a str,
    kind: &'a str,
    value: u64,
}

/// What a series stands for.
pub struct SeriesView {
    pub name: Seq<char>,
    pub help: Seq<char>,
    pub kind: Seq<char>,
    pub value: u64,
}

pub open spec fn counter(name: Seq<char>, help: Seq<char>, value: u64) -> SeriesView {
    SeriesView { name, help, kind: "counter"@, value }
}

pub open spec fn gauge(name: Seq<char>, help: Seq<char>, value: u64) -> SeriesView {
    SeriesView { name, help, kind: "gauge"@, value }
}

/// The two lines that introduce a family of series.
pub open spec fn family_text(name: Seq<char>, help: Seq<char>, kind: Seq<char>) -> Seq<char> {
    "# HELP "@ + name + " "@ + help + "\n"@ + "# TYPE "@ + name + " "@ + kind + "\n"@
}

/// A series as it is shown.
pub open spec fn series_text(s: SeriesView) -> Seq<char> {
    family_text(s.name, s.help, s.kind) + s.name + " "@ + strings::decimal(s.value as nat) + "\n"@
}

/// Series as they are shown, one after the other.
pub open spec fn all_series_text(list: Seq<SeriesView>) -> Seq<char>
    decreases list.len(),
{
    if list.len() == 0 {
        Seq::empty()
    } else {
        all_series_text(list.drop_last()) + series_text(list.last())
    }
}

spec fn series_view(s: Series<'_>) -> SeriesView {
    SeriesView { name: s.name@, help: s.help@, kind: s.kind@, value: s.value }
}

spec fn series_list(list: Seq<Series<'_>>) -> Seq<SeriesView> {
    Seq::new(list.len(), |i: int| series_view(list[i]))
}

fn push_family(out: &mut String, name: &str, help: &str, kind: &str)
    ensures
        final(out)@ == old(out)@ + family_text(name@, help@, kind@),
{
    out.append("# HELP ");
    out.append(name);
    out.append(" ");
    out.append(help);
    out.append("\n");
    out.append("# TYPE ");
    out.append(name);
    out.append(" ");
    out.append(kind);
    out.append("\n");
    assert(out@ =~= old(out)@ + family_text(name@, help@, kind@));
}

impl<'a> Series<'a> {
    fn new(name: &'a str, help: &'a str, value: u64) -> (s: Series<'a>)
        ensures
            series_view(s) == counter(name@, help@, value),
    {
        Series { name, help, kind: "counter", value }
    }

    fn gauge(name: &'a str, help: &'a str, value: u64) -> (s: Series<'a>)
        ensures
            series_view(s) == gauge(name@, help@, value),
    {
        Series { name, help, kind: "gauge", value }
    }

    fn render(&self, out: &mut String)
        ensures
            final(out)@ == old(out)@ + series_text(series_view(*self)),
    {
        push_family(out, self.name, self.help, self.kind);
        out.append(self.name);
        out.append(" ");
        push_decimal(out, self.value);
        out.append("\n");
        assert(out@ =~= old(out)@ + series_text(series_view(*self)));
    }
}

fn push_series(out: &mut String, list: &Vec<Series<'_>>)
    ensures
        final(out)@ == old(out)@ + all_series_text(series_list(list@)),
{
    let ghost all = series_list(list@);
    let mut i: usize = 0;
    assert(all.take(0) =~= Seq::empty());
    assert(out@ =~= old(out)@ + all_series_text(all.take(0)));
    while i < list.len()
        invariant
            i <= list@.len(),
            all == series_list(list@),
            out@ == old(out)@ + all_series_text(all.take(i as int)),
        decreases list@.len() - i,
    {
        list[i].render(out);
        proof {
            assert(all.take(i + 1).drop_last() =~= all.take(i as int));
            assert(out@ =~= old(out)@ + all_series_text(all.take(i + 1)));
        }
        i = i + 1;
    }
    assert(all.take(i as int) =~= all);
}

/// The series of the object store metrics.
#[verifier::opaque]
pub open spec fn object_store_series(s: ObjectStoreSnapshot) -> Seq<SeriesView> {
    seq![
        counter(
            "sana_object_store_gets_total"@,
            "Object-store get requests."@,
            s.gets,
        ),
        counter(
            "sana_object_store_get_ranges_total"@,
            "Object-store ranged get requests."@,
            s.get_ranges,
        ),
        counter(
            "sana_object_store_puts_total"@,
            "Object-store put requests."@,
            s.puts,
        ),
        counter(
            "sana_object_store_puts_if_absent_total"@,
            "Object-store put-if-absent requests."@,
            s.puts_if_absent,
        ),
        counter(
            "sana_object_store_compare_and_sets_total"@,
            "Object-store compare-and-set requests."@,
            s.compare_and_sets,
        ),
        counter(
            "sana_object_store_cas_mismatches_total"@,
            "Compare-and-set requests rejected by a version mismatch."@,
            s.cas_mismatches,
        ),
        counter(
            "sana_object_store_lists_total"@,
            "Object-store list requests."@,
            s.lists,
        ),
        counter(
            "sana_object_store_deletes_total"@,
            "Object-store delete requests."@,
            s.deletes,
        ),
        counter(
            "sana_object_store_get_bytes_total"@,
            "Bytes returned by object-store gets."@,
            s.get_bytes,
        ),
        counter(
            "sana_object_store_range_bytes_total"@,
            "Bytes returned by object-store ranged gets."@,
            s.range_bytes,
        ),
        counter(
            "sana_object_store_put_bytes_total"@,
            "Bytes written by object-store put-family requests."@,
            s.put_bytes,
        ),
    ]
}

impl ObjectStoreSnapshot {
    fn series(&self) -> (list: Vec<Series<'static>>)
        ensures
            series_list(list@) == object_store_series(*self),
    {
        let mut list: Vec<Series<'static>> = Vec::new();
        reveal(object_store_series);
        list.push(
            Series::new(
                "sana_object_store_gets_total",
                "Object-store get requests.",
                self.gets,
            ),
        );
        list.push(
            Series::new(
                "sana_object_store_get_ranges_total",
                "Object-store ranged get requests.",
                self.get_ranges,
            ),
        );
        list.push(
            Series::new(
                "sana_object_store_puts_total",
                "Object-store put requests.",
                self.puts,
            ),
        );
        list.push(
            Series::new(
                "sana_object_store_puts_if_absent_total",
                "Object-store put-if-absent requests.",
                self.puts_if_absent,
            ),
        );
        list.push(
            Series::new(
                "sana_object_store_compare_and_sets_total",
                "Object-store compare-and-set requests.",
                self.compare_and_sets,
            ),
        );
        list.push(
            Series::new(
                "sana_object_store_cas_mismatches_total",
                "Compare-and-set requests rejected by a version mismatch.",
                self.cas_mismatches,
            ),
        );
        list.push(
            Series::new(
                "sana_object_store_lists_total",
                "Object-store list requests.",
                self.lists,
            ),
        );
        list.push(
            Series::new(
                "sana_object_store_deletes_total",
                "Object-store delete requests.",
                self.deletes,
            ),
        );
        list.push(
            Series::new(
                "sana_object_store_get_bytes_total",
                "Bytes returned by object-store gets.",
                self.get_bytes,
            ),
        );
        list.push(
            Series::new(
                "sana_object_store_range_bytes_total",
                "Bytes returned by object-store ranged gets.",
                self.range_bytes,
            ),
        );
        list.push(
            Series::new(
                "sana_object_store_put_bytes_total",
                "Bytes written by object-store put-family requests.",
                self.put_bytes,
            ),
        );
        assert(series_list(list@) =~= object_store_series(*self));
        list
    }
}

/// The series of the cache metrics.
#[verifier::opaque]
pub open spec fn cache_series(s: CacheSnapshot) -> Seq<SeriesView> {
    seq![
        counter(
            "sana_cache_hits_total"@,
            "Immutable-object cache hits."@,
            s.hits,
        ),
        counter(
            "sana_cache_misses_total"@,
            "Immutable-object cache misses."@,
            s.misses,
        ),
        counter(
            "sana_cache_bypasses_total"@,
            "Reads of mutable keys that bypass the cache."@,
            s.bypasses,
        ),
        counter(
            "sana_cache_evictions_total"@,
            "Entries evicted to fit the byte capacity."@,
            s.evictions,
        ),
        counter(
            "sana_cache_admission_rejections_total"@,
            "Objects too large to ever fit the cache."@,
            s.admission_rejections,
        ),
        gauge(
            "sana_cache_capacity_bytes"@,
            "Configured cache byte capacity."@,
            s.capacity_bytes,
        ),
        gauge(
            "sana_cache_resident_bytes"@,
            "Bytes currently resident in the cache."@,
            s.resident_bytes,
        ),
        gauge(
            "sana_cache_entries"@,
            "Objects currently resident in the cache."@,
            s.entries,
        ),
    ]
}

impl CacheSnapshot {
    fn series(&self) -> (list: Vec<Series<'static>>)
        ensures
            series_list(list@) == cache_series(*self),
    {
        let mut list: Vec<Series<'static>> = Vec::new();
        reveal(cache_series);
        list.push(
            Series::new(
                "sana_cache_hits_total",
                "Immutable-object cache hits.",
                self.hits,
            ),
        );
        list.push(
            Series::new(
                "sana_cache_misses_total",
                "Immutable-object cache misses.",
                self.misses,
            ),
        );
        list.push(
            Series::new(
                "sana_cache_bypasses_total",
                "Reads of mutable keys that bypass the cache.",
                self.bypasses,
            ),
        );
        list.push(
            Series::new(
                "sana_cache_evictions_total",
                "Entries evicted to fit the byte capacity.",
                self.evictions,
            ),
        );
        list.push(
            Series::new(
                "sana_cache_admission_rejections_total",
                "Objects too large to ever fit the cache.",
                self.admission_rejections,
            ),
        );
        list.push(
            Series::gauge(
                "sana_cache_capacity_bytes",
                "Configured cache byte capacity.",
                self.capacity_bytes,
            ),
        );
        list.push(
            Series::gauge(
                "sana_cache_resident_bytes",
                "Bytes currently resident in the cache.",
                self.resident_bytes,
            ),
        );
        list.push(
            Series::gauge(
                "sana_cache_entries",
                "Objects currently resident in the cache.",
                self.entries,
            ),
        );
        assert(series_list(list@) =~= cache_series(*self));
        list
    }
}

/// The series of the search metrics.
#[verifier::opaque]
pub open spec fn search_series(s: SearchSnapshot) -> Seq<SeriesView> {
    seq![
        counter(
            "sana_search_ann_queries_total"@,
            "ANN queries served from published vector segments."@,
            s.ann_queries,
        ),
        counter(
            "sana_search_ann_candidates_total"@,
            "Posting candidates returned by ANN segment scans."@,
            s.ann_candidates,
        ),
        counter(
            "sana_search_ann_estimated_total"@,
            "RaBitQ code estimations performed."@,
            s.ann_estimated,
        ),
        counter(
            "sana_search_ann_reranked_total"@,
            "ANN candidates exact-reranked after pruning."@,
            s.ann_reranked,
        ),
        counter(
            "sana_search_ann_pruned_total"@,
            "ANN candidates eliminated by the RaBitQ lower bound."@,
            s.ann_pruned,
        ),
        counter(
            "sana_search_text_queries_total"@,
            "Full-text queries executed."@,
            s.text_queries,
        ),
        counter(
            "sana_search_text_blocks_read_total"@,
            "Text posting blocks decoded and scored."@,
            s.text_blocks_read,
        ),
        counter(
            "sana_search_text_blocks_skipped_total"@,
            "Text posting blocks skipped by block MAXSCORE."@,
            s.text_blocks_skipped,
        ),
    ]
}

impl SearchSnapshot {
    fn series(&self) -> (list: Vec<Series<'static>>)
        ensures
            series_list(list@) == search_series(*self),
    {
        let mut list: Vec<Series<'static>> = Vec::new();
        reveal(search_series);
        list.push(
            Series::new(
                "sana_search_ann_queries_total",
                "ANN queries served from published vector segments.",
                self.ann_queries,
            ),
        );
        list.push(
            Series::new(
                "sana_search_ann_candidates_total",
                "Posting candidates returned by ANN segment scans.",
                self.ann_candidates,
            ),
        );
        list.push(
            Series::new(
                "sana_search_ann_estimated_total",
                "RaBitQ code estimations performed.",
                self.ann_estimated,
            ),
        );
        list.push(
            Series::new(
                "sana_search_ann_reranked_total",
                "ANN candidates exact-reranked after pruning.",
                self.ann_reranked,
            ),
        );
        list.push(
            Series::new(
                "sana_search_ann_pruned_total",
                "ANN candidates eliminated by the RaBitQ lower bound.",
                self.ann_pruned,
            ),
        );
        list.push(
            Series::new(
                "sana_search_text_queries_total",
                "Full-text queries executed.",
                self.text_queries,
            ),
        );
        list.push(
            Series::new(
                "sana_search_text_blocks_read_total",
                "Text posting blocks decoded and scored.",
                self.text_blocks_read,
            ),
        );
        list.push(
            Series::new(
                "sana_search_text_blocks_skipped_total",
                "Text posting blocks skipped by block MAXSCORE.",
                self.text_blocks_skipped,
            ),
        );
        assert(series_list(list@) =~= search_series(*self));
        list
    }
}

/// The series of the queue metrics.
#[verifier::opaque]
pub open spec fn queue_series(s: QueueSnapshot) -> Seq<SeriesView> {
    seq![
        counter(
            "sana_index_queue_cas_attempts_total"@,
            "Compare-and-set attempts against the indexing queue object."@,
            s.cas_attempts,
        ),
        counter(
            "sana_index_queue_cas_successes_total"@,
            "Successful compare-and-set writes against the indexing queue object."@,
            s.cas_successes,
        ),
        counter(
            "sana_index_queue_cas_retries_total"@,
            "Indexing queue compare-and-set attempts rejected by a version mismatch."@,
            s.cas_retries,
        ),
        counter(
            "sana_index_queue_broker_batches_total"@,
            "Group-commit batches attempted by the indexing queue broker."@,
            s.broker_batches,
        ),
        counter(
            "sana_index_queue_broker_batch_requests_total"@,
            "Queue mutation requests included in broker group-commit batches."@,
            s.broker_batch_requests,
        ),
        gauge(
            "sana_index_queue_jobs"@,
            "Live jobs in the indexing queue."@,
            s.jobs,
        ),
        gauge(
            "sana_index_queue_available_jobs"@,
            "Live indexing queue jobs immediately eligible for claim."@,
            s.available_jobs,
        ),
        gauge(
            "sana_index_queue_claimed_jobs"@,
            "Live indexing queue jobs with an unexpired claim lease."@,
            s.claimed_jobs,
        ),
        gauge(
            "sana_index_queue_oldest_job_age_seconds"@,
            "Age of the oldest live indexing queue job."@,
            s.oldest_job_age_seconds,
        ),
    ]
}

impl QueueSnapshot {
    fn series(&self) -> (list: Vec<Series<'static>>)
        ensures
            series_list(list@) == queue_series(*self),
    {
        let mut list: Vec<Series<'static>> = Vec::new();
        reveal(queue_series);
        list.push(
            Series::new(
                "sana_index_queue_cas_attempts_total",
                "Compare-and-set attempts against the indexing queue object.",
                self.cas_attempts,
            ),
        );
        list.push(
            Series::new(
                "sana_index_queue_cas_successes_total",
                "Successful compare-and-set writes against the indexing queue object.",
                self.cas_successes,
            ),
        );
        list.push(
            Series::new(
                "sana_index_queue_cas_retries_total",
                "Indexing queue compare-and-set attempts rejected by a version mismatch.",
                self.cas_retries,
            ),
        );
        list.push(
            Series::new(
                "sana_index_queue_broker_batches_total",
                "Group-commit batches attempted by the indexing queue broker.",
                self.broker_batches,
            ),
        );
        list.push(
            Series::new(
                "sana_index_queue_broker_batch_requests_total",
                "Queue mutation requests included in broker group-commit batches.",
                self.broker_batch_requests,
            ),
        );
        list.push(
            Series::gauge(
                "sana_index_queue_jobs",
                "Live jobs in the indexing queue.",
                self.jobs,
            ),
        );
        list.push(
            Series::gauge(
                "sana_index_queue_available_jobs",
                "Live indexing queue jobs immediately eligible for claim.",
                self.available_jobs,
            ),
        );
        list.push(
            Series::gauge(
                "sana_index_queue_claimed_jobs",
                "Live indexing queue jobs with an unexpired claim lease.",
                self.claimed_jobs,
            ),
        );
        list.push(
            Series::gauge(
                "sana_index_queue_oldest_job_age_seconds",
                "Age of the oldest live indexing queue job.",
                self.oldest_job_age_seconds,
            ),
        );
        assert(series_list(list@) =~= queue_series(*self));
        list
    }
}

/// The series of the maintenance metrics.
#[verifier::opaque]
pub open spec fn maintenance_series(s: MaintenanceSnapshot) -> Seq<SeriesView> {
    seq![
        counter(
            "sana_maintenance_passes_total"@,
            "Maintenance passes run by the lease-holding leader."@,
            s.passes,
        ),
        counter(
            "sana_maintenance_skipped_leased_passes_total"@,
            "Maintenance passes skipped because another process held the leader lease."@,
            s.skipped_leased_passes,
        ),
        counter(
            "sana_maintenance_compactions_total"@,
            "Namespace compactions published by maintenance passes."@,
            s.compactions,
        ),
        counter(
            "sana_maintenance_vector_maintenance_total"@,
            "Vector split/merge/reassign publications by maintenance passes."@,
            s.vector_maintenance,
        ),
        counter(
            "sana_maintenance_gc_candidates_total"@,
            "Fresh orphan objects observed by maintenance GC, deletable next pass."@,
            s.gc_candidates,
        ),
        counter(
            "sana_maintenance_gc_deletions_total"@,
            "Orphan objects deleted by maintenance GC."@,
            s.gc_deletions,
        ),
        counter(
            "sana_maintenance_errors_total"@,
            "Per-namespace and whole-pass maintenance failures."@,
            s.errors,
        ),
    ]
}

impl MaintenanceSnapshot {
    fn series(&self) -> (list: Vec<Series<'static>>)
        ensures
            series_list(list@) == maintenance_series(*self),
    {
        let mut list: Vec<Series<'static>> = Vec::new();
        reveal(maintenance_series);
        list.push(
            Series::new(
                "sana_maintenance_passes_total",
                "Maintenance passes run by the lease-holding leader.",
                self.passes,
            ),
        );
        list.push(
            Series::new(
                "sana_maintenance_skipped_leased_passes_total",
                "Maintenance passes skipped because another process held the leader lease.",
                self.skipped_leased_passes,
            ),
        );
        list.push(
            Series::new(
                "sana_maintenance_compactions_total",
                "Namespace compactions published by maintenance passes.",
                self.compactions,
            ),
        );
        list.push(
            Series::new(
                "sana_maintenance_vector_maintenance_total",
                "Vector split/merge/reassign publications by maintenance passes.",
                self.vector_maintenance,
            ),
        );
        list.push(
            Series::new(
                "sana_maintenance_gc_candidates_total",
                "Fresh orphan objects observed by maintenance GC, deletable next pass.",
                self.gc_candidates,
            ),
        );
        list.push(
            Series::new(
                "sana_maintenance_gc_deletions_total",
                "Orphan objects deleted by maintenance GC.",
                self.gc_deletions,
            ),
        );
        list.push(
            Series::new(
                "sana_maintenance_errors_total",
                "Per-namespace and whole-pass maintenance failures.",
                self.errors,
            ),
        );
        assert(series_list(list@) =~= maintenance_series(*self));
        list
    }
}

/// The series of the worker metrics.
#[verifier::opaque]
pub open spec fn worker_series(s: WorkerSnapshot) -> Seq<SeriesView> {
    seq![
        counter(
            "sana_index_worker_claims_total"@,
            "Indexing jobs engaged by the worker (claimed and run to a terminal outcome)."@,
            s.claims,
        ),
        counter(
            "sana_index_worker_flushes_total"@,
            "Claimed indexing jobs that published a new index."@,
            s.flushes,
        ),
        counter(
            "sana_index_worker_failures_total"@,
            "Indexing jobs returned to the queue for retry after a worker failure."@,
            s.failures,
        ),
        counter(
            "sana_index_worker_stale_claim_rejections_total"@,
            "Worker claims fenced at publish or heartbeat because they went stale."@,
            s.stale_claim_rejections,
        ),
    ]
}

impl WorkerSnapshot {
    fn series(&self) -> (list: Vec<Series<'static>>)
        ensures
            series_list(list@) == worker_series(*self),
    {
        let mut list: Vec<Series<'static>> = Vec::new();
        reveal(worker_series);
        list.push(
            Series::new(
                "sana_index_worker_claims_total",
                "Indexing jobs engaged by the worker (claimed and run to a terminal outcome).",
                self.claims,
            ),
        );
        list.push(
            Series::new(
                "sana_index_worker_flushes_total",
                "Claimed indexing jobs that published a new index.",
                self.flushes,
            ),
        );
        list.push(
            Series::new(
                "sana_index_worker_failures_total",
                "Indexing jobs returned to the queue for retry after a worker failure.",
                self.failures,
            ),
        );
        list.push(
            Series::new(
                "sana_index_worker_stale_claim_rejections_total",
                "Worker claims fenced at publish or heartbeat because they went stale.",
                self.stale_claim_rejections,
            ),
        );
        assert(series_list(list@) =~= worker_series(*self));
        list
    }
}

/// A number of microseconds in seconds: the whole seconds, and if there are any the
/// parts of a second, in as many digits as they need.
pub open spec fn seconds_text(micros: nat) -> Seq<char> {
    if micros % 1_000_000 == 0 {
        strings::decimal(micros / 1_000_000)
    } else {
        strings::decimal(micros / 1_000_000) + "."@ + fraction_digits(micros % 1_000_000, 6)
    }
}

/// The `width` digits of a part, without zeros at the end.
pub open spec fn fraction_digits(part: nat, width: nat) -> Seq<char>
    decreases width,
{
    if width == 0 || part == 0 {
        Seq::empty()
    } else if part % 10 == 0 {
        fraction_digits(part / 10, (width - 1) as nat)
    } else {
        fixed_digits(part, width)
    }
}

/// A number in exactly `width` digits.
pub open spec fn fixed_digits(n: nat, width: nat) -> Seq<char>
    decreases width,
{
    if width == 0 {
        Seq::empty()
    } else {
        fixed_digits(n / 10, (width - 1) as nat).push(strings::digit(n % 10))
    }
}

fn push_fixed(out: &mut String, n: u64, width: usize)
    ensures
        final(out)@ == old(out)@ + fixed_digits(n as nat, width as nat),
    decreases width,
{
    if width > 0 {
        push_fixed(out, n / 10, width - 1);
        out.push(((n % 10) as u8 + 48) as char);
    }
    assert(out@ =~= old(out)@ + fixed_digits(n as nat, width as nat));
}

fn push_seconds(out: &mut String, micros: u64)
    ensures
        final(out)@ == old(out)@ + seconds_text(micros as nat),
{
    push_decimal(out, micros / 1_000_000);
    let mut part: u64 = micros % 1_000_000;
    if part > 0 {
        out.append(".");
        let mut width: usize = 6;
        let ghost whole = part as nat;
        proof {
            reveal_with_fuel(ten_to, 7);
        }
        while width > 0 && part > 0 && part % 10 == 0
            invariant
                fraction_digits(whole, 6) == fraction_digits(part as nat, width as nat),
                part > 0,
                part < ten_to(width as nat),
            decreases width,
        {
            part = part / 10;
            width = width - 1;
        }
        proof {
            if width == 0 {
                assert(part < ten_to(0));
            }
        }
        push_fixed(out, part, width);
    }
    assert(out@ =~= old(out)@ + seconds_text(micros as nat));
}

/// Ten to the power `n`.
pub open spec fn ten_to(n: nat) -> nat
    decreases n,
{
    if n == 0 {
        1
    } else {
        10 * ten_to((n - 1) as nat)
    }
}

/// A number in decimal digits.
fn push_wide(out: &mut String, n: u128)
    ensures
        final(out)@ == old(out)@ + strings::decimal(n as nat),
    decreases n,
{
    if n >= 10 {
        push_wide(out, n / 10);
    }
    out.push(((n % 10) as u8 + 48) as char);
    assert(out@ =~= old(out)@ + strings::decimal(n as nat));
}

/// The label of a phase inside the braces of a bucket, in front of the bound.
pub open spec fn bucket_label(phase: Option<Seq<char>>) -> Seq<char> {
    match phase {
        None => Seq::empty(),
        Some(p) => "phase=\""@ + p + "\","@,
    }
}

/// The label of a phase in braces of its own.
pub open spec fn suffix_label(phase: Option<Seq<char>>) -> Seq<char> {
    match phase {
        None => Seq::empty(),
        Some(p) => "{phase=\""@ + p + "\"}"@,
    }
}

/// A line of a histogram: how many observations did not exceed a bound.
pub open spec fn bucket_line(name: Seq<char>, label: Seq<char>, bound: Seq<char>, count: nat) -> Seq<
    char,
> {
    name + "_bucket{"@ + label + "le=\""@ + bound + "\"} "@ + strings::decimal(count) + "\n"@
}

/// The lines of the first `n` bounded buckets. Counts are of all observations up to
/// the bound.
pub open spec fn latency_lines(
    name: Seq<char>,
    label: Seq<char>,
    buckets: Seq<u64>,
    n: int,
) -> Seq<char>
    decreases n,
{
    if n <= 0 {
        Seq::empty()
    } else {
        latency_lines(name, label, buckets, n - 1) + bucket_line(
            name,
            label,
            seconds_text(latency_bound(n - 1)),
            total(buckets.take(n)),
        )
    }
}

/// The lines that end a histogram.
pub open spec fn closing_lines(
    name: Seq<char>,
    bucket: Seq<char>,
    suffix: Seq<char>,
    sum: Seq<char>,
    count: nat,
) -> Seq<char> {
    bucket_line(name, bucket, "+Inf"@, count) + (name + "_sum"@ + suffix + " "@ + sum + "\n"@) + (name
        + "_count"@ + suffix + " "@ + strings::decimal(count) + "\n"@)
}

/// A latency histogram as it is shown.
pub open spec fn latency_text(name: Seq<char>, phase: Option<Seq<char>>, h: HistogramSnapshot) -> Seq<
    char,
> {
    latency_lines(name, bucket_label(phase), h.buckets@, 17) + closing_lines(
        name,
        bucket_label(phase),
        suffix_label(phase),
        seconds_text(h.sum_micros as nat),
        total(h.buckets@),
    )
}

fn push_bucket(out: &mut String, name: &str, label: &str, bound: &str, count: u128)
    ensures
        final(out)@ == old(out)@ + bucket_line(name@, label@, bound@, count as nat),
{
    out.append(name);
    out.append("_bucket{");
    out.append(label);
    out.append("le=\"");
    out.append(bound);
    out.append("\"} ");
    push_wide(out, count);
    out.append("\n");
    assert(out@ =~= old(out)@ + bucket_line(name@, label@, bound@, count as nat));
}

fn push_closing(
    out: &mut String,
    name: &str,
    bucket: &str,
    suffix: &str,
    sum: &str,
    count: u128,
)
    ensures
        final(out)@ == old(out)@ + closing_lines(name@, bucket@, suffix@, sum@, count as nat),
{
    push_bucket(out, name, bucket, "+Inf", count);
    out.append(name);
    out.append("_sum");
    out.append(suffix);
    out.append(" ");
    out.append(sum);
    out.append("\n");
    out.append(name);
    out.append("_count");
    out.append(suffix);
    out.append(" ");
    push_wide(out, count);
    out.append("\n");
    assert(out@ =~= old(out)@ + closing_lines(name@, bucket@, suffix@, sum@, count as nat));
}

fn push_latency(out: &mut String, name: &str, phase: Option<&str>, h: &HistogramSnapshot)
    ensures
        final(out)@ == old(out)@ + latency_text(
            name@,
            (match phase {
                None => None,
                Some(p) => Some(p@),
            }),
            *h,
        ),
{
    let ghost label = match phase {
        None => None,
        Some(p) => Some(p@),
    };
    let mut bucket = String::new();
    let mut suffix = String::new();
    if let Some(p) = phase {
        bucket.append("phase=\"");
        bucket.append(p);
        bucket.append("\",");
        suffix.append("{phase=\"");
        suffix.append(p);
        suffix.append("\"}");
    }
    assert(bucket@ =~= bucket_label(label));
    assert(suffix@ =~= suffix_label(label));
    let ghost start = out@;
    let mut cumulative: u128 = 0;
    let mut bound: u64 = 100;
    let mut i: usize = 0;
    assert(h.buckets@.take(0) =~= Seq::empty());
    assert(out@ =~= start + latency_lines(name@, bucket@, h.buckets@, 0));
    while i < 17
        invariant
            i <= 17,
            bound == latency_bound(i as int),
            bound == 100 * pow_two(i as nat),
            cumulative == total(h.buckets@.take(i as int)),
            cumulative <= i * 0xffff_ffff_ffff_ffff,
            out@ == start + latency_lines(name@, bucket@, h.buckets@, i as int),
        decreases 17 - i,
    {
        let ghost before = out@;
        assert(h.buckets@.take(i + 1).drop_last() =~= h.buckets@.take(i as int));
        cumulative = cumulative + h.buckets[i] as u128;
        let mut le = String::new();
        push_seconds(&mut le, bound);
        assert(le@ =~= seconds_text(latency_bound(i as int)));
        push_bucket(out, name, bucket.as_str(), le.as_str(), cumulative);
        assert(out@ =~= start + latency_lines(name@, bucket@, h.buckets@, i + 1));
        proof {
            lemma_pow_two(i as nat);
            if i < 16 {
                lemma_pow_two(i as nat + 1);
            }
        }
        bound = 2 * bound;
        i = i + 1;
    }
    assert(h.buckets@.take(18).drop_last() =~= h.buckets@.take(17));
    assert(h.buckets@.take(18) =~= h.buckets@);
    cumulative = cumulative + h.buckets[17] as u128;
    let mut sum = String::new();
    push_seconds(&mut sum, h.sum_micros);
    assert(sum@ =~= seconds_text(h.sum_micros as nat));
    push_closing(out, name, bucket.as_str(), suffix.as_str(), sum.as_str(), cumulative);
    assert(out@ =~= start + latency_text(name@, label, *h));
}

/// The lines of the first `n` bounded buckets of a size histogram.
pub open spec fn size_lines(name: Seq<char>, buckets: Seq<u64>, n: int) -> Seq<char>
    decreases n,
{
    if n <= 0 {
        Seq::empty()
    } else {
        size_lines(name, buckets, n - 1) + bucket_line(
            name,
            Seq::empty(),
            strings::decimal(size_bound(n - 1)),
            total(buckets.take(n)),
        )
    }
}

/// A size histogram as it is shown.
pub open spec fn sizes_text(name: Seq<char>, h: ValueHistogramSnapshot) -> Seq<char> {
    size_lines(name, h.buckets@, 11) + closing_lines(
        name,
        Seq::empty(),
        Seq::empty(),
        strings::decimal(h.sum as nat),
        total(h.buckets@),
    )
}

fn push_sizes(out: &mut String, name: &str, h: &ValueHistogramSnapshot)
    ensures
        final(out)@ == old(out)@ + sizes_text(name@, *h),
{
    let none = String::new();
    assert(none@ =~= Seq::empty());
    let ghost start = out@;
    let mut cumulative: u128 = 0;
    let mut bound: u64 = 1;
    let mut i: usize = 0;
    assert(h.buckets@.take(0) =~= Seq::empty());
    assert(out@ =~= start + size_lines(name@, h.buckets@, 0));
    while i < 11
        invariant
            i <= 11,
            none@ == Seq::<char>::empty(),
            bound == size_bound(i as int),
            bound == pow_two(i as nat),
            cumulative == total(h.buckets@.take(i as int)),
            cumulative <= i * 0xffff_ffff_ffff_ffff,
            out@ == start + size_lines(name@, h.buckets@, i as int),
        decreases 11 - i,
    {
        assert(h.buckets@.take(i + 1).drop_last() =~= h.buckets@.take(i as int));
        cumulative = cumulative + h.buckets[i] as u128;
        let mut le = String::new();
        push_decimal(&mut le, bound);
        assert(le@ =~= strings::decimal(size_bound(i as int)));
        push_bucket(out, name, none.as_str(), le.as_str(), cumulative);
        assert(out@ =~= start + size_lines(name@, h.buckets@, i + 1));
        proof {
            lemma_pow_two(i as nat + 1);
        }
        bound = 2 * bound;
        i = i + 1;
    }
    assert(h.buckets@.take(12).drop_last() =~= h.buckets@.take(11));
    assert(h.buckets@.take(12) =~= h.buckets@);
    cumulative = cumulative + h.buckets[11] as u128;
    let mut sum = String::new();
    push_decimal(&mut sum, h.sum);
    assert(sum@ =~= strings::decimal(h.sum as nat));
    push_closing(out, name, none.as_str(), none.as_str(), sum.as_str(), cumulative);
    assert(out@ =~= start + sizes_text(name@, *h));
}

pub open spec fn object_store_latency_text(s: ObjectStoreSnapshot) -> Seq<char> {
    family_text(
        "sana_object_store_request_seconds"@,
        "Wall-clock latency of backend object-store requests."@,
        "histogram"@,
    ) + latency_text("sana_object_store_request_seconds"@, None, s.request_latency)
}

fn push_object_store_latency(out: &mut String, s: &ObjectStoreSnapshot)
    ensures
        final(out)@ == old(out)@ + object_store_latency_text(*s),
{
    push_family(
        out,
        "sana_object_store_request_seconds",
        "Wall-clock latency of backend object-store requests.",
        "histogram",
    );
    push_latency(out, "sana_object_store_request_seconds", None, &s.request_latency);
    assert(out@ =~= old(out)@ + object_store_latency_text(*s));
}

pub open spec fn write_text(s: LatencySnapshot) -> Seq<char> {
    family_text(
        "sana_write_seconds"@,
        "End-to-end write request latency."@,
        "histogram"@,
    ) + latency_text("sana_write_seconds"@, None, s.write_total)
}

fn push_write(out: &mut String, s: &LatencySnapshot)
    ensures
        final(out)@ == old(out)@ + write_text(*s),
{
    push_family(
        out,
        "sana_write_seconds",
        "End-to-end write request latency.",
        "histogram",
    );
    push_latency(out, "sana_write_seconds", None, &s.write_total);
    assert(out@ =~= old(out)@ + write_text(*s));
}

pub open spec fn write_phase_text(s: LatencySnapshot) -> Seq<char> {
    family_text(
        "sana_write_phase_seconds"@,
        "Write latency at the dominant phases; phases need not sum to the total."@,
        "histogram"@,
    ) + latency_text("sana_write_phase_seconds"@, Some("plan"@), s.write_plan) + latency_text("sana_write_phase_seconds"@, Some("commit"@), s.write_commit) + latency_text("sana_write_phase_seconds"@, Some("notify"@), s.write_notify)
}

fn push_write_phase(out: &mut String, s: &LatencySnapshot)
    ensures
        final(out)@ == old(out)@ + write_phase_text(*s),
{
    push_family(
        out,
        "sana_write_phase_seconds",
        "Write latency at the dominant phases; phases need not sum to the total.",
        "histogram",
    );
    push_latency(out, "sana_write_phase_seconds", Some("plan"), &s.write_plan);
    push_latency(out, "sana_write_phase_seconds", Some("commit"), &s.write_commit);
    push_latency(out, "sana_write_phase_seconds", Some("notify"), &s.write_notify);
    assert(out@ =~= old(out)@ + write_phase_text(*s));
}

pub open spec fn query_text(s: LatencySnapshot) -> Seq<char> {
    family_text(
        "sana_query_seconds"@,
        "End-to-end query request latency."@,
        "histogram"@,
    ) + latency_text("sana_query_seconds"@, None, s.query_total)
}

fn push_query(out: &mut String, s: &LatencySnapshot)
    ensures
        final(out)@ == old(out)@ + query_text(*s),
{
    push_family(
        out,
        "sana_query_seconds",
        "End-to-end query request latency.",
        "histogram",
    );
    push_latency(out, "sana_query_seconds", None, &s.query_total);
    assert(out@ =~= old(out)@ + query_text(*s));
}

pub open spec fn query_phase_text(s: LatencySnapshot) -> Seq<char> {
    family_text(
        "sana_query_phase_seconds"@,
        "Query latency at the dominant phases; phases need not sum to the total."@,
        "histogram"@,
    ) + latency_text("sana_query_phase_seconds"@, Some("plan"@), s.query_plan) + latency_text("sana_query_phase_seconds"@, Some("candidates"@), s.query_candidates) + latency_text("sana_query_phase_seconds"@, Some("overlay"@), s.query_overlay) + latency_text("sana_query_phase_seconds"@, Some("rank"@), s.query_rank) + latency_text("sana_query_phase_seconds"@, Some("materialize"@), s.query_materialize)
}

fn push_query_phase(out: &mut String, s: &LatencySnapshot)
    ensures
        final(out)@ == old(out)@ + query_phase_text(*s),
{
    push_family(
        out,
        "sana_query_phase_seconds",
        "Query latency at the dominant phases; phases need not sum to the total.",
        "histogram",
    );
    push_latency(out, "sana_query_phase_seconds", Some("plan"), &s.query_plan);
    push_latency(out, "sana_query_phase_seconds", Some("candidates"), &s.query_candidates);
    push_latency(out, "sana_query_phase_seconds", Some("overlay"), &s.query_overlay);
    push_latency(out, "sana_query_phase_seconds", Some("rank"), &s.query_rank);
    push_latency(out, "sana_query_phase_seconds", Some("materialize"), &s.query_materialize);
    assert(out@ =~= old(out)@ + query_phase_text(*s));
}

pub open spec fn claim_wait_text(s: QueueSnapshot) -> Seq<char> {
    family_text(
        "sana_index_queue_claim_wait_seconds"@,
        "Time from indexing job creation to successful claim."@,
        "histogram"@,
    ) + latency_text("sana_index_queue_claim_wait_seconds"@, None, s.claim_wait)
}

fn push_claim_wait(out: &mut String, s: &QueueSnapshot)
    ensures
        final(out)@ == old(out)@ + claim_wait_text(*s),
{
    push_family(
        out,
        "sana_index_queue_claim_wait_seconds",
        "Time from indexing job creation to successful claim.",
        "histogram",
    );
    push_latency(out, "sana_index_queue_claim_wait_seconds", None, &s.claim_wait);
    assert(out@ =~= old(out)@ + claim_wait_text(*s));
}

/// The sizes of the broker's batches as they are shown.
pub open spec fn batch_size_text(s: QueueSnapshot) -> Seq<char> {
    family_text(
        "sana_index_queue_broker_batch_size"@,
        "Queue mutation requests per broker group-commit batch."@,
        "histogram"@,
    ) + sizes_text("sana_index_queue_broker_batch_size"@, s.broker_batch_size)
}

fn push_batch_size(out: &mut String, s: &QueueSnapshot)
    ensures
        final(out)@ == old(out)@ + batch_size_text(*s),
{
    push_family(
        out,
        "sana_index_queue_broker_batch_size",
        "Queue mutation requests per broker group-commit batch.",
        "histogram",
    );
    push_sizes(out, "sana_index_queue_broker_batch_size", &s.broker_batch_size);
    assert(out@ =~= old(out)@ + batch_size_text(*s));
}

/// The value of a sample that a family shows.
pub open spec fn lag_value(s: IndexLagSample, bytes: bool) -> u64 {
    if bytes {
        s.unindexed_bytes
    } else {
        s.unindexed_batches
    }
}

/// The lines of the first `n` namespaces, in the order of their names. Names need no
/// escaping.
pub open spec fn lag_lines(
    name: Seq<char>,
    keys: Seq<Seq<char>>,
    values: Seq<IndexLagSample>,
    bytes: bool,
    n: int,
) -> Seq<char>
    decreases n,
{
    if n <= 0 {
        Seq::empty()
    } else {
        lag_lines(name, keys, values, bytes, n - 1) + (name + "{namespace=\""@ + keys[n - 1]
            + "\"} "@ + strings::decimal(lag_value(values[n - 1], bytes) as nat) + "\n"@)
    }
}

/// A family of lag gauges as it is shown.
pub open spec fn lag_family_text(
    name: Seq<char>,
    help: Seq<char>,
    lag: TextMap<IndexLagSample>,
    bytes: bool,
) -> Seq<char> {
    family_text(name, help, "gauge"@) + lag_lines(
        name,
        lag.keys(),
        lag.values(),
        bytes,
        lag.keys().len() as int,
    )
}

fn push_lag_family(
    out: &mut String,
    name: &str,
    help: &str,
    lag: &TextMap<IndexLagSample>,
    bytes: bool,
)
    ensures
        final(out)@ == old(out)@ + lag_family_text(name@, help@, *lag, bytes),
{
    push_family(out, name, help, "gauge");
    let ghost start = out@;
    let count: usize = lag.len();
    let mut i: usize = 0;
    assert(out@ =~= start + lag_lines(name@, lag.keys(), lag.values(), bytes, 0));
    while i < count
        invariant
            i <= count,
            count == lag.keys().len(),
            count == lag.values().len(),
            out@ == start + lag_lines(name@, lag.keys(), lag.values(), bytes, i as int),
        decreases count - i,
    {
        let sample: IndexLagSample = *lag.value_at(i);
        out.append(name);
        out.append("{namespace=\"");
        out.append(lag.key_at(i).as_str());
        out.append("\"} ");
        push_decimal(
            out,
            if bytes {
                sample.unindexed_bytes
            } else {
                sample.unindexed_batches
            },
        );
        out.append("\n");
        assert(out@ =~= start + lag_lines(name@, lag.keys(), lag.values(), bytes, i + 1));
        i = i + 1;
    }
    assert(out@ =~= old(out)@ + lag_family_text(name@, help@, *lag, bytes));
}

/// The lag gauges as they are shown.
pub open spec fn lag_text(lag: TextMap<IndexLagSample>) -> Seq<char> {
    lag_family_text(
        "sana_namespace_unindexed_bytes"@,
        "Committed WAL bytes not yet absorbed by the index, per namespace."@,
        lag,
        true,
    ) + lag_family_text(
        "sana_namespace_unindexed_batches"@,
        "Committed WAL batches not yet absorbed by the index, per namespace."@,
        lag,
        false,
    )
}

fn push_lag(out: &mut String, lag: &TextMap<IndexLagSample>)
    ensures
        final(out)@ == old(out)@ + lag_text(*lag),
{
    push_lag_family(
        out,
        "sana_namespace_unindexed_bytes",
        "Committed WAL bytes not yet absorbed by the index, per namespace.",
        lag,
        true,
    );
    push_lag_family(
        out,
        "sana_namespace_unindexed_batches",
        "Committed WAL batches not yet absorbed by the index, per namespace.",
        lag,
        false,
    );
    assert(out@ =~= old(out)@ + lag_text(*lag));
}

/// Traffic and cache as they are shown.
pub open spec fn storage_text(s: MetricsSnapshot) -> Seq<char> {
    all_series_text(object_store_series(s.object_store)) + object_store_latency_text(
        s.object_store,
    ) + all_series_text(cache_series(s.cache))
}

fn push_storage(out: &mut String, s: &MetricsSnapshot)
    ensures
        final(out)@ == old(out)@ + storage_text(*s),
{
    push_series(out, &s.object_store.series());
    push_object_store_latency(out, &s.object_store);
    push_series(out, &s.cache.series());
    assert(out@ =~= old(out)@ + storage_text(*s));
}

/// The phases of writes and queries as they are shown.
pub open spec fn phases_text(s: LatencySnapshot) -> Seq<char> {
    write_text(s) + write_phase_text(s) + query_text(s) + query_phase_text(s)
}

proof fn lemma_four_parts(s: Seq<char>, a: Seq<char>, b: Seq<char>, c: Seq<char>, d: Seq<char>)
    ensures
        s + a + b + c + d == s + (a + b + c + d),
{
    assert(s + a + b + c + d =~= s + (a + b + c + d));
}

impl LatencySnapshot {
    fn render(&self, out: &mut String)
        ensures
            final(out)@ == old(out)@ + phases_text(*self),
    {
        push_write(out, self);
        push_write_phase(out, self);
        push_query(out, self);
        push_query_phase(out, self);
        proof {
            lemma_four_parts(
                old(out)@,
                write_text(*self),
                write_phase_text(*self),
                query_text(*self),
                query_phase_text(*self),
            );
        }
    }
}

/// Searches and the queue as they are shown.
pub open spec fn work_text(s: MetricsSnapshot) -> Seq<char> {
    all_series_text(search_series(s.search)) + all_series_text(queue_series(s.queue))
        + batch_size_text(s.queue) + claim_wait_text(s.queue)
}

fn push_work(out: &mut String, s: &MetricsSnapshot)
    ensures
        final(out)@ == old(out)@ + work_text(*s),
{
    push_series(out, &s.search.series());
    push_series(out, &s.queue.series());
    push_batch_size(out, &s.queue);
    push_claim_wait(out, &s.queue);
    assert(out@ =~= old(out)@ + work_text(*s));
}

/// Maintenance, the worker and the lag of indexing as they are shown.
pub open spec fn upkeep_text(s: MetricsSnapshot) -> Seq<char> {
    all_series_text(maintenance_series(s.maintenance)) + all_series_text(worker_series(s.worker))
        + lag_text(s.index_lag)
}

fn push_upkeep(out: &mut String, s: &MetricsSnapshot)
    ensures
        final(out)@ == old(out)@ + upkeep_text(*s),
{
    push_series(out, &s.maintenance.series());
    push_series(out, &s.worker.series());
    push_lag(out, &s.index_lag);
    assert(out@ =~= old(out)@ + upkeep_text(*s));
}

/// A registry as it is shown.
pub open spec fn prometheus_text(s: MetricsSnapshot) -> Seq<char> {
    storage_text(s) + phases_text(s.latency) + work_text(s) + upkeep_text(s)
}

impl MetricsSnapshot {
    /// The registry in the Prometheus text format. Every family is shown, even where
    /// nothing was counted.
    pub fn to_prometheus(&self) -> (out: String)
        ensures
            out@ == prometheus_text(*self),
    {
        let mut out = String::new();
        push_storage(&mut out, self);
        self.latency.render(&mut out);
        push_work(&mut out, self);
        push_upkeep(&mut out, self);
        assert(out@ =~= prometheus_text(*self));
        out
    }
}

/// An observation goes into the bucket with the least bound that it does not exceed, and
/// into the last one where it exceeds all; bounds start at a hundred microseconds, or at
/// one, and double.
pub proof fn law_observations_go_below_their_bound(micros: nat, value: nat, i: int, j: int)
    requires
        0 <= i < 17,
        0 <= j < 11,
    ensures
        0 <= latency_slot_from(micros, 0) <= 17,
        micros <= latency_bound(i) <==> latency_slot_from(micros, 0) <= i,
        0 <= size_slot_from(value, 0) <= 11,
        value <= size_bound(j) <==> size_slot_from(value, 0) <= j,
        latency_bound(0) == 100,
        size_bound(0) == 1,
        latency_bound(i + 1) == 2 * latency_bound(i),
        size_bound(j + 1) == 2 * size_bound(j),
{
    lemma_latency_slot(micros, 0, i);
    lemma_size_slot(value, 0, j);
}

proof fn lemma_latency_slot(micros: nat, from: int, i: int)
    requires
        0 <= from <= i < 17,
    ensures
        from <= latency_slot_from(micros, from) <= 17,
        micros <= latency_bound(i) <==> latency_slot_from(micros, from) <= i,
    decreases i - from,
{
    lemma_slot_bounds(micros, from);
    lemma_bounds_rise(from, i);
    if from < i && micros > latency_bound(from) {
        lemma_latency_slot(micros, from + 1, i);
    } else if from == i && micros > latency_bound(i) {
        lemma_slot_bounds(micros, from + 1);
    }
}

proof fn lemma_slot_bounds(micros: nat, from: int)
    requires
        0 <= from <= 17,
    ensures
        from <= latency_slot_from(micros, from) <= 17,
    decreases 17 - from,
{
    if from < 17 && micros > latency_bound(from) {
        lemma_slot_bounds(micros, from + 1);
    }
}

proof fn lemma_bounds_rise(a: int, b: int)
    requires
        0 <= a <= b,
    ensures
        0 < latency_bound(a) <= latency_bound(b),
        0 < size_bound(a) <= size_bound(b),
    decreases b,
{
    if a < b {
        lemma_bounds_rise(a, b - 1);
    } else if a > 0 {
        lemma_bounds_rise(a - 1, a - 1);
    }
}

proof fn lemma_size_slot(value: nat, from: int, i: int)
    requires
        0 <= from <= i < 11,
    ensures
        from <= size_slot_from(value, from) <= 11,
        value <= size_bound(i) <==> size_slot_from(value, from) <= i,
    decreases i - from,
{
    lemma_size_bounds(value, from);
    lemma_bounds_rise(from, i);
    if from < i && value > size_bound(from) {
        lemma_size_slot(value, from + 1, i);
    } else if from == i && value > size_bound(i) {
        lemma_size_bounds(value, from + 1);
    }
}

proof fn lemma_size_bounds(value: nat, from: int)
    requires
        0 <= from <= 11,
    ensures
        from <= size_slot_from(value, from) <= 11,
    decreases 11 - from,
{
    if from < 11 && value > size_bound(from) {
        lemma_size_bounds(value, from + 1);
    }
}

/// An observation raises the count of the bucket that it belongs to by one and no other,
/// and the sum by what was observed, so that the sum over the count stays the mean.
pub proof fn law_histogram_keeps_sum_and_count(before: Histogram, micros: u128, after: Histogram, i: int)
    requires
        is_observed(before, micros, after),
        before.sum_micros + micros <= u64::MAX,
        0 <= i < 18,
        before.buckets@[i] < u64::MAX,
        before.buckets@.len() == 18,
    ensures
        after.sum_micros == before.sum_micros + micros,
        after.buckets@[i] - before.buckets@[i] == (if (i == 17 || micros <= latency_bound(i)) && (i
            == 0 || micros > latency_bound(i - 1)) {
            1int
        } else {
            0
        }),
{
    let slot = latency_slot_from(micros as nat, 0);
    if i < 17 {
        law_observations_go_below_their_bound(micros as nat, 0, i, 0);
    }
    if i > 0 {
        law_observations_go_below_their_bound(micros as nat, 0, i - 1, 0);
    }
}

proof fn lemma_fixed_digits(n: nat, width: nat)
    requires
        n < ten_to(width),
    ensures
        fixed_digits(n, width).len() == width,
        strings::digits_value(fixed_digits(n, width)) == Some(n),
    decreases width,
{
    if width > 0 {
        lemma_fixed_digits(n / 10, (width - 1) as nat);
        assert(fixed_digits(n, width).drop_last() =~= fixed_digits(n / 10, (width - 1) as nat));
    }
}

/// The digits of a part of a second stand for it: with zeros up to the full width they are
/// the digits of the part, and there is no zero at their end.
pub proof fn law_fraction_is_the_part(part: nat, width: nat)
    requires
        part < ten_to(width),
    ensures
        ({
            let d = fraction_digits(part, width);
            &&& d.len() <= width
            &&& strings::digits_value(d) matches Some(v) && v * ten_to((width - d.len()) as nat)
                == part
            &&& d.len() > 0 ==> d.last() != '0'
        }),
    decreases width,
{
    let d = fraction_digits(part, width);
    if width == 0 || part == 0 {
        assert(0 * ten_to(width) == 0);
    } else if part % 10 == 0 {
        law_fraction_is_the_part(part / 10, (width - 1) as nat);
        let v = strings::digits_value(d)->Some_0;
        let k = (width - 1 - d.len()) as nat;
        assert(v * (10 * ten_to(k)) == 10 * (v * ten_to(k))) by (nonlinear_arith);
        assert((width - d.len()) as nat == k + 1);
        assert(ten_to(k + 1) == 10 * ten_to(k));
    } else {
        lemma_fixed_digits(part, width);
        assert(ten_to(0) == 1);
        assert(part * 1 == part);
    }
}

/// Seconds are shown with the whole ones before the point and the rest behind it: whole
/// seconds without a point, and a duration of a second more with the same digits behind it.
pub proof fn law_seconds_and_parts(micros: nat)
    ensures
        ({
            let d = fraction_digits(micros % 1_000_000, 6);
            let whole = strings::decimal(micros / 1_000_000);
            &&& seconds_text(micros) == (if d.len() == 0 {
                whole
            } else {
                whole + "."@ + d
            })
            &&& strings::digits_value(whole)->Some_0 * 1_000_000 + strings::digits_value(
                d,
            )->Some_0 * ten_to((6 - d.len()) as nat) == micros
        }),
{
    assert(ten_to(6) == 1_000_000) by {
        reveal_with_fuel(ten_to, 7);
    }
    law_fraction_is_the_part(micros % 1_000_000, 6);
    strings::law_decimal_reads_back(micros / 1_000_000);
    let d = fraction_digits(micros % 1_000_000, 6);
    if d.len() == 0 {
        assert(strings::digits_value(d) == Some(0nat));
        assert(0 * ten_to(6) == 0);
    } else if micros % 1_000_000 == 0 {
        assert(fraction_digits(0, 6) =~= Seq::empty());
    }
}

/// The line of a bucket counts its own observations and all of the buckets before it, so
/// that no line counts fewer than the one before and the last counts all.
pub proof fn law_lines_count_up(buckets: Seq<u64>, k: int)
    requires
        0 <= k < buckets.len(),
    ensures
        total(buckets.take(k + 1)) == total(buckets.take(k)) + buckets[k],
        total(buckets.take(0)) == 0,
        total(buckets.take(buckets.len() as int)) == total(buckets),
{
    assert(buckets.take(k + 1).drop_last() =~= buckets.take(k));
    assert(buckets.take(buckets.len() as int) =~= buckets);
}

/// A histogram shows one line for each bound, in which the count is that of all
/// observations up to the bound.
pub proof fn law_every_bound_has_its_line(
    name: Seq<char>,
    label: Seq<char>,
    buckets: Seq<u64>,
    n: int,
    k: int,
)
    requires
        0 <= k < n <= buckets.len(),
    ensures
        exists|front: Seq<char>, rest: Seq<char>|
            latency_lines(name, label, buckets, n) == #[trigger] (front + (name + "_bucket{"@
                + label + "le=\""@ + seconds_text(latency_bound(k)) + "\"} "@ + strings::decimal(
                total(buckets.take(k + 1)),
            ) + "\n"@) + rest),
    decreases n,
{
    let line = name + "_bucket{"@ + label + "le=\""@ + seconds_text(latency_bound(k)) + "\"} "@
        + strings::decimal(total(buckets.take(k + 1))) + "\n"@;
    let before = latency_lines(name, label, buckets, n - 1);
    if k == n - 1 {
        assert(latency_lines(name, label, buckets, n) =~= before + line + Seq::empty());
    } else {
        law_every_bound_has_its_line(name, label, buckets, n - 1, k);
        let (front, rest) = choose|front: Seq<char>, rest: Seq<char>|
            before == #[trigger] (front + line + rest);
        let last = bucket_line(
            name,
            label,
            seconds_text(latency_bound(n - 1)),
            total(buckets.take(n)),
        );
        assert(latency_lines(name, label, buckets, n) =~= front + line + (rest + last));
    }
}

} // verus!
