use sana::metrics::{
    add, incr, Histogram, IndexLagSample, MaintenancePassSample, Metrics, QueueStateSample,
    ValueHistogram, BUCKETS,
};
use sana::textmap::TextMap;

#[test]
fn snapshot_reflects_increments() {
    let mut metrics = Metrics::shared();
    incr(&mut metrics.object_store.gets);
    incr(&mut metrics.object_store.gets);
    add(&mut metrics.object_store.get_bytes, 4096);

    let snapshot = metrics.snapshot();
    assert_eq!(snapshot.object_store.gets, 2);
    assert_eq!(snapshot.object_store.get_bytes, 4096);
    assert_eq!(snapshot.object_store.puts, 0);
}

#[test]
fn prometheus_render_has_help_type_and_value() {
    let mut metrics = Metrics::default();
    metrics.object_store.cas_mismatches = 7;
    let text = metrics.snapshot().to_prometheus();

    assert!(text.contains("# HELP sana_object_store_cas_mismatches_total"));
    assert!(text.contains("# TYPE sana_object_store_cas_mismatches_total counter"));
    assert!(text.contains("\nsana_object_store_cas_mismatches_total 7\n"));
    assert!(text.contains("# HELP sana_index_queue_jobs"));
    assert!(text.contains("# TYPE sana_index_queue_broker_batch_size histogram"));
    // Every family is emitted, even at zero.
    assert_eq!(text.matches(" counter\n").count(), 40);
    assert_eq!(text.matches(" gauge\n").count(), 9);
    assert_eq!(text.matches(" histogram\n").count(), 7);
}

#[test]
fn maintenance_metrics_fold_pass_reports() {
    let mut metrics = Metrics::default();
    metrics.maintenance.record_pass(MaintenancePassSample {
        compactions: 2,
        vector_maintenance: 1,
        gc_candidates: 5,
        gc_deletions: 3,
        errors: 1,
    });
    metrics.maintenance.record_skipped_pass();
    metrics.maintenance.record_failed_pass();

    let snapshot = metrics.snapshot();
    assert_eq!(snapshot.maintenance.passes, 1);
    assert_eq!(snapshot.maintenance.skipped_leased_passes, 1);
    assert_eq!(snapshot.maintenance.compactions, 2);
    assert_eq!(snapshot.maintenance.vector_maintenance, 1);
    assert_eq!(snapshot.maintenance.gc_candidates, 5);
    assert_eq!(snapshot.maintenance.gc_deletions, 3);
    // One per-namespace error from the pass plus one failed pass.
    assert_eq!(snapshot.maintenance.errors, 2);

    let text = snapshot.to_prometheus();
    assert!(text.contains("# TYPE sana_maintenance_passes_total counter"));
    assert!(text.contains("\nsana_maintenance_compactions_total 2\n"));
    assert!(text.contains("\nsana_maintenance_gc_deletions_total 3\n"));
    assert!(text.contains("\nsana_maintenance_errors_total 2\n"));
}

#[test]
fn worker_metrics_count_outcomes() {
    let mut metrics = Metrics::default();
    incr(&mut metrics.worker.claims);
    incr(&mut metrics.worker.claims);
    incr(&mut metrics.worker.flushes);
    incr(&mut metrics.worker.failures);
    incr(&mut metrics.worker.stale_claim_rejections);

    let snapshot = metrics.snapshot();
    assert_eq!(snapshot.worker.claims, 2);
    assert_eq!(snapshot.worker.flushes, 1);
    assert_eq!(snapshot.worker.failures, 1);
    assert_eq!(snapshot.worker.stale_claim_rejections, 1);

    let text = snapshot.to_prometheus();
    assert!(text.contains("\nsana_index_worker_claims_total 2\n"));
    assert!(text.contains("\nsana_index_worker_flushes_total 1\n"));
    assert!(text.contains("\nsana_index_worker_stale_claim_rejections_total 1\n"));
}

#[test]
fn index_lag_renders_labeled_gauges_and_replaces_wholesale() {
    let mut metrics = Metrics::default();
    let mut samples = TextMap::new();
    samples.insert(
        "docs".to_string(),
        IndexLagSample { unindexed_bytes: 42, unindexed_batches: 2 },
    );
    samples.insert(
        "empty".to_string(),
        IndexLagSample { unindexed_bytes: 0, unindexed_batches: 0 },
    );
    metrics.index_lag.record(samples);
    let text = metrics.snapshot().to_prometheus();
    assert!(text.contains("# TYPE sana_namespace_unindexed_bytes gauge"));
    assert!(text.contains("sana_namespace_unindexed_bytes{namespace=\"docs\"} 42\n"));
    assert!(text.contains("sana_namespace_unindexed_batches{namespace=\"docs\"} 2\n"));
    assert!(text.contains("sana_namespace_unindexed_bytes{namespace=\"empty\"} 0\n"));

    // A later scan without "docs" drops its series from the scrape.
    metrics.index_lag.record(TextMap::new());
    let text = metrics.snapshot().to_prometheus();
    assert!(!text.contains("namespace=\"docs\""));
}

#[test]
fn histogram_places_observations_and_sums_micros() {
    let mut histogram = Histogram::default();
    histogram.observe(50); // first bucket (<=100µs)
    histogram.observe(150); // second bucket (<=200µs)
    histogram.observe(60_000_000); // beyond the last bound: +Inf

    let snapshot = histogram.snapshot();
    assert_eq!(snapshot.buckets[0], 1);
    assert_eq!(snapshot.buckets[1], 1);
    assert_eq!(snapshot.buckets[BUCKETS - 1], 1);
    assert_eq!(snapshot.count(), 3);
    assert_eq!(snapshot.sum_micros, 50 + 150 + 60_000_000);
}

#[test]
fn queue_metrics_render_state_counters_and_histograms() {
    let mut metrics = Metrics::default();
    metrics.queue.record_state(QueueStateSample {
        jobs: 3,
        available_jobs: 2,
        claimed_jobs: 1,
        oldest_job_age_seconds: 9,
    });
    incr(&mut metrics.queue.cas_attempts);
    incr(&mut metrics.queue.cas_successes);
    incr(&mut metrics.queue.cas_retries);
    metrics.queue.record_broker_batch(17);
    metrics.queue.record_claim_wait(1_500_000);

    let snapshot = metrics.snapshot();
    assert_eq!(snapshot.queue.jobs, 3);
    assert_eq!(snapshot.queue.broker_batch_size.count(), 1);
    assert_eq!(snapshot.queue.claim_wait.count(), 1);

    let text = snapshot.to_prometheus();
    assert!(text.contains("sana_index_queue_jobs 3\n"));
    assert!(text.contains("sana_index_queue_available_jobs 2\n"));
    assert!(text.contains("sana_index_queue_claimed_jobs 1\n"));
    assert!(text.contains("sana_index_queue_oldest_job_age_seconds 9\n"));
    assert!(text.contains("sana_index_queue_cas_retries_total 1\n"));
    assert!(text.contains("sana_index_queue_broker_batch_size_bucket{le=\"32\"} 1\n"));
    assert!(text.contains("sana_index_queue_claim_wait_seconds_count 1\n"));
}

#[test]
fn prometheus_histogram_render_is_cumulative() {
    let mut metrics = Metrics::default();
    metrics.latency.query_plan.observe(50);
    metrics.latency.query_plan.observe(150);
    let text = metrics.snapshot().to_prometheus();

    assert!(text.contains("# TYPE sana_query_phase_seconds histogram"));
    assert!(text.contains("sana_query_phase_seconds_bucket{phase=\"plan\",le=\"0.0001\"} 1\n"));
    assert!(text.contains("sana_query_phase_seconds_bucket{phase=\"plan\",le=\"0.0002\"} 2\n"));
    assert!(text.contains("sana_query_phase_seconds_bucket{phase=\"plan\",le=\"+Inf\"} 2\n"));
    assert!(text.contains("sana_query_phase_seconds_sum{phase=\"plan\"} 0.0002\n"));
    assert!(text.contains("sana_query_phase_seconds_count{phase=\"plan\"} 2\n"));
    // Unlabeled totals render without braces.
    assert!(text.contains("sana_query_seconds_bucket{le=\"+Inf\"} 0\n"));
    assert!(text.contains("sana_query_seconds_count 0\n"));
}

#[test]
fn one_observation_raises_one_bucket() {
    let mut histogram = ValueHistogram::default();
    histogram.observe(3);
    let snapshot = histogram.snapshot();
    assert_eq!(snapshot.count(), 1);
    assert_eq!(snapshot.sum, 3);
    assert_eq!(snapshot.buckets.iter().filter(|n| **n == 1).count(), 1);
}
