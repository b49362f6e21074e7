use sana::error::Error;
use sana::index_queue::{
    after_cas, apply_batch, batch_timestamp, heartbeat_interval_ms, job_is_done,
    list_namespace_names, plan_reconcile, settle_batch, BrokerOperation, BrokerReply, CasDecision,
    CasOutcome, ClaimedJob, CommitOutcome, EnqueueOutcome, NamespaceProgress, QueueFile,
    ReconcileReport,
};
use sana::indexer::{build_doc_sst, flush_records, flushed_manifest, needs_flush};
use sana::manifest::NamespaceManifest;
use sana::namespace::writing::next_batch;
use sana::sorted::SortedMap;
use sana::value::{Document, Id};
use sana::wal::{WalCursor, WalOp};

fn enqueue(queue: &mut QueueFile, ns: &str, seq: u64, now: u64) -> EnqueueOutcome {
    queue.enqueue(ns, WalCursor::new(0, seq), now).unwrap().into_parts().0
}

fn claim(queue: &mut QueueFile, worker: &str, lease: u64, now: u64) -> Option<ClaimedJob> {
    queue.claim(worker, lease, now).unwrap().into_parts().0
}

#[test]
fn enqueue_coalesces_only_unclaimed_namespace_jobs() {
    let mut queue = QueueFile::empty();
    assert_eq!(enqueue(&mut queue, "alpha", 1, 10), EnqueueOutcome::Added { job_id: 1 });
    assert_eq!(enqueue(&mut queue, "alpha", 3, 20), EnqueueOutcome::Coalesced { job_id: 1 });
    let first = claim(&mut queue, "worker-a", 100, 30).unwrap();
    assert_eq!(first.job.target_cursor, WalCursor::new(0, 3));

    assert_eq!(enqueue(&mut queue, "alpha", 4, 40), EnqueueOutcome::Added { job_id: 2 });
    assert_eq!(queue.jobs.len(), 2);
    assert!(queue.jobs[0].claim.is_some());
    assert!(queue.jobs[1].claim.is_none());
    assert!(queue.validate().is_ok());
}

#[test]
fn enqueue_rejects_invalid_namespace_before_creating_queue() {
    let mut queue = QueueFile::empty();
    let error = queue.enqueue("../invalid", WalCursor::new(0, 1), 1).unwrap_err();
    assert!(matches!(error, Error::InvalidWrite(_)));
    assert!(queue.jobs.is_empty());
}

#[test]
fn late_notification_coalesces_when_active_target_already_covers_it() {
    let mut queue = QueueFile::empty();
    enqueue(&mut queue, "alpha", 2, 10);
    let active = claim(&mut queue, "worker", 100, 20).unwrap();
    assert_eq!(
        enqueue(&mut queue, "alpha", 1, 30),
        EnqueueOutcome::Coalesced { job_id: active.job.id }
    );
    assert_eq!(queue.jobs.len(), 1);
}

#[test]
fn expired_claim_is_recovered_and_old_worker_is_fenced() {
    let mut queue = QueueFile::empty();
    enqueue(&mut queue, "alpha", 1, 1);
    let old = claim(&mut queue, "old", 10, 100).unwrap();
    assert!(claim(&mut queue, "new", 10, 109).is_none());
    let new = claim(&mut queue, "new", 10, 110).unwrap();
    assert_eq!(new.handle.attempt, 2);

    assert!(matches!(queue.complete(&old.handle), Err(Error::InvalidQueueClaim(_))));
    assert!(matches!(
        queue.heartbeat(&old.handle, 10, 111),
        Err(Error::InvalidQueueClaim(_))
    ));
    queue.complete(&new.handle).unwrap();
    assert!(queue.jobs.is_empty());
}

#[test]
fn failed_job_waits_until_retry_deadline() {
    let mut queue = QueueFile::empty();
    enqueue(&mut queue, "alpha", 1, 1);
    let first = claim(&mut queue, "worker", 100, 10).unwrap();
    queue.fail(&first.handle, 50, 20).unwrap();
    assert!(claim(&mut queue, "worker", 100, 69).is_none());
    let retried = claim(&mut queue, "worker", 100, 70).unwrap();
    assert_eq!(retried.handle.attempt, 2);
}

#[test]
fn active_namespace_does_not_block_other_namespaces() {
    let mut queue = QueueFile::empty();
    enqueue(&mut queue, "alpha", 1, 1);
    let alpha = claim(&mut queue, "worker-a", 100, 2).unwrap();
    enqueue(&mut queue, "alpha", 2, 3);
    enqueue(&mut queue, "beta", 1, 4);

    let beta = claim(&mut queue, "worker-b", 100, 5).unwrap();
    assert_eq!(beta.job.namespace, "beta");
    queue.complete(&alpha.handle).unwrap();
    let next_alpha = claim(&mut queue, "worker-c", 100, 6).unwrap();
    assert_eq!(next_alpha.job.namespace, "alpha");
    assert_eq!(next_alpha.job.id, 2);
}

#[test]
fn heartbeat_extends_but_never_shortens_lease() {
    let mut queue = QueueFile::empty();
    enqueue(&mut queue, "alpha", 1, 1);
    let held = claim(&mut queue, "worker", 100, 10).unwrap();
    assert_eq!(queue.heartbeat(&held.handle, 20, 20).unwrap().into_parts(), (110, false));
    assert_eq!(queue.heartbeat(&held.handle, 100, 30).unwrap().into_parts(), (130, true));
}

#[test]
fn concurrent_pushers_preserve_highest_target() {
    let mut queue = QueueFile::empty();
    for seq in (1..=32).rev() {
        enqueue(&mut queue, "alpha", seq, seq);
    }
    assert_eq!(queue.jobs.len(), 1);
    assert_eq!(queue.jobs[0].target_cursor, WalCursor::new(0, 32));
}

#[test]
fn queue_client_trait_covers_the_full_job_lifecycle() {
    let mut queue = QueueFile::empty();
    enqueue(&mut queue, "alpha", 1, 0);
    let first = claim(&mut queue, "worker-a", 10_000, 1).unwrap();
    let original_expiry = first.job.claim.as_ref().unwrap().lease_expires_at_ms;
    let (extended, _) = queue.heartbeat(&first.handle, 60_000, 2).unwrap().into_parts();
    assert!(extended > original_expiry);
    queue.fail(&first.handle, 0, 3).unwrap();
    let second = claim(&mut queue, "worker-b", 10_000, 4).unwrap();
    assert_eq!(second.handle.attempt, 2);
    queue.complete(&second.handle).unwrap();
    assert!(queue.jobs.is_empty());
}

#[test]
fn invalid_broker_request_does_not_poison_valid_batch_member() {
    let mut queue = QueueFile::empty();
    let ops = vec![
        BrokerOperation::Claim { worker_id: "worker".into(), lease_ms: 0, timestamp_ms: 10 },
        BrokerOperation::Enqueue {
            namespace: "alpha".into(),
            target_cursor: WalCursor::new(0, 1),
            timestamp_ms: 10,
        },
    ];
    assert_eq!(batch_timestamp(&ops), Some(10));
    let outcome = apply_batch(&mut queue, &ops, None).unwrap();
    assert!(outcome.changed);
    assert!(matches!(outcome.replies[0], Err(Error::InvalidQueueClaim(_))));
    assert!(matches!(
        outcome.replies[1],
        Ok(BrokerReply::Enqueued(EnqueueOutcome::Added { job_id: 1 }))
    ));
    assert_eq!(queue.jobs.len(), 1);
}

#[test]
fn replacement_broker_fences_the_previous_owner() {
    let mut queue = QueueFile::empty();
    let (first, _) = queue.register_broker("http://first:8090", "first").unwrap().into_parts();
    let op = |ns: &str| {
        vec![BrokerOperation::Enqueue {
            namespace: ns.to_string(),
            target_cursor: WalCursor::new(0, 1),
            timestamp_ms: 1,
        }]
    };
    apply_batch(&mut queue, &op("alpha"), Some(&first)).unwrap();
    let (second, _) = queue.register_broker("http://second:8090", "second").unwrap().into_parts();
    assert!(second.generation > first.generation);
    assert!(matches!(
        apply_batch(&mut queue, &op("stale"), Some(&first)),
        Err(Error::InvalidQueueBroker(_))
    ));
    apply_batch(&mut queue, &op("beta"), Some(&second)).unwrap();
    let names: Vec<&str> = queue.jobs.iter().map(|job| job.namespace.as_str()).collect();
    assert_eq!(names, vec!["alpha", "beta"]);
}

#[test]
fn broker_marks_itself_unhealthy_after_group_commit_timeout() {
    let settled = settle_batch(CommitOutcome::TimedOut, 3);
    assert!(!settled.goes_on);
    assert_eq!(settled.answers.len(), 3);
    assert!(settled.answers.iter().all(|a| matches!(a, Err(Error::Io(_)))));
}

#[test]
fn failed_batches_tell_every_member() {
    let settled = settle_batch(
        CommitOutcome::Failed(Error::InvalidQueueBroker("lost".into())),
        2,
    );
    assert!(!settled.goes_on);
    assert!(settled
        .answers
        .iter()
        .all(|a| matches!(a, Err(Error::InvalidQueueBroker(m)) if m == "lost")));
    let settled = settle_batch(CommitOutcome::Failed(Error::Corrupt("x".into())), 1);
    assert!(settled.goes_on);
    assert!(matches!(settled.answers[0], Err(Error::Io(_))));
    let settled = settle_batch(CommitOutcome::Committed(vec![Ok(BrokerReply::Completed)]), 1);
    assert!(settled.goes_on);
    assert!(matches!(settled.answers[0], Ok(BrokerReply::Completed)));
}

/// One pass over the namespaces: who lags is notified.
fn reconcile(
    stored: &Vec<String>,
    seen: &Vec<NamespaceProgress>,
    queue: &mut QueueFile,
    now: u64,
) -> ReconcileReport {
    let names = list_namespace_names(stored);
    assert!(seen.iter().all(|p| names.contains(&p.namespace)));
    let plan = plan_reconcile(seen).unwrap();
    let lagging = plan.lagging.clone();
    let mut report = ReconcileReport::new(names.len(), plan);
    for i in lagging {
        let outcome = queue.enqueue(&seen[i].namespace, seen[i].commit, now).unwrap();
        report.record(outcome.into_parts().0);
    }
    report
}

#[test]
fn reconciliation_restores_only_lagging_namespace_notifications() {
    let upsert = |id: u64| WalOp::Upsert { id: Id::U64(id), document: Document::new(Id::U64(id)) };
    let alpha = NamespaceManifest::new("alpha", 1);
    let beta = NamespaceManifest::new("beta", 1);
    let start = WalCursor::new(0, 0);
    let (alpha_target, _) = next_batch("alpha", start, 1, None, vec![upsert(1)]);
    let (beta_target, batch) = next_batch("beta", start, 1, None, vec![upsert(2)]);
    assert!(needs_flush(beta.indexed_cursor, beta_target));
    let flush = flush_records(SortedMap::new(), batch.operations);
    let built = build_doc_sst(&[(Id::U64(2), b"record".to_vec())]).unwrap();
    let generation = beta.generation + 1;
    let beta = flushed_manifest(beta, generation, beta_target, 30, built, flush.row_count, 2);
    assert_eq!(beta.indexed_wal_bytes, 30);
    assert!(!needs_flush(beta.indexed_cursor, beta_target));

    let stored = vec![
        "namespaces/alpha/manifest/current".to_string(),
        "namespaces/alpha/wal_commit/current".to_string(),
        "namespaces/beta/manifest/current".to_string(),
        "namespaces/beta/wal_commit/current".to_string(),
        "namespaces//manifest/current".to_string(),
        "other/gamma/manifest/current".to_string(),
    ];
    let seen = vec![
        NamespaceProgress {
            namespace: "alpha".into(),
            commit: alpha_target,
            indexed: alpha.indexed_cursor,
            unindexed_bytes: 10,
        },
        NamespaceProgress {
            namespace: "beta".into(),
            commit: beta_target,
            indexed: beta.indexed_cursor,
            unindexed_bytes: 0,
        },
    ];
    let mut queue = QueueFile::empty();
    let report = reconcile(&stored, &seen, &mut queue, 10);
    assert_eq!(report.scanned_namespaces, 2);
    assert_eq!(report.lagging_namespaces, 1);
    assert_eq!(report.notifications_added, 1);
    assert_eq!(report.notifications_coalesced, 0);
    let alpha_lag = report.lag.get("alpha").unwrap();
    assert_eq!(alpha_lag.unindexed_batches, 1);
    assert!(alpha_lag.unindexed_bytes > 0);
    let beta_lag = report.lag.get("beta").unwrap();
    assert_eq!((beta_lag.unindexed_batches, beta_lag.unindexed_bytes), (0, 0));
    assert_eq!(queue.jobs.len(), 1);
    assert_eq!(queue.jobs[0].namespace, "alpha");
    assert_eq!(queue.jobs[0].target_cursor, alpha_target);

    let repeated = reconcile(&stored, &seen, &mut queue, 20);
    assert_eq!(repeated.lagging_namespaces, 1);
    assert_eq!(repeated.notifications_added, 0);
    assert_eq!(repeated.notifications_coalesced, 1);
}

#[test]
fn lost_races_are_repeated_so_many_times() {
    assert_eq!(after_cas(0, CasOutcome::Stored), CasDecision::Done);
    assert_eq!(after_cas(0, CasOutcome::Mismatch), CasDecision::Retry);
    assert_eq!(after_cas(63, CasOutcome::Mismatch), CasDecision::GiveUp);
    assert_eq!(after_cas(0, CasOutcome::Failed), CasDecision::GiveUp);
}

#[test]
fn heartbeats_and_finished_jobs() {
    assert_eq!(heartbeat_interval_ms(0), 1);
    assert_eq!(heartbeat_interval_ms(10), 4);
    assert_eq!(heartbeat_interval_ms(30_000), 10_000);
    assert!(job_is_done(Some(WalCursor::new(0, 3)), WalCursor::new(0, 3)));
    assert!(!job_is_done(Some(WalCursor::new(0, 2)), WalCursor::new(0, 3)));
    assert!(!job_is_done(None, WalCursor::new(0, 3)));
}
