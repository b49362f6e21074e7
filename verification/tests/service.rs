use sana::api::{
    error_failure, next_reconcile, prunes_limiters, query_request_slots, query_slots,
    slot_failure, warm_cache_response, warm_options, worker_pause_ms, write_response,
    QueryRequest, SlotFailure, WarmCacheParams, WorkerTick, WriteOutcome, Written,
};
use sana::cache_warm::{CacheWarmPlan, CacheWarmReport};
use sana::error::Error;
use sana::query::execute::{Aggregate, ExactVectorQuery, Query};
use sana::value::Id;
use sana::wal::WalCursor;

#[test]
fn queries_take_slots_by_cost() {
    assert_eq!(query_slots(&Query::all()), 1);
    let mut exact = Query::all();
    exact.exact_vector = Some(ExactVectorQuery {
        column: "v".into(),
        vector: vec![0],
        k: 1,
        metric: None,
    });
    assert_eq!(query_slots(&exact), 2);
    let mut counted = Query::all();
    counted.aggregates.push(Aggregate::Count);
    assert_eq!(query_slots(&counted), 4);

    assert_eq!(query_request_slots(&QueryRequest::Multi { queries: vec![] }), 1);
    assert_eq!(
        query_request_slots(&QueryRequest::Multi { queries: vec![Query::all(), exact] }),
        2
    );
    assert_eq!(query_request_slots(&QueryRequest::Single { query: counted }), 4);
    assert!(!prunes_limiters(1_023));
    assert!(prunes_limiters(1_024));
}

#[test]
fn failures_have_a_status_and_a_code() {
    let cases = [
        (Error::NotFound("x".into()), 404, "not_found"),
        (Error::AlreadyExists("x".into()), 409, "conflict"),
        (
            Error::CasMismatch { key: "k".into(), expected: "e".into(), actual: None },
            409,
            "conflict",
        ),
        (Error::IdempotencyConflict("x".into()), 409, "conflict"),
        (Error::Backpressure { unindexed_bytes: 2, limit_bytes: 1 }, 429, "backpressure"),
        (Error::InvalidRange { start: 1, end: 0, size: 0 }, 400, "invalid_request"),
        (Error::InvalidQuery("x".into()), 400, "invalid_request"),
        (Error::InvalidPinningClaim("x".into()), 400, "invalid_request"),
        (Error::Corrupt("x".into()), 500, "internal"),
        (Error::Codec("x".into()), 500, "internal"),
        (Error::Io("x".into()), 500, "internal"),
    ];
    for (error, status, code) in cases {
        let failure = error_failure(&error);
        assert_eq!((failure.status, failure.code.as_str()), (status, code));
    }
    assert_eq!(slot_failure(SlotFailure::TimedOut).status, 429);
    assert_eq!(slot_failure(SlotFailure::TimedOut).code, "query_concurrency");
    assert_eq!(slot_failure(SlotFailure::Unavailable).status, 500);
}

#[test]
fn write_answers_tell_outcomes_of_checked_writes() {
    let cursor = WalCursor::new(0, 7);
    let appended = write_response(Written::Appended { cursor });
    assert_eq!(appended.cursor, cursor);
    assert!(appended.outcome.is_none());
    let checked = write_response(Written::Checked {
        cursor,
        outcome: WriteOutcome { applied_ids: vec![Id::U64(1)], skipped_ids: vec![Id::U64(2)] },
    });
    let outcome = checked.outcome.unwrap();
    assert_eq!(outcome.applied_ids, vec![Id::U64(1)]);
    assert_eq!(outcome.skipped_ids, vec![Id::U64(2)]);
}

#[test]
fn warming_answers_tell_what_was_loaded() {
    let options = warm_options(WarmCacheParams { max_bytes: None, max_concurrency: Some(3) });
    assert_eq!(options.max_bytes, 64 * 1024 * 1024);
    assert_eq!(options.max_concurrency, 3);
    let response = warm_cache_response(&CacheWarmReport {
        plan: CacheWarmPlan {
            manifest_generation: 5,
            objects: vec![],
            planned_bytes: 0,
            skipped_objects: 2,
            skipped_bytes: 9,
        },
        loaded_objects: 1,
        loaded_bytes: 4,
    });
    assert_eq!(response.status, "ACCEPTED");
    assert_eq!(response.manifest_generation, 5);
    assert_eq!((response.loaded_objects, response.loaded_bytes), (1, 4));
    assert_eq!((response.skipped_objects, response.skipped_bytes), (2, 9));
}

#[test]
fn workers_pause_and_reconcile() {
    assert_eq!(worker_pause_ms(WorkerTick::Ran), 0);
    assert_eq!(worker_pause_ms(WorkerTick::Idle), 100);
    assert_eq!(worker_pause_ms(WorkerTick::Failed), 1_000);
    assert_eq!(next_reconcile(9, 10, 9), None);
    assert_eq!(next_reconcile(10, 10, 12), Some(30_012));
    assert_eq!(next_reconcile(10, 10, u64::MAX), Some(u64::MAX));
}
