//! The rules of the HTTP service: what requests cost, what errors are answered, and
//! what responses say.

use vstd::prelude::*;

use crate::cache_warm::{CacheWarmOptions, CacheWarmReport};
use crate::error::Error;
use crate::query::execute::Query;
use crate::value::Id;
use crate::wal::WalCursor;

verus! {

/// The most bytes that a request may have.
pub const MAX_REQUEST_BYTES: usize = 67_108_864;

/// How many slots the queries of a namespace share.
pub const MAX_CONCURRENT_QUERY_SLOTS: usize = 16;

/// How long a query waits for its slots.
pub const QUERY_SLOT_WAIT_MS: u64 = 800;

/// How many slots measuring recall takes.
pub const RECALL_SLOTS: u32 = 4;

/// From how many namespaces on those without running queries are forgotten.
pub const LIMITER_PRUNE_COUNT: usize = 1_024;

/// How long a worker holds a job.
pub const LEASE_MS: u64 = 30_000;

/// How long a job that failed waits for its next attempt.
pub const RETRY_DELAY_MS: u64 = 1_000;

/// How long a worker waits when there is no job.
pub const IDLE_POLL_MS: u64 = 100;

/// How long a worker waits after an error.
pub const ERROR_RETRY_MS: u64 = 1_000;

/// How often missed notifications are looked for.
pub const RECONCILE_INTERVAL_MS: u64 = 30_000;

// ---------------------------------------------------------------------------
// Writes
// ---------------------------------------------------------------------------

/// A request to write. What is written, and under which options, is the caller's.
#[derive(Debug)]
pub enum WriteRequest<A, C, P, D, O> {
    Append { operations: A, idempotency_key: Option<String>, options: O },
    Conditional { writes: C, idempotency_key: Option<String>, options: O },
    PatchByFilter { request: P, idempotency_key: Option<String>, options: O },
    DeleteByFilter { request: D, idempotency_key: Option<String>, options: O },
}

/// Which documents a write applied to, and which its condition left out.
#[derive(Debug)]
pub struct WriteOutcome {
    pub applied_ids: Vec<Id>,
    pub skipped_ids: Vec<Id>,
}

/// How a write ended.
#[derive(Debug)]
pub enum Written {
    /// Operations were appended.
    Appended { cursor: WalCursor },
    /// Documents were looked at, and written to where a condition held.
    Checked { cursor: WalCursor, outcome: WriteOutcome },
}

/// The answer to a write.
#[derive(Debug)]
pub struct WriteResponse {
    pub cursor: WalCursor,
    pub outcome: Option<WriteOutcome>,
}

/// The position that a write ended at.
pub open spec fn written_cursor(w: Written) -> WalCursor {
    match w {
        Written::Appended { cursor } => cursor,
        Written::Checked { cursor, .. } => cursor,
    }
}

/// The answer to a write: where it ended, and, unless operations were merely
/// appended, which documents it applied to.
pub fn write_response(written: Written) -> (r: WriteResponse)
    ensures
        r.cursor == written_cursor(written),
        r.outcome == (match written {
            Written::Appended { .. } => None,
            Written::Checked { outcome, .. } => Some(outcome),
        }),
{
    match written {
        Written::Appended { cursor } => WriteResponse { cursor, outcome: None },
        Written::Checked { cursor, outcome } => WriteResponse { cursor, outcome: Some(outcome) },
    }
}

// ---------------------------------------------------------------------------
// Queries
// ---------------------------------------------------------------------------

/// A request to query.
#[derive(Debug)]
pub enum QueryRequest {
    Single { query: Query },
    Multi { queries: Vec<Query> },
}

/// How many slots a query takes: aggregates read everything, an exact vector search
/// scores everything.
pub open spec fn slots_of(q: Query) -> u32 {
    if q.aggregates@.len() > 0 {
        4
    } else if q.exact_vector is Some {
        2
    } else {
        1
    }
}

/// How many slots a query takes.
pub fn query_slots(query: &Query) -> (n: u32)
    ensures
        n == slots_of(*query),
{
    if query.aggregates.len() > 0 {
        4
    } else if query.exact_vector.is_some() {
        2
    } else {
        1
    }
}

/// How many slots the first `n` queries take together: as many as the costliest,
/// since they run one after the other.
pub open spec fn most_slots(queries: Seq<Query>, n: int) -> u32
    decreases n,
{
    if n <= 0 {
        1
    } else {
        let before = most_slots(queries, n - 1);
        if slots_of(queries[n - 1]) > before {
            slots_of(queries[n - 1])
        } else {
            before
        }
    }
}

/// How many slots a request takes.
pub fn query_request_slots(request: &QueryRequest) -> (n: u32)
    ensures
        n == (match *request {
            QueryRequest::Single { query } => slots_of(query),
            QueryRequest::Multi { queries } => most_slots(queries@, queries@.len() as int),
        }),
{
    match request {
        QueryRequest::Single { query } => query_slots(query),
        QueryRequest::Multi { queries } => {
            let mut most: u32 = 1;
            let mut i: usize = 0;
            while i < queries.len()
                invariant
                    i <= queries@.len(),
                    most == most_slots(queries@, i as int),
                decreases queries@.len() - i,
            {
                let n: u32 = query_slots(&queries[i]);
                if n > most {
                    most = n;
                }
                i = i + 1;
            }
            most
        },
    }
}

/// No request takes more slots than there are, so each can run at some time.
pub proof fn law_requests_fit(queries: Seq<Query>, n: int)
    ensures
        1 <= most_slots(queries, n) <= 4,
        most_slots(queries, n) <= MAX_CONCURRENT_QUERY_SLOTS,
        RECALL_SLOTS <= MAX_CONCURRENT_QUERY_SLOTS,
        forall|i: int|
            0 <= i < n ==> slots_of(#[trigger] queries[i]) <= most_slots(queries, n),
    decreases n,
{
    if n > 0 {
        law_requests_fit(queries, n - 1);
    }
}

/// Whether namespaces without running queries are forgotten before another is added.
pub fn prunes_limiters(known: usize) -> (b: bool)
    ensures
        b == (known >= LIMITER_PRUNE_COUNT),
{
    known >= LIMITER_PRUNE_COUNT
}

/// Why a query did not get its slots.
#[derive(Clone, Copy, Debug, PartialEq, Eq, Structural)]
pub enum SlotFailure {
    Unavailable,
    TimedOut,
}

/// The answer to a request that failed: the status code, and what kind of failure.
#[derive(Debug)]
pub struct Failure {
    pub status: u16,
    pub code: String,
}

fn failure(status: u16, code: &str) -> (f: Failure)
    ensures
        f.status == status,
        f.code@ == code@,
{
    Failure { status, code: code.to_owned() }
}

/// The answer to a query that did not get its slots.
pub fn slot_failure(why: SlotFailure) -> (f: Failure)
    ensures
        why == SlotFailure::Unavailable ==> f.status == 500 && f.code@ == "internal"@,
        why == SlotFailure::TimedOut ==> f.status == 429 && f.code@ == "query_concurrency"@,
{
    match why {
        SlotFailure::Unavailable => failure(500, "internal"),
        SlotFailure::TimedOut => failure(429, "query_concurrency"),
    }
}

/// The status code of an error.
pub open spec fn error_status(e: Error) -> u16 {
    match e {
        Error::NotFound(_) => 404,
        Error::AlreadyExists(_) => 409,
        Error::CasMismatch { .. } => 409,
        Error::IdempotencyConflict(_) => 409,
        Error::Backpressure { .. } => 429,
        Error::Corrupt(_) => 500,
        Error::Codec(_) => 500,
        Error::Io(_) => 500,
        _ => 400,
    }
}

/// What kind of failure an error is.
pub open spec fn error_code(e: Error) -> Seq<char> {
    match e {
        Error::NotFound(_) => "not_found"@,
        Error::AlreadyExists(_) => "conflict"@,
        Error::CasMismatch { .. } => "conflict"@,
        Error::IdempotencyConflict(_) => "conflict"@,
        Error::Backpressure { .. } => "backpressure"@,
        Error::Corrupt(_) => "internal"@,
        Error::Codec(_) => "internal"@,
        Error::Io(_) => "internal"@,
        _ => "invalid_request"@,
    }
}

/// The answer to a request that ended in an error.
pub fn error_failure(error: &Error) -> (f: Failure)
    ensures
        f.status == error_status(*error),
        f.code@ == error_code(*error),
{
    match error {
        Error::NotFound(_) => failure(404, "not_found"),
        Error::AlreadyExists(_) => failure(409, "conflict"),
        Error::CasMismatch { .. } => failure(409, "conflict"),
        Error::IdempotencyConflict(_) => failure(409, "conflict"),
        Error::Backpressure { .. } => failure(429, "backpressure"),
        Error::Corrupt(_) => failure(500, "internal"),
        Error::Codec(_) => failure(500, "internal"),
        Error::Io(_) => failure(500, "internal"),
        _ => failure(400, "invalid_request"),
    }
}

// ---------------------------------------------------------------------------
// Warming the cache
// ---------------------------------------------------------------------------

/// What a request to warm the cache may say.
#[derive(Clone, Copy, Debug)]
pub struct WarmCacheParams {
    pub max_bytes: Option<u64>,
    pub max_concurrency: Option<usize>,
}

/// The options of a request to warm the cache: what it does not say is as usual.
pub fn warm_options(params: WarmCacheParams) -> (o: CacheWarmOptions)
    ensures
        o.max_bytes == (match params.max_bytes {
            Some(n) => n,
            None => 67_108_864,
        }),
        o.max_concurrency == (match params.max_concurrency {
            Some(n) => n,
            None => 16,
        }),
{
    let defaults = CacheWarmOptions::default();
    CacheWarmOptions {
        max_bytes: match params.max_bytes {
            Some(n) => n,
            None => defaults.max_bytes,
        },
        max_concurrency: match params.max_concurrency {
            Some(n) => n,
            None => defaults.max_concurrency,
        },
    }
}

/// The answer to a request to warm the cache.
#[derive(Debug)]
pub struct WarmCacheResponse {
    pub status: String,
    pub message: String,
    pub manifest_generation: u64,
    pub loaded_objects: usize,
    pub loaded_bytes: u64,
    pub skipped_objects: usize,
    pub skipped_bytes: u64,
}

/// The answer that tells what was loaded.
pub fn warm_cache_response(report: &CacheWarmReport) -> (r: WarmCacheResponse)
    ensures
        r.status@ == "ACCEPTED"@,
        r.message@ == "cache warm hint accepted"@,
        r.manifest_generation == report.plan.manifest_generation,
        r.loaded_objects == report.loaded_objects,
        r.loaded_bytes == report.loaded_bytes,
        r.skipped_objects == report.plan.skipped_objects,
        r.skipped_bytes == report.plan.skipped_bytes,
{
    WarmCacheResponse {
        status: "ACCEPTED".to_owned(),
        message: "cache warm hint accepted".to_owned(),
        manifest_generation: report.plan.manifest_generation,
        loaded_objects: report.loaded_objects,
        loaded_bytes: report.loaded_bytes,
        skipped_objects: report.plan.skipped_objects,
        skipped_bytes: report.plan.skipped_bytes,
    }
}

// ---------------------------------------------------------------------------
// The indexing worker
// ---------------------------------------------------------------------------

/// How an attempt to do a job ended.
#[derive(Clone, Copy, Debug, PartialEq, Eq, Structural)]
pub enum WorkerTick {
    Ran,
    Idle,
    Failed,
}

/// How long a worker waits before its next attempt.
pub fn worker_pause_ms(tick: WorkerTick) -> (ms: u64)
    ensures
        ms == (match tick {
            WorkerTick::Ran => 0,
            WorkerTick::Idle => IDLE_POLL_MS,
            WorkerTick::Failed => ERROR_RETRY_MS,
        }),
{
    match tick {
        WorkerTick::Ran => 0,
        WorkerTick::Idle => IDLE_POLL_MS,
        WorkerTick::Failed => ERROR_RETRY_MS,
    }
}

/// Whether it is time to look for missed notifications, and when it is next, if
/// looking takes until `done_ms`.
pub fn next_reconcile(now_ms: u64, due_ms: u64, done_ms: u64) -> (r: Option<u64>)
    ensures
        now_ms < due_ms ==> r is None,
        now_ms >= due_ms ==> r == Some(
            if done_ms + RECONCILE_INTERVAL_MS <= u64::MAX {
                (done_ms + RECONCILE_INTERVAL_MS) as u64
            } else {
                u64::MAX
            },
        ),
{
    if now_ms < due_ms {
        None
    } else {
        Some(done_ms.saturating_add(RECONCILE_INTERVAL_MS))
    }
}

/// Queries that go through more take more slots: one that scores every vector twice as many
/// as one that does not, and one that aggregates twice as many again, whatever else it asks
/// for. A request takes what its largest query does.
pub proof fn law_larger_queries_take_more_slots(
    plain: Query,
    exact: Query,
    aggregating: Query,
    queries: Seq<Query>,
    n: int,
)
    requires
        plain.aggregates@.len() == 0,
        plain.exact_vector is None,
        exact.aggregates@.len() == 0,
        exact.exact_vector is Some,
        aggregating.aggregates@.len() > 0,
        0 < n <= queries.len(),
    ensures
        slots_of(plain) == 1,
        slots_of(exact) == 2 * slots_of(plain),
        slots_of(aggregating) == 2 * slots_of(exact),
        exists|i: int|
            0 <= i < n && slots_of(#[trigger] queries[i]) == most_slots(queries, n),
    decreases n,
{
    if n > 1 {
        law_larger_queries_take_more_slots(plain, exact, aggregating, queries, n - 1);
        let i = choose|i: int|
            0 <= i < n - 1 && slots_of(#[trigger] queries[i]) == most_slots(queries, n - 1);
        assert(slots_of(queries[i]) == most_slots(queries, n - 1));
        assert(slots_of(queries[n - 1]) == slots_of(queries[n - 1]));
    } else {
        assert(most_slots(queries, 0) == 1);
        assert(slots_of(queries[0]) >= 1);
    }
}

/// An error is answered with a fault of the server exactly if what is stored cannot be read
/// or reached; all others are told the client, and the code goes with the status.
pub proof fn law_status_tells_whose_fault_it_is(e: Error)
    ensures
        error_status(e) >= 500 <==> e is Corrupt || e is Codec || e is Io,
        400 <= error_status(e) < 500 <==> error_code(e) != "internal"@,
        error_status(e) == 404 <==> error_code(e) == "not_found"@,
        error_status(e) == 404 <==> e is NotFound,
        error_status(e) == 409 <==> error_code(e) == "conflict"@,
        error_status(e) == 409 <==> e is AlreadyExists || e is CasMismatch || e
            is IdempotencyConflict,
        error_status(e) == 429 <==> error_code(e) == "backpressure"@,
        error_status(e) == 429 <==> e is Backpressure,
        error_status(e) == 400 <==> error_code(e) == "invalid_request"@,
        error_status(e) == 500 <==> error_code(e) == "internal"@,
{
    reveal_strlit("internal");
    reveal_strlit("not_found");
    reveal_strlit("conflict");
    reveal_strlit("backpressure");
    reveal_strlit("invalid_request");
    assert("not_found"@[0] == 'n' && "conflict"@[0] == 'c' && "backpressure"@[0] == 'b');
    assert("internal"@.len() == 8 && "conflict"@.len() == 8 && "internal"@[0] == 'i');
    assert("not_found"@.len() == 9 && "backpressure"@.len() == 12 && "invalid_request"@.len() == 15);
}

} // verus!
