//! What is counted of the traffic to an object store: every attempt, failed ones
//! too, with its duration; the bytes of payloads that went through; and every
//! compare-and-set that was refused because the object had changed.

use vstd::prelude::*;

use crate::metrics;
use crate::metrics::{incr, ObjectStoreMetrics};

verus! {

/// A request to an object store.
#[derive(Clone, Copy, Debug, PartialEq, Eq, Structural)]
pub enum StoreCall {
    Get,
    GetRange,
    Put,
    PutIfAbsent,
    CompareAndSet,
    List,
    Delete,
}

/// How a request ended. A mismatch is what a compare-and-set is told where the object
/// has changed.
#[derive(Clone, Copy, Debug, PartialEq, Eq, Structural)]
pub enum CallOutcome {
    Done,
    Mismatch,
    Failed,
}

/// The counters after an attempt.
pub open spec fn attempted(m: ObjectStoreMetrics, call: StoreCall) -> ObjectStoreMetrics {
    match call {
        StoreCall::Get => ObjectStoreMetrics { gets: m.gets.wrapping_add(1), ..m },
        StoreCall::GetRange => ObjectStoreMetrics {
            get_ranges: m.get_ranges.wrapping_add(1),
            ..m
        },
        StoreCall::Put => ObjectStoreMetrics { puts: m.puts.wrapping_add(1), ..m },
        StoreCall::PutIfAbsent => ObjectStoreMetrics {
            puts_if_absent: m.puts_if_absent.wrapping_add(1),
            ..m
        },
        StoreCall::CompareAndSet => ObjectStoreMetrics {
            compare_and_sets: m.compare_and_sets.wrapping_add(1),
            ..m
        },
        StoreCall::List => ObjectStoreMetrics { lists: m.lists.wrapping_add(1), ..m },
        StoreCall::Delete => ObjectStoreMetrics { deletes: m.deletes.wrapping_add(1), ..m },
    }
}

/// Counts an attempt, before it is made.
pub fn count_attempt(m: &mut ObjectStoreMetrics, call: StoreCall)
    ensures
        *final(m) == attempted(*old(m), call),
{
    match call {
        StoreCall::Get => incr(&mut m.gets),
        StoreCall::GetRange => incr(&mut m.get_ranges),
        StoreCall::Put => incr(&mut m.puts),
        StoreCall::PutIfAbsent => incr(&mut m.puts_if_absent),
        StoreCall::CompareAndSet => incr(&mut m.compare_and_sets),
        StoreCall::List => incr(&mut m.lists),
        StoreCall::Delete => incr(&mut m.deletes),
    }
}

/// The counters, but for the durations, after a request with a payload of so many bytes
/// has ended.
pub open spec fn settled(
    m: ObjectStoreMetrics,
    call: StoreCall,
    outcome: CallOutcome,
    bytes: u64,
) -> ObjectStoreMetrics {
    match (call, outcome) {
        (StoreCall::Get, CallOutcome::Done) => ObjectStoreMetrics {
            get_bytes: m.get_bytes.wrapping_add(bytes),
            ..m
        },
        (StoreCall::GetRange, CallOutcome::Done) => ObjectStoreMetrics {
            range_bytes: m.range_bytes.wrapping_add(bytes),
            ..m
        },
        (
            StoreCall::Put | StoreCall::PutIfAbsent | StoreCall::CompareAndSet,
            CallOutcome::Done,
        ) => ObjectStoreMetrics { put_bytes: m.put_bytes.wrapping_add(bytes), ..m },
        (StoreCall::CompareAndSet, CallOutcome::Mismatch) => ObjectStoreMetrics {
            cas_mismatches: m.cas_mismatches.wrapping_add(1),
            ..m
        },
        _ => m,
    }
}

/// Counts how a request ended, with its duration in microseconds.
pub fn count_outcome(
    m: &mut ObjectStoreMetrics,
    call: StoreCall,
    outcome: CallOutcome,
    bytes: u64,
    elapsed_micros: u128,
)
    ensures
        *final(m) == (ObjectStoreMetrics {
            request_latency: final(m).request_latency,
            ..settled(*old(m), call, outcome, bytes)
        }),
        metrics::is_observed(
            old(m).request_latency,
            elapsed_micros,
            final(m).request_latency,
        ),
{
    m.request_latency.observe(elapsed_micros);
    match outcome {
        CallOutcome::Done => match call {
            StoreCall::Get => crate::metrics::add(&mut m.get_bytes, bytes),
            StoreCall::GetRange => crate::metrics::add(&mut m.range_bytes, bytes),
            StoreCall::Put | StoreCall::PutIfAbsent | StoreCall::CompareAndSet => crate::metrics::add(
                &mut m.put_bytes,
                bytes,
            ),
            StoreCall::List | StoreCall::Delete => {},
        },
        CallOutcome::Mismatch => {
            if call == StoreCall::CompareAndSet {
                incr(&mut m.cas_mismatches);
            }
        },
        CallOutcome::Failed => {},
    }
}

/// How often a kind of request was counted.
pub open spec fn calls(m: ObjectStoreMetrics, call: StoreCall) -> u64 {
    match call {
        StoreCall::Get => m.gets,
        StoreCall::GetRange => m.get_ranges,
        StoreCall::Put => m.puts,
        StoreCall::PutIfAbsent => m.puts_if_absent,
        StoreCall::CompareAndSet => m.compare_and_sets,
        StoreCall::List => m.lists,
        StoreCall::Delete => m.deletes,
    }
}

/// An attempt counts once, for its own kind of request, and moves no bytes.
pub proof fn law_attempts_count_once(m: ObjectStoreMetrics, call: StoreCall, other: StoreCall)
    requires
        calls(m, call) < u64::MAX,
    ensures
        calls(attempted(m, call), other) == calls(m, other) + (if other == call {
            1int
        } else {
            0
        }),
        attempted(m, call).get_bytes == m.get_bytes,
        attempted(m, call).range_bytes == m.range_bytes,
        attempted(m, call).put_bytes == m.put_bytes,
        attempted(m, call).cas_mismatches == m.cas_mismatches,
{
}

/// Bytes count where a request has gone through, on the side that they went, and a mismatch
/// counts for a compare-and-set alone. How a request ends is no further attempt.
pub proof fn law_bytes_count_where_they_went(
    m: ObjectStoreMetrics,
    call: StoreCall,
    outcome: CallOutcome,
    bytes: u64,
    other: StoreCall,
)
    requires
        m.get_bytes + bytes <= u64::MAX,
        m.range_bytes + bytes <= u64::MAX,
        m.put_bytes + bytes <= u64::MAX,
        m.cas_mismatches < u64::MAX,
    ensures
        ({
            let after = settled(m, call, outcome, bytes);
            let read = after.get_bytes + after.range_bytes - m.get_bytes - m.range_bytes;
            let written = after.put_bytes - m.put_bytes;
            let refused = after.cas_mismatches - m.cas_mismatches;
            &&& calls(after, other) == calls(m, other)
            &&& read == (if outcome == CallOutcome::Done && (call == StoreCall::Get || call
                == StoreCall::GetRange) {
                bytes as int
            } else {
                0
            })
            &&& call != StoreCall::GetRange ==> after.range_bytes == m.range_bytes
            &&& call != StoreCall::Get ==> after.get_bytes == m.get_bytes
            &&& written == (if outcome == CallOutcome::Done && (call == StoreCall::Put || call
                == StoreCall::PutIfAbsent || call == StoreCall::CompareAndSet) {
                bytes as int
            } else {
                0
            })
            &&& refused == (if outcome == CallOutcome::Mismatch && call
                == StoreCall::CompareAndSet {
                1int
            } else {
                0
            })
        }),
{
}

} // verus!
