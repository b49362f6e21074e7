//! How far writes may run ahead of indexing.

use vstd::prelude::*;

use crate::error::{corrupt, Error};
use crate::manifest::NamespaceManifest;

verus! {

pub const DEFAULT_MAX_UNINDEXED_WAL_BYTES: u64 = 2_147_483_648;

/// How many bytes of the log are committed and not indexed; `None` where more are
/// indexed than were committed.
pub open spec fn unindexed(manifest: NamespaceManifest, committed_wal_bytes: u64) -> Option<nat> {
    if committed_wal_bytes < manifest.indexed_wal_bytes {
        None
    } else {
        Some((committed_wal_bytes - manifest.indexed_wal_bytes) as nat)
    }
}

/// How many bytes of the log are committed and not indexed. A manifest that has
/// indexed more than was committed is corrupt.
pub fn unindexed_wal_bytes(manifest: &NamespaceManifest, committed_wal_bytes: u64) -> (r: Result<
    u64,
    Error,
>)
    ensures
        match unindexed(*manifest, committed_wal_bytes) {
            Some(n) => r is Ok && r->Ok_0 == n,
            None => r is Err && r->Err_0 is Corrupt,
        },
{
    if committed_wal_bytes < manifest.indexed_wal_bytes {
        return Err(corrupt("indexed WAL byte watermark exceeds committed WAL bytes"));
    }
    Ok(committed_wal_bytes - manifest.indexed_wal_bytes)
}

/// Refuses a write while more than `limit_bytes` wait to be indexed.
pub fn enforce_limit(unindexed_bytes: u64, limit_bytes: u64) -> (r: Result<(), Error>)
    ensures
        unindexed_bytes <= limit_bytes ==> r is Ok,
        unindexed_bytes > limit_bytes ==> r == Err::<(), Error>(
            Error::Backpressure { unindexed_bytes, limit_bytes },
        ),
{
    if unindexed_bytes > limit_bytes {
        return Err(Error::Backpressure { unindexed_bytes, limit_bytes });
    }
    Ok(())
}

/// What is indexed and what is not make up the log. A byte more of the log is a byte more
/// that waits, and a byte more that is indexed one less.
pub proof fn law_log_is_indexed_or_waits(
    a: NamespaceManifest,
    b: NamespaceManifest,
    committed: u64,
    more: u64,
)
    requires
        a.indexed_wal_bytes <= b.indexed_wal_bytes <= committed <= more,
    ensures
        unindexed(a, committed) matches Some(n) && n + a.indexed_wal_bytes == committed,
        unindexed(a, more)->Some_0 - unindexed(a, committed)->Some_0 == more - committed,
        unindexed(a, committed)->Some_0 - unindexed(b, committed)->Some_0 == b.indexed_wal_bytes
            - a.indexed_wal_bytes,
        unindexed(a, a.indexed_wal_bytes) == Some(0nat),
        unindexed(b, a.indexed_wal_bytes) is None <==> a.indexed_wal_bytes < b.indexed_wal_bytes,
{
}

} // verus!
