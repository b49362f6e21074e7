//! What the service tells of a namespace, from one manifest snapshot and the
//! committed log.

use vstd::prelude::*;

use crate::backpressure::unindexed_wal_bytes;
use crate::error::Error;
use crate::manifest::NamespaceManifest;
use crate::wal::WalCursor;

verus! {

#[derive(Clone, Copy, Debug, PartialEq, Eq, Structural)]
pub enum IndexStatus {
    UpToDate,
    Updating,
}

#[derive(Clone, Debug, PartialEq, Eq, Structural)]
pub struct IndexMetadata {
    pub status: IndexStatus,
    pub unindexed_bytes: u64,
    pub committed_cursor: WalCursor,
    pub indexed_cursor: Option<WalCursor>,
}

/// How far the index of a namespace has come: up to date exactly if nothing that
/// was committed waits to be indexed.
pub fn index_metadata(
    manifest: &NamespaceManifest,
    committed_cursor: WalCursor,
    committed_wal_bytes: u64,
) -> (r: Result<IndexMetadata, Error>)
    ensures
        match r {
            Ok(m) => {
                &&& committed_wal_bytes >= manifest.indexed_wal_bytes
                &&& m.unindexed_bytes == committed_wal_bytes - manifest.indexed_wal_bytes
                &&& m.status == (if m.unindexed_bytes == 0 {
                    IndexStatus::UpToDate
                } else {
                    IndexStatus::Updating
                })
                &&& m.committed_cursor == committed_cursor
                &&& m.indexed_cursor == manifest.indexed_cursor
            },
            Err(e) => committed_wal_bytes < manifest.indexed_wal_bytes && e is Corrupt,
        },
{
    match unindexed_wal_bytes(manifest, committed_wal_bytes) {
        Ok(unindexed_bytes) => Ok(
            IndexMetadata {
                status: if unindexed_bytes == 0 {
                    IndexStatus::UpToDate
                } else {
                    IndexStatus::Updating
                },
                unindexed_bytes,
                committed_cursor,
                indexed_cursor: manifest.indexed_cursor,
            },
        ),
        Err(e) => Err(e),
    }
}

} // verus!
