//! Writing to a namespace: the batch that a write becomes, and the manifest that
//! the columns of a write ask for. A write first makes the schema fit, then puts
//! its batch into the log, then advances the commit cursor.

use vstd::prelude::*;
use vstd::string::*;

use crate::schema;
use crate::wal;
use crate::error::{invalid_write, Error};
use crate::manifest::NamespaceManifest;
use crate::schema::Outcome;
use crate::wal::{WalCursor, WalOp};

verus! {

/// One atomic batch of the log.
#[derive(Debug)]
pub struct WalBatch {
    pub namespace: String,
    pub sequence: u64,
    pub created_at_ms: u64,
    pub idempotency_key: Option<String>,
    pub operations: Vec<WalOp>,
}

/// Checks that a write has something to do.
pub fn check_operations(operations: &Vec<WalOp>) -> (r: Result<(), Error>)
    ensures
        operations@.len() > 0 ==> r is Ok,
        operations@.len() == 0 ==> r is Err && r->Err_0 is InvalidWrite && r->Err_0->InvalidWrite_0@
            == "write batch cannot be empty"@,
{
    if operations.len() == 0 {
        return Err(invalid_write("write batch cannot be empty"));
    }
    Ok(())
}

/// The batch that a write becomes, and its position: the one after the last that
/// was committed.
pub fn next_batch(
    namespace: &str,
    committed: WalCursor,
    created_at_ms: u64,
    idempotency_key: Option<String>,
    operations: Vec<WalOp>,
) -> (r: (WalCursor, WalBatch))
    requires
        committed.seq < u64::MAX,
    ensures
        r.0.epoch == committed.epoch,
        r.0.seq == committed.seq + 1,
        r.1.namespace@ == namespace@,
        r.1.sequence == r.0.seq,
        r.1.created_at_ms == created_at_ms,
        r.1.idempotency_key == idempotency_key,
        r.1.operations == operations,
{
    let next = WalCursor::new(committed.epoch, committed.seq + 1);
    let batch = WalBatch {
        namespace: namespace.to_owned(),
        sequence: next.seq,
        created_at_ms,
        idempotency_key,
        operations,
    };
    (next, batch)
}

/// Two manifests agree but for their schemas, their generations and the times they
/// were written at.
pub open spec fn same_but_schema(a: NamespaceManifest, b: NamespaceManifest) -> bool {
    &&& a.format_version == b.format_version
    &&& a.namespace == b.namespace
    &&& a.wal_commit_cursor == b.wal_commit_cursor
    &&& a.indexed_cursor == b.indexed_cursor
    &&& a.indexed_wal_bytes == b.indexed_wal_bytes
    &&& a.doc_ssts == b.doc_ssts
    &&& a.attr_ssts == b.attr_ssts
    &&& a.text_ssts == b.text_ssts
    &&& a.vector_indexes == b.vector_indexes
    &&& a.vector_index_generations == b.vector_index_generations
    &&& a.branch_parent == b.branch_parent
    &&& a.approx_logical_bytes == b.approx_logical_bytes
    &&& a.approx_row_count == b.approx_row_count
    &&& a.created_at_ms == b.created_at_ms
}

/// The manifest that a write asks for: none where the columns there are hold all
/// it writes, else the next generation with the new columns.
pub fn evolved_manifest(
    manifest: NamespaceManifest,
    pointer_generation: u64,
    operations: &Vec<WalOp>,
    timestamp_ms: u64,
) -> (r: Result<Option<NamespaceManifest>, Error>)
    requires
        manifest.wf(),
        wal::ops_wf(operations@),
        pointer_generation < u64::MAX,
    ensures
        match schema::batch_outcome(manifest.schema.columns.map(), wal::ops_view(operations@)) {
            Outcome::Columns(c) => if c == manifest.schema.columns.map() {
                r == Ok::<Option<NamespaceManifest>, Error>(None)
            } else if manifest.schema.version == u64::MAX {
                r is Err && r->Err_0 is InvalidSchema && r->Err_0->InvalidSchema_0@
                    == "schema version overflow"@
            } else {
                &&& r is Ok && r->Ok_0 is Some
                &&& r->Ok_0->Some_0.wf()
                &&& same_but_schema(r->Ok_0->Some_0, manifest)
                &&& r->Ok_0->Some_0.generation == pointer_generation + 1
                &&& r->Ok_0->Some_0.updated_at_ms == timestamp_ms
                &&& r->Ok_0->Some_0.schema.columns.map() == c
                &&& r->Ok_0->Some_0.schema.version == manifest.schema.version + 1
            },
            Outcome::Misplaced => r is Err && r->Err_0 is InvalidWrite && schema::batch_says(
                manifest.schema.columns.map(),
                wal::ops_view(operations@),
                r->Err_0->InvalidWrite_0@,
            ),
            Outcome::Rejected => r is Err && r->Err_0 is InvalidSchema && schema::batch_says(
                manifest.schema.columns.map(),
                wal::ops_view(operations@),
                r->Err_0->InvalidSchema_0@,
            ),
        },
{
    let mut m = manifest;
    let changed = match m.schema.infer_and_validate_ops(operations.as_slice()) {
        Ok(changed) => changed,
        Err(e) => {
            return Err(e);
        },
    };
    if !changed {
        return Ok(None);
    }
    m.generation = pointer_generation + 1;
    m.updated_at_ms = timestamp_ms;
    Ok(Some(m))
}

/// Once the manifest that a write asked for is there, the write asks for none: a
/// write makes the schema fit once.
pub proof fn law_evolving_settles(
    manifest: NamespaceManifest,
    evolved: NamespaceManifest,
    operations: Seq<WalOp>,
)
    requires
        schema::batch_outcome(manifest.schema.columns.map(), wal::ops_view(operations))
            == Outcome::Columns(evolved.schema.columns.map()),
    ensures
        schema::batch_outcome(evolved.schema.columns.map(), wal::ops_view(operations))
            == Outcome::Columns(evolved.schema.columns.map()),
{
    schema::law_accepted_writes_fit(manifest.schema.columns.map(), wal::ops_view(operations));
}

} // verus!
