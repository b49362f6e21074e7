use sana::backpressure::unindexed_wal_bytes;
use sana::doc::DocRecord;
use sana::documents::{merge_records, replay, table_rows};
use sana::error::Error;
use sana::indexer::{flush, FlushInput, FlushOutput};
use sana::manifest::NamespaceManifest;
use sana::operations::branch_manifest;
use sana::sorted::SortedMap;
use sana::sst::reader::SstReader;
use sana::value::{Document, Id, Value};
use sana::wal::{WalCursor, WalOp};

fn encode(record: &DocRecord) -> Result<Vec<u8>, Error> {
    match record {
        DocRecord::Deleted => Ok(Vec::new()),
        DocRecord::Present(document) => match document.attributes.get("n") {
            Some(Value::Int(n)) => {
                let Id::U64(id) = document.id else { return Err(Error::Codec("key".into())) };
                let mut out = id.to_le_bytes().to_vec();
                out.extend_from_slice(&n.to_le_bytes());
                Ok(out)
            }
            _ => Err(Error::Codec("a number is needed".into())),
        },
    }
}

fn decode(bytes: &[u8]) -> DocRecord {
    if bytes.is_empty() {
        return DocRecord::Deleted;
    }
    let id = u64::from_le_bytes(bytes[..8].try_into().unwrap());
    DocRecord::Present(document(id, i64::from_le_bytes(bytes[8..].try_into().unwrap())))
}

fn document(id: u64, n: i64) -> Document {
    let mut document = Document::new(Id::U64(id));
    document.attributes.insert("n".to_string(), Value::Int(n));
    document
}

fn upsert(id: u64, n: i64) -> WalOp {
    WalOp::Upsert { id: Id::U64(id), document: document(id, n) }
}

fn input(manifest: NamespaceManifest, seq: u64, wal_bytes: u64) -> FlushInput {
    FlushInput {
        pointer_generation: manifest.generation,
        manifest,
        commit: WalCursor::new(0, seq),
        wal_bytes,
        timestamp_ms: 50,
    }
}

fn entries(out: &FlushOutput) -> Vec<(Id, DocRecord)> {
    let reader = SstReader::open(out.bytes.clone()).unwrap();
    table_rows(&reader).unwrap().into_iter().map(|(id, bytes)| (id, decode(&bytes))).collect()
}

fn numbers(docs: &SortedMap<Id, Document>) -> Vec<(Id, i64)> {
    (0..docs.len())
        .map(|i| match docs.value_at(i).attributes.get("n") {
            Some(Value::Int(n)) => (docs.key_at(i).clone(), *n),
            _ => panic!("a number"),
        })
        .collect()
}

#[test]
fn a_flush_settles_what_readers_see() {
    let manifest = NamespaceManifest::new("docs", 1);
    assert!(flush(input(manifest, 0, 0), SortedMap::new(), vec![], encode).unwrap().is_none());

    let manifest = NamespaceManifest::new("docs", 1);
    let ops = vec![upsert(1, 10), upsert(2, 20), upsert(3, 30)];
    let first = flush(input(manifest, 3, 300), SortedMap::new(), ops, encode).unwrap().unwrap();
    assert_eq!(first.key, "namespaces/docs/index/g/1/doc/flush-3.sst");
    assert_eq!(first.manifest.doc_ssts[0].key, first.key);
    assert_eq!(first.manifest.doc_ssts[0].size_bytes, first.bytes.len() as u64);
    assert_eq!(first.manifest.approx_row_count, 3);
    assert_eq!(first.manifest.indexed_cursor, Some(WalCursor::new(0, 3)));
    assert_eq!(unindexed_wal_bytes(&first.manifest, 300).unwrap(), 0);

    // What readers see of the first table and the log is what they see of two tables.
    let log = || vec![upsert(2, 21), WalOp::Delete { id: Id::U64(1) }, upsert(4, 40)];
    let seen = numbers(&replay(entries(&first), log()));
    let base = merge_records(entries(&first));
    let older = entries(&first);
    let second = flush(input(first.manifest, 6, 700), base, log(), encode).unwrap().unwrap();
    let mut tables = entries(&second);
    assert_eq!(tables.len(), 3);
    assert!(matches!(tables[0], (Id::U64(1), DocRecord::Deleted)));
    tables.extend(older);
    assert_eq!(numbers(&replay(tables, vec![])), seen);
    assert_eq!(seen, [(Id::U64(2), 21), (Id::U64(3), 30), (Id::U64(4), 40)]);
    assert_eq!(second.manifest.doc_ssts.len(), 2);
    assert_eq!(second.manifest.generation, 2);
    assert_eq!(second.manifest.approx_row_count, 3);
    assert_eq!(second.manifest.indexed_wal_bytes, 700);
    assert_eq!(second.manifest.updated_at_ms, 50);

    let again = flush(input(second.manifest, 6, 700), SortedMap::new(), vec![], encode);
    assert!(again.unwrap().is_none());
}

#[test]
fn a_record_that_cannot_be_stored_ends_a_flush() {
    let bare = WalOp::Upsert { id: Id::U64(1), document: Document::new(Id::U64(1)) };
    let manifest = NamespaceManifest::new("docs", 1);
    let result = flush(input(manifest, 1, 10), SortedMap::new(), vec![bare], encode);
    assert!(matches!(result, Err(Error::Codec(m)) if m == "a number is needed"));

    let long = Id::String("k".repeat(70_000));
    let mut manifest = NamespaceManifest::new("docs", 1);
    manifest.doc_ssts.push(sana::manifest::SstMeta {
        key: "t".into(),
        size_bytes: u64::MAX,
        row_count: 0,
        min_id: None,
        max_id: None,
    });
    let gone = vec![WalOp::Delete { id: long }];
    let result = flush(input(manifest, 1, 10), SortedMap::new(), gone, encode);
    assert!(matches!(result, Err(Error::Corrupt(_))));
}

#[test]
fn a_fresh_branch_has_nothing_unindexed() {
    let mut manifest = NamespaceManifest::new("docs", 1);
    manifest.indexed_cursor = Some(WalCursor::new(0, 3));
    manifest.indexed_wal_bytes = 900;
    let child = branch_manifest(manifest, "docs", "copy", 9);
    assert_eq!(child.indexed_wal_bytes, 0);
    assert_eq!(unindexed_wal_bytes(&child, 0).unwrap(), 0);
    assert_eq!(unindexed_wal_bytes(&child, 70).unwrap(), 70);
    assert!(flush(input(child, 0, 0), SortedMap::new(), vec![], encode).unwrap().is_none());
}
