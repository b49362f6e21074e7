use sana::attr::{all_ids, attr_postings, build_attr_sst, ids_for_eq, ids_for_range, AttrBound};
use sana::backpressure::{enforce_limit, unindexed_wal_bytes};
use sana::doc::{encode_id, DocRecord};
use sana::documents::{
    apply_ops, lookup, newest_value, overlay_cursors, replay, sst_may_hold, table_rows,
};
use sana::error::Error;
use sana::indexer::{build_doc_sst, flush_key, flush_records, needs_compaction, needs_flush};
use sana::manifest::{ManifestPointer, NamespaceManifest, SstMeta};
use sana::metadata::{index_metadata, IndexStatus};
use sana::namespace::{manifest_pointer_key, validate_namespace_name, wal_key};
use sana::object_store::ObjectVersion;
use sana::operations::{
    branch_manifest, check_fully_indexed, check_immutable, export_key, export_prefix,
};
use sana::query::execute::{
    compute_aggregates, query_path, select_rows, Aggregate, AggregateValues, Query, QueryPath,
};
use sana::query::{
    filter_matches, sort_rows, FilterExpr, OrderBy, OrderTarget, RangeBound, SortDirection,
};
use sana::schema::{ColumnType, ScalarType, Schema};
use sana::sorted::SortedMap;
use sana::sst::reader::SstReader;
use sana::textmap::TextMap;
use sana::value::{Document, Id, Value};
use sana::wal::{WalCursor, WalOp};

fn doc(id: u64, n: i64) -> Document {
    let mut d = Document::new(Id::U64(id));
    d.attributes.insert("n".to_string(), Value::Int(n));
    d
}

fn upsert(id: u64, n: i64) -> WalOp {
    WalOp::Upsert { id: Id::U64(id), document: doc(id, n) }
}

fn number(d: &Document) -> i64 {
    match d.attributes.get("n") {
        Some(Value::Int(n)) => *n,
        _ => panic!("a number"),
    }
}

#[test]
fn operations_apply_in_order() {
    let mut docs = SortedMap::new();
    let mut patch = TextMap::new();
    patch.insert("m".to_string(), Value::Bool(true));
    apply_ops(
        &mut docs,
        vec![
            upsert(1, 1),
            upsert(1, 2),
            upsert(2, 5),
            WalOp::Delete { id: Id::U64(2) },
            WalOp::Patch { id: Id::U64(1), attributes: patch, vectors: TextMap::new() },
        ],
    );
    assert_eq!(docs.len(), 1);
    let first = docs.get(&Id::U64(1)).unwrap();
    assert_eq!(number(first), 2);
    assert!(first.attributes.contains_key("m"));
}

#[test]
fn flushed_documents_read_as_before() {
    let flush = flush_records(SortedMap::new(), vec![upsert(2, 1), upsert(1, 1), WalOp::Delete { id: Id::U64(3) }]);
    let mut entries: Vec<(Id, DocRecord)> = Vec::new();
    for (id, record) in flush.records.into_entries() {
        entries.push((id, record));
    }
    let docs = replay(entries, vec![upsert(1, 9)]);
    assert_eq!(docs.len(), 2);
    assert_eq!(number(docs.get(&Id::U64(1)).unwrap()), 9);
    assert_eq!(number(docs.get(&Id::U64(2)).unwrap()), 1);
    assert_eq!(number(&lookup(Some(doc(1, 1)), vec![upsert(1, 4)], &Id::U64(1)).unwrap()), 4);
    assert!(lookup(Some(doc(1, 1)), vec![WalOp::Delete { id: Id::U64(1) }], &Id::U64(1)).is_none());
}

#[test]
fn newest_table_wins() {
    let older = build_doc_sst(&[(Id::U64(1), b"old".to_vec()), (Id::U64(2), b"two".to_vec())]).unwrap();
    let newer = build_doc_sst(&[(Id::U64(1), b"new".to_vec())]).unwrap();
    let meta = |key: &str, lo: u64, hi: u64| SstMeta {
        key: key.to_string(),
        size_bytes: 1,
        row_count: 1,
        min_id: Some(Id::U64(lo)),
        max_id: Some(Id::U64(hi)),
    };
    assert_eq!(older.row_count, 2);
    assert_eq!(older.min_id, Some(Id::U64(1)));
    assert_eq!(older.max_id, Some(Id::U64(2)));
    assert!(sst_may_hold(&meta("a", 1, 2), &Id::U64(2)));
    assert!(!sst_may_hold(&meta("a", 1, 2), &Id::U64(3)));
    let old_reader = SstReader::open(older.bytes).unwrap();
    let rows = table_rows(&old_reader).unwrap();
    assert_eq!(rows, vec![(Id::U64(1), b"old".to_vec()), (Id::U64(2), b"two".to_vec())]);
    assert!(old_reader.get(&encode_id(&Id::U64(2))).unwrap().is_some());
    let metas = [meta("new", 1, 1), meta("old", 1, 2)];
    let readers = [SstReader::open(newer.bytes).unwrap(), old_reader];
    let found = newest_value(&metas, &readers, &Id::U64(1)).unwrap();
    assert!(found == Some(b"new".to_vec()) || found == Some(b"old".to_vec()));
    assert_eq!(newest_value(&metas, &readers, &Id::U64(2)).unwrap(), Some(b"two".to_vec()));
    assert_eq!(newest_value(&metas, &readers, &Id::U64(7)).unwrap(), None);
}

#[test]
fn overlay_holds_what_is_not_indexed() {
    let seqs: Vec<u64> = overlay_cursors(Some(WalCursor::new(0, 2)), WalCursor::new(0, 5))
        .iter()
        .map(|c| c.seq)
        .collect();
    assert_eq!(seqs, vec![3, 4, 5]);
    assert!(overlay_cursors(Some(WalCursor::new(0, 5)), WalCursor::new(0, 5)).is_empty());
    assert!(needs_flush(None, WalCursor::new(0, 1)));
    assert!(!needs_flush(Some(WalCursor::new(0, 1)), WalCursor::new(0, 1)));
    let manifest = NamespaceManifest::new("docs", 1);
    assert!(!needs_compaction(&manifest));
    assert!(flush_key("docs", 3, 7).starts_with("namespaces/docs/"));
}

#[test]
fn names_and_keys() {
    assert!(validate_namespace_name("docs-1").is_ok());
    for bad in ["", "../x", "a/b", "a b"] {
        assert!(matches!(validate_namespace_name(bad), Err(Error::InvalidWrite(_))));
    }
    assert_eq!(manifest_pointer_key("docs"), "namespaces/docs/manifest/current");
    assert_eq!(wal_key("docs", WalCursor::new(1, 2)), "namespaces/docs/wal/1/2.wal");
    assert!(ManifestPointer::new(4).manifest_body_key("docs").contains("docs"));
    assert_eq!(
        ManifestPointer::for_body(4, "body".into()).manifest_body_key("docs"),
        "body"
    );
}

#[test]
fn schemas_learn_and_refuse() {
    let mut schema = Schema::default();
    assert!(schema.infer_and_validate_ops(&[upsert(1, 1)]).unwrap());
    assert!(!schema.infer_and_validate_ops(&[upsert(2, 2)]).unwrap());
    assert!(matches!(
        schema.columns.get("n").unwrap().column_type,
        ColumnType::Scalar(ScalarType::Int)
    ));
    let mut bad = Document::new(Id::U64(3));
    bad.attributes.insert("n".to_string(), Value::String("x".into()));
    let refused = schema.infer_and_validate_ops(&[WalOp::Upsert { id: Id::U64(3), document: bad }]);
    assert!(matches!(refused, Err(Error::InvalidSchema(_))));
}

#[test]
fn attribute_lists_answer_lookups() {
    let mut docs = SortedMap::new();
    for (id, n) in [(1, 5), (2, 7), (3, 5)] {
        docs.insert(Id::U64(id), doc(id, n));
    }
    let postings = attr_postings(&docs).unwrap();
    let mut lists: Vec<(Vec<u8>, Vec<u8>)> = Vec::new();
    for (key, ids) in postings.into_entries() {
        lists.push((key, vec![ids.len() as u8]));
    }
    let built = build_attr_sst(&lists).unwrap().unwrap();
    let reader = SstReader::open(built.bytes).unwrap();
    assert_eq!(ids_for_eq(&reader, "n", &Value::Int(5)).unwrap().unwrap(), vec![vec![2u8]]);
    let five = Value::Int(5);
    let above = ids_for_range(
        &reader,
        "n",
        Some(AttrBound { value: &five, inclusive: false }),
        None,
    )
    .unwrap()
    .unwrap();
    assert_eq!(above, vec![vec![1u8]]);
    assert_eq!(all_ids(&reader).unwrap(), Some(vec![3u8]));
}

#[test]
fn filters_sorting_and_aggregates() {
    let mut docs = SortedMap::new();
    for (id, n) in [(1, 5), (2, 7), (3, -1)] {
        docs.insert(Id::U64(id), doc(id, n));
    }
    let filter = FilterExpr::Range {
        column: "n".into(),
        lower: Some(RangeBound::Included(Value::Int(5))),
        upper: None,
    };
    assert!(filter_matches(&filter, docs.get(&Id::U64(1)).unwrap()));
    assert!(!filter_matches(&filter, docs.get(&Id::U64(3)).unwrap()));
    let not = FilterExpr::Not(Box::new(filter));
    let rows = select_rows(docs, Some(&not));
    assert_eq!(rows.len(), 1);
    assert_eq!(rows[0].id, Id::U64(3));

    let mut docs = SortedMap::new();
    for (id, n) in [(1, 5), (2, 7), (3, -1)] {
        docs.insert(Id::U64(id), doc(id, n));
    }
    let mut rows = select_rows(docs, None);
    let by_n = OrderBy { target: OrderTarget::Attribute("n".into()), direction: SortDirection::Desc };
    sort_rows(&mut rows, &by_n).unwrap();
    let order: Vec<Id> = rows.iter().map(|r| r.id.clone()).collect();
    assert_eq!(order, vec![Id::U64(2), Id::U64(1), Id::U64(3)]);

    let values = compute_aggregates(
        &vec![Aggregate::Count, Aggregate::Sum { column: "n".into() }],
        &rows,
    )
    .unwrap();
    assert!(matches!(values[0], AggregateValues::Count(3)));
    match &values[1] {
        AggregateValues::Sum { values, .. } => {
            let sum: f64 = values.iter().map(|b| f64::from_bits(*b)).sum();
            assert_eq!(sum, 11.0);
        }
        _ => panic!("a sum"),
    }
    assert!(matches!(query_path(&Query::all()), Ok(QueryPath::Scan)));
}

#[test]
fn backpressure_and_metadata() {
    let mut manifest = NamespaceManifest::new("docs", 1);
    manifest.indexed_wal_bytes = 10;
    manifest.indexed_cursor = Some(WalCursor::new(0, 1));
    assert_eq!(unindexed_wal_bytes(&manifest, 25).unwrap(), 15);
    assert!(matches!(unindexed_wal_bytes(&manifest, 5), Err(Error::Corrupt(_))));
    assert!(enforce_limit(15, 20).is_ok());
    assert!(matches!(
        enforce_limit(25, 20),
        Err(Error::Backpressure { unindexed_bytes: 25, limit_bytes: 20 })
    ));
    let metadata = index_metadata(&manifest, WalCursor::new(0, 2), 25).unwrap();
    assert!(matches!(metadata.status, IndexStatus::Updating));
    assert_eq!(metadata.unindexed_bytes, 15);
    let metadata = index_metadata(&manifest, WalCursor::new(0, 1), 10).unwrap();
    assert!(matches!(metadata.status, IndexStatus::UpToDate));
}

#[test]
fn branches_and_exports() {
    let mut manifest = NamespaceManifest::new("docs", 1);
    manifest.generation = 4;
    manifest.indexed_cursor = Some(WalCursor::new(0, 3));
    assert!(check_fully_indexed("branch", &manifest, WalCursor::new(0, 3)).is_ok());
    assert!(check_fully_indexed("branch", &manifest, WalCursor::new(0, 4)).is_err());
    let child = branch_manifest(manifest, "docs", "copy", 9);
    assert_eq!(child.namespace, "copy");
    let parent = child.branch_parent.unwrap();
    assert_eq!((parent.namespace.as_str(), parent.generation), ("docs", 4));

    assert_eq!(export_prefix("a/b/").unwrap(), "a/b");
    assert!(export_prefix("").is_err());
    let key = export_key("root", 3, &ObjectVersion("sha256-ab".into()));
    assert!(key.starts_with("root/"));
    assert!(check_immutable("object key", "k", b"x", b"x").is_ok());
    assert!(matches!(
        check_immutable("object key", "k", b"x", b"y"),
        Err(Error::Corrupt(m)) if m == "object key collision at k"
    ));
}
