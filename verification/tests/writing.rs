use sana::error::Error;
use sana::index_queue::{record_cas, CasOutcome};
use sana::maintenance::{find_orphans, settle_pass, MaintenanceReport};
use sana::manifest::NamespaceManifest;
use sana::metrics::QueueMetrics;
use sana::namespace::writing::{check_operations, evolved_manifest, next_batch};
use sana::object_store::cache::CacheStats;
use sana::pinning::{validate_warm_input, ReplicaClaim};
use sana::textmap::TextSet;
use sana::value::{Document, Id, Value};
use sana::wal::{WalCursor, WalOp};

fn upsert(id: u64, value: Value) -> WalOp {
    let mut document = Document::new(Id::U64(id));
    document.attributes.insert("title".to_string(), value);
    WalOp::Upsert { id: Id::U64(id), document }
}

#[test]
fn a_write_becomes_the_batch_after_the_last() {
    assert!(matches!(check_operations(&vec![]), Err(Error::InvalidWrite(_))));
    let operations = vec![WalOp::Delete { id: Id::U64(1) }];
    assert!(check_operations(&operations).is_ok());
    let (cursor, batch) =
        next_batch("docs", WalCursor::new(2, 7), 99, Some("once".to_string()), operations);
    assert_eq!((cursor.epoch, cursor.seq), (2, 8));
    assert_eq!(batch.namespace, "docs");
    assert_eq!((batch.sequence, batch.created_at_ms), (8, 99));
    assert_eq!(batch.idempotency_key.as_deref(), Some("once"));
    assert_eq!(batch.operations.len(), 1);
}

#[test]
fn a_new_column_makes_a_new_manifest() {
    let title = |id| upsert(id, Value::String("a".to_string()));
    let manifest = NamespaceManifest::new("docs", 1);
    let version = manifest.schema.version;
    let next = evolved_manifest(manifest, 4, &vec![title(1)], 50).unwrap().unwrap();
    assert_eq!(next.generation, 5);
    assert_eq!(next.updated_at_ms, 50);
    assert_eq!(next.schema.version, version + 1);
    assert!(evolved_manifest(next, 5, &vec![title(2)], 60).unwrap().is_none());

    let manifest = NamespaceManifest::new("docs", 1);
    let next = evolved_manifest(manifest, 4, &vec![title(1)], 50).unwrap().unwrap();
    assert!(matches!(
        evolved_manifest(next, 5, &vec![upsert(2, Value::Bool(true))], 60),
        Err(Error::InvalidSchema(_))
    ));
    let manifest = NamespaceManifest::new("docs", 1);
    let misplaced = WalOp::Upsert { id: Id::U64(1), document: Document::new(Id::U64(2)) };
    assert!(matches!(
        evolved_manifest(manifest, 4, &vec![misplaced], 50),
        Err(Error::InvalidWrite(_))
    ));
}

#[test]
fn warming_needs_a_claim_on_the_namespace() {
    let claim = |node: &str| ReplicaClaim {
        namespace: "docs".to_string(),
        slot: 0,
        node_id: node.to_string(),
        assignment_id: 3,
    };
    assert!(validate_warm_input(&claim("n1"), "docs", 10).is_ok());
    for bad in [
        validate_warm_input(&claim("n1"), "other", 10),
        validate_warm_input(&claim(""), "docs", 10),
        validate_warm_input(&claim("n1"), "docs", 0),
    ] {
        assert!(matches!(bad, Err(Error::InvalidPinningClaim(_))));
    }
}

#[test]
fn a_pass_fails_with_its_first_error() {
    let lost = || Err(Error::InvalidPinningClaim("lost".to_string()));
    let report = settle_pass(Ok(MaintenanceReport::default()), Ok(()), Ok(())).unwrap();
    assert_eq!(report.scanned_namespaces, 0);
    assert!(matches!(
        settle_pass(Err(Error::InvalidWrite("pass".to_string())), lost(), lost()),
        Err(Error::InvalidWrite(_))
    ));
    assert!(settle_pass(Ok(MaintenanceReport::default()), lost(), Ok(())).is_err());
    assert!(settle_pass(Ok(MaintenanceReport::default()), Ok(()), lost()).is_err());
}

#[test]
fn orphans_are_stored_and_not_live() {
    let set = |items: &[&str]| {
        let mut s = TextSet::new();
        for item in items {
            s.insert(item.to_string());
        }
        s
    };
    let orphans = find_orphans(&set(&["a", "b", "c"]), &set(&["b", "d"]));
    assert!(orphans.contains("a") && orphans.contains("c"));
    assert!(!orphans.contains("b") && !orphans.contains("d"));
}

#[test]
fn attempts_are_counted_by_their_outcome() {
    let mut metrics = QueueMetrics::default();
    record_cas(&mut metrics, CasOutcome::Stored);
    record_cas(&mut metrics, CasOutcome::Mismatch);
    record_cas(&mut metrics, CasOutcome::Mismatch);
    record_cas(&mut metrics, CasOutcome::Failed);
    assert_eq!(metrics.cas_attempts, 4);
    assert_eq!(metrics.cas_successes, 1);
    assert_eq!(metrics.cas_retries, 2);
}

#[test]
fn cache_numbers_reach_the_registry() {
    let stats = CacheStats {
        capacity_bytes: 1,
        resident_bytes: 2,
        entries: 3,
        hits: 4,
        misses: 5,
        bypasses: 6,
        evictions: 7,
        admission_rejections: 8,
    };
    let m = stats.metrics();
    assert_eq!((m.capacity_bytes, m.resident_bytes, m.entries), (1, 2, 3));
    assert_eq!((m.hits, m.misses, m.bypasses), (4, 5, 6));
    assert_eq!((m.evictions, m.admission_rejections), (7, 8));
}
