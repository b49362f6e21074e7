use sana::cache_warm::{check_loaded_size, CacheObjectKind, CacheWarmObject};
use sana::error::Error;
use sana::frame;
use sana::index_queue::{copy_batch_error, plan_reconcile, NamespaceProgress, QueueFile};
use sana::maintenance::MaintenanceLeaseFile;
use sana::manifest::NamespaceManifest;
use sana::object_store::fs::validate_object_key;
use sana::operations::check_fully_indexed;
use sana::pinning::{validate_warm_input, PinningFile, ReplicaClaim};
use sana::query::nearest::vector_column_schema;
use sana::query::recall::{check_recall_request, recall_sample_of, RecallRequest};
use sana::schema::Schema;
use sana::sst::block::checked_u32;
use sana::value::{id_text, Document, Id, Value, VectorValue};
use sana::vector::index::validate_query_vector;
use sana::vector::numbers::validate_batch;
use sana::wal::{position_text, WalCursor, WalOp};

fn said<T>(result: Result<T, Error>) -> String {
    match result {
        Ok(_) => panic!("no error"),
        Err(error) => error.message(),
    }
}

#[test]
fn errors_say_what_happened() {
    let mismatch = |actual| Error::CasMismatch { key: "k".into(), expected: "a".into(), actual };
    assert_eq!(
        mismatch(Some("b\"".into())).message(),
        "compare-and-set mismatch for k: expected a, found Some(ObjectVersion(\"b\\\"\"))"
    );
    assert_eq!(
        mismatch(None).message(),
        "compare-and-set mismatch for k: expected a, found None"
    );
    assert_eq!(
        Error::InvalidRange { start: 3, end: 12, size: 10 }.message(),
        "invalid object range 3..12 for object of size 10"
    );
    assert_eq!(
        Error::Backpressure { unindexed_bytes: 7, limit_bytes: 5 }.message(),
        "7 unindexed WAL bytes exceed the limit of 5"
    );
    let text = || "t".to_string();
    for (error, expected) in [
        (Error::NotFound(text()), "object not found: t"),
        (Error::AlreadyExists(text()), "object already exists: t"),
        (Error::IdempotencyConflict(text()), "idempotency key conflict: t"),
        (Error::InvalidWrite(text()), "invalid write: t"),
        (Error::InvalidSchema(text()), "invalid schema: t"),
        (Error::InvalidQuery(text()), "invalid query: t"),
        (Error::InvalidQueueClaim(text()), "invalid indexing queue claim: t"),
        (Error::InvalidQueueBroker(text()), "invalid indexing queue broker: t"),
        (Error::InvalidPinningClaim(text()), "invalid pinning claim: t"),
        (Error::InvalidMaintenanceLease(text()), "invalid maintenance lease: t"),
        (Error::InvalidReaderLease(text()), "invalid reader lease: t"),
        (Error::Corrupt(text()), "corrupt data: t"),
        (Error::Codec(text()), "codec error: t"),
        (Error::Io(text()), "io error: t"),
    ] {
        assert_eq!(error.message(), expected);
    }
}

#[test]
fn keys_and_positions_have_texts() {
    for id in [Id::U64(7), Id::Uuid([9; 16]), Id::String("a\n\"b\"".into())] {
        assert_eq!(id_text(&id), format!("{id:?}"));
    }
    let cursor = WalCursor::new(1, 20);
    assert_eq!(cursor.text(), format!("{cursor:?}"));
    assert_eq!(position_text(Some(cursor)), format!("{:?}", Some(cursor)));
    assert_eq!(position_text(None), "None");
}

#[test]
fn sizes_and_positions_are_told() {
    let object = CacheWarmObject {
        kind: CacheObjectKind::DocumentSst,
        key: "doc.sst".into(),
        size_bytes: 10,
    };
    assert_eq!(
        said(check_loaded_size(&object, 12)),
        "corrupt data: cache warm size mismatch for doc.sst: manifest 10, object 12"
    );
    let manifest = NamespaceManifest::new("docs", 1);
    assert_eq!(
        said(check_fully_indexed("branch", &manifest, WalCursor::new(0, 4))),
        "invalid write: cannot branch namespace \"docs\": WAL is indexed through \
         WalCursor { epoch: 0, seq: 0 }, committed through WalCursor { epoch: 0, seq: 4 }"
    );
    let mut other = NamespaceManifest::new("docs", 1);
    other.format_version = 77;
    assert_eq!(
        said(other.check_version()),
        "corrupt data: unsupported manifest format version 77"
    );
    let seen = vec![NamespaceProgress {
        namespace: "docs".into(),
        commit: WalCursor::new(0, 1),
        indexed: Some(WalCursor::new(0, 2)),
        unindexed_bytes: 0,
    }];
    assert_eq!(
        said(plan_reconcile(&seen)),
        "corrupt data: namespace \"docs\" indexed cursor Some(WalCursor { epoch: 0, seq: 2 }) \
         is ahead of commit WalCursor { epoch: 0, seq: 1 }"
    );
    assert_eq!(said(validate_object_key("../x")), "corrupt data: invalid object key: ../x");
    assert_eq!(said(validate_object_key("")), "corrupt data: empty object key");
}

#[test]
fn damaged_queues_are_told_apart() {
    let mut queue = QueueFile::empty();
    queue.format_version = 9;
    assert_eq!(
        said(queue.validate()),
        "corrupt data: unsupported indexing queue format version 9"
    );
    let mut queue = QueueFile::empty();
    queue.enqueue("docs", WalCursor::new(0, 1), 1).unwrap();
    queue.jobs[0].id = 5;
    assert_eq!(
        said(queue.validate()),
        "corrupt data: indexing queue next job id 2 is not above live max id 5"
    );
    queue.next_job_id = 6;
    queue.jobs[0].namespace = "no/such".into();
    assert_eq!(
        said(queue.validate()),
        "corrupt data: indexing queue job 5 has an invalid namespace"
    );
    queue.jobs[0].namespace = "docs".into();
    queue.claim("w", 10, 1).unwrap();
    queue.jobs[0].attempts = 4;
    assert_eq!(
        said(queue.validate()),
        "corrupt data: indexing queue job 5 claim attempt 1 does not match attempts 4"
    );
    let (claimed, _) = queue.claim("w", 10, 100).unwrap().into_parts();
    let handle = claimed.unwrap().handle;
    assert_eq!(
        said(queue.heartbeat(&handle, 10, 999)),
        "invalid indexing queue claim: job 5 attempt 5 for worker \"w\": lease has expired"
    );
    queue.jobs[0].id = 0;
    assert_eq!(
        said(queue.validate()),
        "corrupt data: invalid or duplicate indexing queue job id 0"
    );
    assert_eq!(
        copy_batch_error(&Error::NotFound("q".into())).message(),
        "io error: indexing queue broker batch failed: object not found: q"
    );
}

#[test]
fn damaged_leases_and_pins_are_told_apart() {
    let mut file = MaintenanceLeaseFile::empty();
    file.format_version = 3;
    assert_eq!(
        said(file.validate()),
        "corrupt data: unsupported maintenance lease format version 3"
    );
    let mut pins = PinningFile::empty();
    pins.replicas = 5000;
    assert_eq!(
        said(pins.validate()),
        "corrupt data: pinning replicas 5000 exceeds maximum 1024"
    );
    let mut pins = PinningFile::empty();
    pins.configure(Some(2)).unwrap();
    pins.claim("docs", "n", 10, 1).unwrap();
    pins.assignments[0].utilization = Some(2.0f32.to_bits());
    assert_eq!(said(pins.validate()), "corrupt data: invalid pinning utilization in slot 0");
    pins.assignments[0].node_id = String::new();
    assert_eq!(said(pins.validate()), "corrupt data: invalid pinning assignment in slot 0");
    pins.assignments[0].slot = 7;
    assert_eq!(
        said(pins.validate()),
        "corrupt data: pinning slot 7 is outside configured replica count 2"
    );
    let claim = ReplicaClaim {
        namespace: "docs".into(),
        slot: 0,
        node_id: "n".into(),
        assignment_id: 3,
    };
    assert_eq!(
        said(validate_warm_input(&claim, "other", 10)),
        "invalid pinning claim: claim namespace \"docs\" does not match \"other\""
    );
}

#[test]
fn refused_values_are_told_with_their_types() {
    let op = |name: &str, value: Value| {
        let mut document = Document::new(Id::U64(1));
        document.attributes.insert(name.to_string(), value);
        WalOp::Upsert { id: Id::U64(1), document }
    };
    let mut schema = Schema::default();
    schema.infer_and_validate_ops(&[op("n", Value::Int(1))]).unwrap();
    schema.infer_and_validate_ops(&[op("l", Value::Array(vec![Value::Int(1)]))]).unwrap();
    let mut refuse = |name: &str, value| said(schema.infer_and_validate_ops(&[op(name, value)]));
    assert_eq!(
        refuse("n", Value::Bool(true)),
        "invalid schema: column 'n' expected Int, got Scalar(Bool)"
    );
    assert_eq!(
        refuse("n", Value::Array(vec![Value::Bool(true)])),
        "invalid schema: column 'n' expected Int, got Array(Bool)"
    );
    assert_eq!(
        refuse("l", Value::Int(1)),
        "invalid schema: column 'l' expected array of Int, got Scalar(Int)"
    );
    assert_eq!(
        refuse("l", Value::Array(vec![Value::Int(1), Value::Bool(true)])),
        "invalid schema: column 'l' expected array of Int, got array of Bool"
    );
    assert_eq!(
        refuse("x", Value::Array(vec![Value::Int(1), Value::Bool(true)])),
        "invalid schema: array attribute 'x' mixes Int and Bool"
    );
    assert_eq!(
        refuse("x", Value::Array(vec![Value::Null])),
        "invalid schema: array attribute 'x' must contain only non-null scalar values"
    );
    assert_eq!(
        refuse("x", Value::Array(vec![])),
        "invalid schema: cannot infer element type for empty array attribute 'x'"
    );
    assert_eq!(
        refuse("x", Value::Float(f64::NAN.to_bits())),
        "invalid schema: attribute 'x' contains a non-finite float"
    );
    assert_eq!(
        refuse("x", Value::Null),
        "invalid schema: attribute 'x' is null in a full document; omit it or patch null to clear"
    );

    let vector = |values: VectorValue| {
        let mut document = Document::new(Id::U64(1));
        document.vectors.insert("v".to_string(), values);
        WalOp::Upsert { id: Id::U64(1), document }
    };
    let one = 1.0f32.to_bits();
    schema.infer_and_validate_ops(&[vector(VectorValue::F32(vec![one, one]))]).unwrap();
    assert_eq!(
        said(schema.infer_and_validate_ops(&[vector(VectorValue::F32(vec![one]))])),
        "invalid schema: column 'v' expected \
         Vector { dim: 2, encoding: F32, metric: Cosine }, \
         got Vector { dim: 1, encoding: F32, metric: Cosine }"
    );
    assert_eq!(
        said(schema.infer_and_validate_ops(&[vector(VectorValue::F16(vec![0x7c00]))])),
        "invalid schema: vector column 'v' contains a non-finite f16"
    );
    assert_eq!(
        said(vector_column_schema(&schema, "n")),
        "invalid query: column 'n' is not a vector column: Scalar(Int)"
    );
    assert_eq!(
        said(vector_column_schema(&schema, "none")),
        "invalid query: unknown vector column 'none'"
    );
}

#[test]
fn refused_vectors_and_requests_are_told() {
    let one = 1.0f32.to_bits();
    assert_eq!(
        said(validate_query_vector(&vec![one], 2, "ANN query vector")),
        "invalid query: ANN query vector has dim 1, expected 2"
    );
    assert_eq!(
        said(validate_query_vector(&vec![f32::NAN.to_bits()], 1, "indexed vector")),
        "invalid query: indexed vector contains a non-finite value"
    );
    assert_eq!(
        said(validate_batch(&vec![one], &vec![vec![one]], 3)),
        "invalid query: score output has len 3, expected 1"
    );
    assert_eq!(
        said(validate_batch(&vec![f32::NAN.to_bits()], &vec![vec![one, one]], 1)),
        "invalid query: query and candidate vectors must have matching dimensions"
    );
    let request = |num, top_k| RecallRequest {
        column: None,
        num,
        top_k,
        filter: None,
        probes: None,
        metric: None,
    };
    assert!(check_recall_request(&request(1, 1)).is_ok());
    assert_eq!(
        said(check_recall_request(&request(0, 0))),
        "invalid query: recall num must be greater than zero"
    );
    assert_eq!(
        said(check_recall_request(&request(1, 0))),
        "invalid query: recall top_k must be greater than zero"
    );
    assert_eq!(
        said(recall_sample_of("v", vec![], 3)),
        "invalid query: recall column 'v' has no stored vectors"
    );
    assert_eq!(
        said(checked_u32(0x1_0000_0000, "key length")),
        "invalid write: sst key length exceeds u32 format limit"
    );
    let framed = frame::encode(b"MAGIC..1", 1, b"body").unwrap();
    assert_eq!(
        said(frame::decode(&framed, b"MAGIC..1", 2, "wal")),
        "corrupt data: unsupported wal version 1"
    );
    assert_eq!(said(frame::decode(&framed, b"OTHER..1", 1, "wal")), "corrupt data: bad wal magic");
}
