use sana::attr::{attr_key, decode_value_from_key, scalar_key};
use sana::error::Error;
use sana::metrics::ObjectStoreMetrics;
use sana::object_store::metered::{count_attempt, count_outcome, CallOutcome, StoreCall};
use sana::schema::Schema;
use sana::sst::reader::SstReader;
use sana::sst::writer::SstWriter;
use sana::text::analyze_tokens;
use sana::textmap::TextMap;
use sana::value::{Document, Id, Value};
use sana::wal::WalOp;

fn key(text: &str) -> Vec<u8> {
    scalar_key(&Value::String(text.to_string())).unwrap().unwrap()
}

#[test]
fn text_keys_keep_order_and_end_themselves() {
    let texts = ["", "\0", "\0\0", "\0a", "\u{1}", "a", "a\0", "a\0b", "aa", "b", "\u{e9}"];
    for (i, a) in texts.iter().enumerate() {
        for (j, b) in texts.iter().enumerate() {
            assert_eq!(key(a).cmp(&key(b)), i.cmp(&j));
            assert_eq!(key(b).starts_with(&key(a)), i == j);
        }
        let mut followed = key(a);
        followed.extend_from_slice(&[0, 0xff, 7]);
        let read = decode_value_from_key(&followed).unwrap();
        assert!(matches!(read, Some(Value::String(s)) if s == *a));
    }
    assert!(attr_key("c", &Value::String("a".into())).unwrap().ends_with(&key("a")));
}

fn table(target: usize, interval: usize) -> Vec<u8> {
    let mut writer = SstWriter::with_params(target, interval);
    for i in 0..40u8 {
        writer.add(&[b'k', i / 10, i % 10], &[i; 5]).unwrap();
    }
    writer.finish().unwrap()
}

#[test]
fn a_restart_interval_of_zero_acts_as_one() {
    for target in [0, 1, 64, 4096] {
        assert_eq!(table(target, 0), table(target, 1));
    }
    assert_ne!(table(4096, 1), table(4096, 16));
    assert!(table(4096, 16).len() < table(4096, 1).len());
    let reader = SstReader::open(table(64, 0)).unwrap();
    assert_eq!(reader.get(&[b'k', 1, 2]).unwrap().unwrap(), [12; 5]);
}

#[test]
fn token_order_does_not_matter() {
    let list = |words: &[&str]| -> Vec<String> { words.iter().map(|w| w.to_string()).collect() };
    let a = analyze_tokens(&list(&["fox", "the", "fox", "a", "the", "fox"]));
    let b = analyze_tokens(&list(&["a", "fox", "fox", "fox", "the", "the"]));
    assert_eq!(a, b);
    assert_eq!(a.doc_len, 6);
    let counts: Vec<(&str, u32)> =
        a.terms.iter().map(|t| (t.term.as_str(), t.frequency)).collect();
    assert_eq!(counts, [("a", 1), ("fox", 3), ("the", 2)]);
    assert_eq!(a.terms.iter().map(|t| t.frequency).sum::<u32>(), a.doc_len);
}

#[test]
fn refused_values_leave_the_columns_alone() {
    let patch = |name: &str, value: Value| {
        let mut attributes = TextMap::new();
        attributes.insert(name.to_string(), value);
        vec![WalOp::Patch { id: Id::U64(1), attributes, vectors: TextMap::new() }]
    };
    let mut schema = Schema::default();
    assert!(!schema.infer_and_validate_ops(&patch("a", Value::Null)).unwrap());
    assert_eq!((schema.columns.len(), schema.version), (0, 0));

    let mut document = Document::new(Id::U64(1));
    document.attributes.insert("a".to_string(), Value::Null);
    let upsert = vec![WalOp::Upsert { id: Id::U64(1), document }];
    assert!(matches!(schema.infer_and_validate_ops(&upsert), Err(Error::InvalidSchema(_))));
    assert_eq!((schema.columns.len(), schema.version), (0, 0));

    assert!(schema.infer_and_validate_ops(&patch("a", Value::Bool(true))).unwrap());
    let refused = schema.infer_and_validate_ops(&patch("a", Value::Int(1)));
    assert!(matches!(refused, Err(Error::InvalidSchema(_))));
    assert_eq!((schema.columns.len(), schema.version), (1, 1));

    // What comes before the refused value, in the order of the names, is there.
    let mut attributes = TextMap::new();
    attributes.insert("0".to_string(), Value::Int(1));
    attributes.insert("a".to_string(), Value::Int(1));
    attributes.insert("z".to_string(), Value::Int(1));
    let mixed = vec![WalOp::Patch { id: Id::U64(1), attributes, vectors: TextMap::new() }];
    assert!(schema.infer_and_validate_ops(&mixed).is_err());
    assert!(schema.columns.get("0").is_some() && schema.columns.get("z").is_none());
    assert_eq!(schema.version, 1);
}

#[test]
fn counts_requests_and_bytes() {
    let mut m = ObjectStoreMetrics::default();
    let mut call = |kind: StoreCall, bytes: u64| {
        count_attempt(&mut m, kind);
        count_outcome(&mut m, kind, CallOutcome::Done, bytes, 10);
    };
    call(StoreCall::Put, 5);
    call(StoreCall::Get, 5);
    call(StoreCall::GetRange, 2);
    call(StoreCall::List, 0);
    call(StoreCall::Delete, 0);
    assert_eq!((m.puts, m.gets, m.get_ranges, m.lists, m.deletes), (1, 1, 1, 1, 1));
    assert_eq!((m.put_bytes, m.get_bytes, m.range_bytes), (5, 5, 2));
    assert_eq!(m.request_latency.buckets.iter().sum::<u64>(), 5);
}

#[test]
fn counts_cas_mismatches() {
    let mut m = ObjectStoreMetrics::default();
    let mut call = |kind: StoreCall, outcome: CallOutcome| {
        count_attempt(&mut m, kind);
        count_outcome(&mut m, kind, outcome, 2, 10);
    };
    call(StoreCall::PutIfAbsent, CallOutcome::Done);
    call(StoreCall::CompareAndSet, CallOutcome::Done);
    call(StoreCall::CompareAndSet, CallOutcome::Mismatch);
    call(StoreCall::Put, CallOutcome::Failed);
    assert_eq!((m.puts_if_absent, m.compare_and_sets, m.puts), (1, 2, 1));
    assert_eq!(m.cas_mismatches, 1);
    // Only payloads that went through count.
    assert_eq!(m.put_bytes, 4);
}
