use sana::doc::{decode_id, encode_id};
use sana::error::Error;
use sana::frame::{decode, encode};
use sana::object_store::fs::validate_object_key;
use sana::object_store::s3::{
    after_compare_and_set, after_put_if_absent, backoff_delay, conditional_step,
    content_range_size, delete_succeeded, etag_version, if_match_value, is_retryable_status,
    list_objects, plan_range, range_step, read_step, reconcile, sends_again, CondDecision,
    CondOutcome, CondStep, PlainStep, RangePlan, RangeStep, S3Config, S3Env, RETRY_BASE_MS,
    RETRY_CAP_MS, WHOLE,
};
use sana::object_store::{
    check_range, legacy_version_of, version_matches, version_of, ObjectVersion,
};
use sana::sst::block::checked_u32;
use sana::sst::reader::{block_range, find_in_block, footer_range, index_range, SstReader};
use sana::sst::varint::{get_uvarint, put_uvarint};
use sana::sst::writer::{write_table, SstWriter};
use sana::value::{
    id_from_integer, id_from_text, parse_uuid_hyphenated, uuid_to_hyphenated, value_from_unsigned,
    Id, Value,
};

const MAGIC: &[u8; 8] = b"TESTFRM1";

#[test]
fn frame_round_trips_and_rejects_trailing_bytes() {
    let encoded = encode(MAGIC, 1, b"body").unwrap();
    assert_eq!(decode(&encoded, MAGIC, 1, "test").unwrap(), b"body");

    let mut trailing = encoded;
    trailing.push(0);
    assert!(matches!(
        decode(&trailing, MAGIC, 1, "test"),
        Err(Error::Corrupt(_))
    ));
}

#[test]
fn frame_rejects_a_changed_byte() {
    let encoded = encode(MAGIC, 1, b"body").unwrap();
    assert_eq!(encoded.len(), 24);
    for i in 0..encoded.len() {
        let mut broken = encoded.clone();
        broken[i] ^= 1;
        assert!(decode(&broken, MAGIC, 1, "test").is_err());
    }
    assert!(decode(&encoded, MAGIC, 2, "test").is_err());
    assert!(decode(&encoded[..10], MAGIC, 1, "test").is_err());
}

#[test]
fn u32_format_fields_reject_oversized_values() {
    if usize::BITS > 32 {
        let oversized = (u32::MAX as usize)
            .checked_add(1)
            .expect("usize is wider than u32");
        assert!(matches!(
            checked_u32(oversized, "test field"),
            Err(Error::InvalidWrite(_))
        ));
    }
    assert_eq!(checked_u32(u32::MAX as usize, "test field").unwrap(), u32::MAX);
}

#[test]
fn tables_give_back_what_was_written() {
    let mut writer = SstWriter::with_params(64, 3);
    let mut entries: Vec<(Vec<u8>, Vec<u8>)> = Vec::new();
    for i in 0u32..200 {
        let key = format!("key-{:05}", i * 2).into_bytes();
        let value = format!("value {i}").into_bytes();
        writer.add(&key, &value).unwrap();
        entries.push((key, value));
    }
    let bytes = writer.finish().unwrap();
    let reader = SstReader::open(bytes.clone()).unwrap();
    for (key, value) in &entries {
        assert_eq!(reader.get(key).unwrap().as_ref(), Some(value));
    }
    assert_eq!(reader.get(b"key-00001").unwrap(), None);
    assert_eq!(reader.get(b"zzz").unwrap(), None);
    assert_eq!(reader.entries().unwrap(), entries);

    // The same lookup by ranges of the file.
    let size = bytes.len() as u64;
    let (from, to) = footer_range(size).unwrap();
    let tail = &bytes[from as usize..to as usize];
    let (footer, from, to) = index_range(size, tail).unwrap();
    let index = &bytes[from as usize..to as usize];
    let key = b"key-00100";
    let (from, to) = block_range(&footer, index, key).unwrap().unwrap();
    let block = &bytes[from as usize..to as usize];
    assert_eq!(
        find_in_block(block, key).unwrap().unwrap(),
        b"value 50".to_vec()
    );
    assert_eq!(block_range(&footer, index, b"zzz").unwrap(), None);
}

#[test]
fn tables_refuse_keys_out_of_order_and_damage() {
    let mut writer = SstWriter::new();
    writer.add(b"b", b"1").unwrap();
    assert!(writer.add(b"b", b"2").is_err());
    assert!(writer.add(b"a", b"2").is_err());

    let bytes = write_table(&[(b"a".to_vec(), b"1".to_vec()), (b"b".to_vec(), b"2".to_vec())]).unwrap();
    let mut broken = bytes.clone();
    broken[3] ^= 0xff;
    let reader = SstReader::open(broken);
    assert!(match reader {
        Ok(reader) => matches!(reader.get(b"a"), Err(Error::Corrupt(_))),
        Err(Error::Corrupt(_)) => true,
        Err(_) => false,
    });
    assert!(matches!(SstReader::open(bytes[..10].to_vec()), Err(Error::Corrupt(_))));
    assert!(matches!(SstReader::open(Vec::new()), Err(Error::Corrupt(_))));
}

#[test]
fn varints_round_trip() {
    for v in [0u64, 1, 127, 128, 300, u32::MAX as u64, u64::MAX] {
        let mut buf = Vec::new();
        put_uvarint(&mut buf, v);
        let mut pos = 0;
        assert_eq!(get_uvarint(&buf, &mut pos).unwrap(), v);
        assert_eq!(pos, buf.len());
    }
    let mut buf = Vec::new();
    put_uvarint(&mut buf, 300);
    assert_eq!(buf, vec![0xac, 0x02]);
    let mut pos = 0;
    assert!(get_uvarint(&[0x80], &mut pos).is_err());
}

#[test]
fn id_bytes_round_trip_and_keep_order() {
    let ids = [
        Id::U64(0),
        Id::U64(255),
        Id::U64(256),
        Id::Uuid([0; 16]),
        Id::Uuid([9; 16]),
        Id::String("".into()),
        Id::String("a".into()),
        Id::String("b".into()),
    ];
    for id in &ids {
        assert_eq!(&decode_id(&encode_id(id)).unwrap(), id);
    }
    for pair in ids.windows(2) {
        assert!(encode_id(&pair[0]) < encode_id(&pair[1]));
    }
    assert!(decode_id(&[]).is_err());
    assert!(decode_id(&[7, 1]).is_err());
    assert!(decode_id(&[0, 1]).is_err());
    assert!(decode_id(&[2, 0xff]).is_err());
}

#[test]
fn uuids_read_back_from_their_text() {
    let bytes = [
        0x12, 0x3e, 0x45, 0x67, 0xe8, 0x9b, 0x12, 0xd3, 0xa4, 0x56, 0x42, 0x66, 0x14, 0x17, 0x40,
        0x00,
    ];
    let text = uuid_to_hyphenated(&bytes);
    assert_eq!(text, "123e4567-e89b-12d3-a456-426614174000");
    assert_eq!(parse_uuid_hyphenated(&text), Some(bytes));
    assert_eq!(id_from_text(&text), Id::Uuid(bytes));
    assert_eq!(id_from_text("alpha"), Id::String("alpha".into()));
    assert_eq!(parse_uuid_hyphenated("123e4567e89b12d3a456426614174000"), None);
}

#[test]
fn numbers_become_keys_and_values() {
    assert_eq!(id_from_integer(7), Some(Id::U64(7)));
    assert_eq!(id_from_integer(-1), None);
    assert!(matches!(value_from_unsigned(7), Some(Value::Int(7))));
    assert!(value_from_unsigned(u64::MAX).is_none());
}

#[test]
fn content_versions_are_stable_and_legacy_compatible() {
    assert_eq!(
        version_of(b"hello world"),
        ObjectVersion(
            "sha256-b94d27b9934d3e08a52e52d7da7dabfac484efe37a5380ee9088f7ace2efcde9".into()
        )
    );
    assert_eq!(
        legacy_version_of(b"hello world"),
        ObjectVersion("846d8f5b292efb98".into())
    );
    assert!(version_matches(
        &legacy_version_of(b"hello world"),
        &version_of(b"hello world"),
        b"hello world"
    ));
    assert!(!legacy_version_of(b"hello world").matches_content(b"different"));
}

#[test]
fn object_ranges_and_keys_are_checked() {
    assert!(check_range(2, 6, 10).is_ok());
    assert!(matches!(
        check_range(8, 12, 10),
        Err(Error::InvalidRange { start: 8, end: 12, size: 10 })
    ));
    assert!(check_range(6, 2, 10).is_err());
    assert!(validate_object_key("namespaces/a/manifest/current").is_ok());
    assert!(validate_object_key("a/../b").is_err());
    assert!(validate_object_key("").is_err());
}

fn no_env() -> S3Env {
    S3Env { region: None, default_region: None, endpoint: None, path_style: None }
}

#[test]
fn location_parses_bucket_and_prefix() {
    let config = S3Config::from_location("s3://my-bucket", &no_env()).unwrap();
    assert_eq!(config.bucket, "my-bucket");
    assert_eq!(config.key_prefix, "");

    let config = S3Config::from_location("s3://my-bucket/tenants/a/", &no_env()).unwrap();
    assert_eq!(config.bucket, "my-bucket");
    assert_eq!(config.key_prefix, "tenants/a/");

    assert!(S3Config::from_location("s3://", &no_env()).is_err());
    assert!(S3Config::from_location("/local/dir", &no_env()).is_err());
}

#[test]
fn settings_of_the_environment_are_used() {
    let config = S3Config::from_location("s3://b", &no_env()).unwrap();
    assert_eq!(config.endpoint, "https://s3.us-east-1.amazonaws.com");
    assert!(!config.path_style);
    let env = S3Env {
        region: Some("eu-west-1".into()),
        default_region: None,
        endpoint: Some("http://127.0.0.1:9000".into()),
        path_style: None,
    };
    let config = S3Config::from_location("s3://b", &env).unwrap();
    assert_eq!(config.region, "eu-west-1");
    assert_eq!(config.endpoint, "http://127.0.0.1:9000");
    assert!(config.path_style);
}

#[test]
fn keys_are_prefixed_and_etags_unquoted() {
    let config = S3Config {
        endpoint: "http://127.0.0.1:9000".into(),
        region: "us-east-1".into(),
        bucket: "sana".into(),
        key_prefix: "tenants/a/".into(),
        path_style: true,
    };
    assert_eq!(
        config.full_key("namespaces/docs/manifest/current"),
        "tenants/a/namespaces/docs/manifest/current"
    );
    assert_eq!(
        config.object_key("tenants/a/namespaces/docs/manifest/current"),
        "namespaces/docs/manifest/current"
    );
    assert_eq!(
        etag_version("\"abc123\""),
        ObjectVersion("abc123".to_string())
    );
    assert_eq!(if_match_value(&ObjectVersion("abc123".into())), "\"abc123\"");
    assert_eq!(content_range_size("bytes 0-1/42"), Some(42));
    assert_eq!(content_range_size("bytes 0-1/*"), None);
}

#[test]
fn retryable_status_classification() {
    for code in [500u16, 502, 503, 504] {
        assert!(is_retryable_status(code));
    }
    for code in [200u16, 204, 206, 404, 409, 412, 501, 505] {
        assert!(!is_retryable_status(code));
    }
}

#[test]
fn backoff_is_bounded_and_monotone() {
    let ms = 1_000_000;
    // No jitter sleeps for nothing.
    assert_eq!(backoff_delay(0, 0), 0);
    // The first attempt's ceiling is the base delay.
    assert!(backoff_delay(0, WHOLE) <= RETRY_BASE_MS * ms);
    // It grows with the attempt at fixed jitter...
    assert!(backoff_delay(2, WHOLE) >= backoff_delay(1, WHOLE));
    // ...and within an attempt with jitter...
    assert!(backoff_delay(3, 750_000_000) >= backoff_delay(3, 250_000_000));
    // ...but never exceeds the cap, even far past the doubling range.
    assert!(backoff_delay(40, WHOLE) <= RETRY_CAP_MS * ms);
    assert!(backoff_delay(u32::MAX, WHOLE) <= RETRY_CAP_MS * ms);
    assert_eq!(backoff_delay(0, WHOLE), 50 * ms);
    assert_eq!(backoff_delay(2, 500_000_000), 100 * ms);
}

#[test]
fn requests_are_repeated_within_a_budget() {
    assert!(sends_again(0, Some(503)));
    assert!(sends_again(0, None));
    assert!(!sends_again(0, Some(404)));
    assert!(!sends_again(1_000, Some(503)));
}

#[test]
fn put_if_absent_reconciles_ambiguous_success() {
    // The first attempt stored the object but its reply was lost; the second is told
    // that the object exists.
    assert_eq!(conditional_step(412, true), CondStep::Reconcile);
    let mine = b"mine";
    match reconcile(mine, Some((mine, ObjectVersion("v1".into())))) {
        CondOutcome::Stored(v) => assert_eq!(v, ObjectVersion("v1".into())),
        _ => panic!("the object is ours"),
    }
}

#[test]
fn put_if_absent_reports_real_conflict_without_extra_get() {
    assert_eq!(conditional_step(412, false), CondStep::Refused);
    assert!(matches!(
        after_put_if_absent("k", 0, CondOutcome::PreconditionFailed(None)),
        CondDecision::Done(Err(Error::AlreadyExists(_)))
    ));
}

#[test]
fn compare_and_set_reports_mismatch_when_bytes_differ() {
    let outcome = reconcile(b"mine", Some((b"other", ObjectVersion("v2".into()))));
    let expected = ObjectVersion("v1".into());
    match after_compare_and_set("k", &expected, 0, outcome) {
        CondDecision::Done(Err(Error::CasMismatch { key, expected, actual })) => {
            assert_eq!(key, "k");
            assert_eq!(expected, "v1");
            assert_eq!(actual, Some("v2".to_string()));
        }
        _ => panic!("a mismatch is reported"),
    }
}

#[test]
fn ranges_are_planned_and_answers_judged() {
    assert!(matches!(plan_range(2, 6), RangePlan::Fetch { first: 2, last: 5 }));
    assert!(matches!(plan_range(6, 2), RangePlan::Backwards));
    assert!(matches!(plan_range(4, 4), RangePlan::Empty));
    assert!(matches!(range_step(206, 2, 6, 4, Some(10)), RangeStep::Body));
    assert!(matches!(read_step(200), PlainStep::Done));
    assert!(matches!(read_step(404), PlainStep::NotFound));
    assert!(matches!(read_step(500), PlainStep::Unexpected));
    assert!(delete_succeeded(204));
    assert!(!delete_succeeded(500));
}

#[test]
fn list_retries_then_parses() {
    let xml = "<?xml version=\"1.0\" encoding=\"UTF-8\"?>\
<ListBucketResult xmlns=\"http://s3.amazonaws.com/doc/2006-03-01/\">\
<Name>b</Name><Prefix></Prefix><KeyCount>1</KeyCount><MaxKeys>1000</MaxKeys>\
<IsTruncated>false</IsTruncated>\
<Contents><Key>k</Key><LastModified>2024-01-01T00:00:00.000Z</LastModified>\
<ETag>\"v\"</ETag><Size>3</Size><StorageClass>STANDARD</StorageClass></Contents>\
</ListBucketResult>";
    let config = S3Config {
        endpoint: "http://127.0.0.1:9000".into(),
        region: "us-east-1".into(),
        bucket: "b".into(),
        key_prefix: String::new(),
        path_style: true,
    };
    let replies = [(503u16, "SlowDown"), (200u16, xml)];
    let mut attempt = 0u32;
    while sends_again(attempt, Some(replies[attempt as usize].0)) {
        attempt += 1;
    }
    assert_eq!(attempt, 1);
    let (status, text) = replies[attempt as usize];
    assert!(matches!(read_step(status), PlainStep::Done));
    let (listed, next) = list_objects(&config, text).unwrap();
    assert_eq!(listed.len(), 1);
    assert_eq!(listed[0].key, "k");
    assert_eq!(listed[0].size, 3);
    assert_eq!(listed[0].version, ObjectVersion("v".into()));
    assert_eq!(next, None);
}

#[test]
fn listings_drop_the_prefix() {
    let config = S3Config {
        endpoint: "http://127.0.0.1:9000".into(),
        region: "us-east-1".into(),
        bucket: "sana".into(),
        key_prefix: "p/".into(),
        path_style: true,
    };
    let text = "<?xml version=\"1.0\" encoding=\"UTF-8\"?>\
        <ListBucketResult xmlns=\"http://s3.amazonaws.com/doc/2006-03-01/\">\
        <Name>sana</Name><Prefix>p/</Prefix><KeyCount>1</KeyCount><MaxKeys>1000</MaxKeys>\
        <IsTruncated>false</IsTruncated>\
        <Contents><Key>p/a/b</Key><LastModified>2024-01-01T00:00:00.000Z</LastModified>\
        <ETag>\"e1\"</ETag><Size>5</Size><StorageClass>STANDARD</StorageClass></Contents>\
        </ListBucketResult>";
    let (objects, next) = list_objects(&config, text).unwrap();
    assert_eq!(objects.len(), 1);
    assert_eq!(objects[0].key, "a/b");
    assert_eq!(objects[0].size, 5);
    assert_eq!(objects[0].version, ObjectVersion("e1".into()));
    assert_eq!(next, None);
    assert!(matches!(
        list_objects(&config, "not xml"),
        Err(Error::Corrupt(m)) if m.starts_with("S3 list response: ")
    ));
}
