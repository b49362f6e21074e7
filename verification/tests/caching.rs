use sana::cache_warm::{cache_warm_plan, check_loaded_size, CacheObjectKind, CacheWarmOptions};
use sana::error::Error;
use sana::manifest::{ManifestPointer, NamespaceManifest, SstMeta};
use sana::object_store::cache::{is_cacheable, CacheState};
use sana::object_store::check_range;

#[test]
fn immutable_objects_are_cached_but_mutable_pointers_bypass() {
    let immutable = "namespaces/a/index/g/1/doc.sst";
    let mutable = "namespaces/a/manifest/current";
    assert!(is_cacheable(immutable));
    assert!(!is_cacheable(mutable));

    let mut cache: CacheState<Vec<u8>> = CacheState::new(1024);
    assert!(cache.get(immutable).is_none());
    cache.record_miss();
    cache.insert(immutable.to_string(), b"index".to_vec(), 5);
    assert_eq!(cache.get(immutable), Some(&b"index".to_vec()));
    cache.record_bypass();
    cache.record_bypass();

    let stats = cache.stats();
    assert_eq!(stats.entries, 1);
    assert_eq!(stats.hits, 1);
    assert_eq!(stats.misses, 1);
    assert_eq!(stats.bypasses, 2);
}

#[test]
fn ranged_reads_use_a_resident_full_object() {
    let key = "namespaces/a/index/g/1/doc.sst";
    let mut cache: CacheState<Vec<u8>> = CacheState::new(1024);
    cache.insert(key.to_string(), b"0123456789".to_vec(), 10);
    let object = cache.get(key).unwrap();
    assert!(check_range(2, 6, object.len() as u64).is_ok());
    assert_eq!(&object[2..6], b"2345");
    assert!(matches!(
        check_range(8, 12, object.len() as u64),
        Err(Error::InvalidRange { .. })
    ));
}

#[test]
fn byte_capacity_evicts_least_recently_used_entry() {
    let first = "namespaces/a/index/g/1/first.sst";
    let second = "namespaces/a/index/g/1/second.sst";
    let mut cache: CacheState<u8> = CacheState::new(4);
    for key in [first, second, second, first] {
        if cache.get(key).is_none() {
            cache.record_miss();
            cache.insert(key.to_string(), 0, 3);
        }
    }
    let stats = cache.stats();
    assert_eq!(stats.entries, 1);
    assert_eq!(stats.resident_bytes, 3);
    assert_eq!(stats.hits, 1);
    assert_eq!(stats.misses, 3);
    assert_eq!(stats.evictions, 2);
}

#[test]
fn oversized_object_is_not_admitted() {
    let key = "namespaces/a/index/g/1/large.sst";
    let mut cache: CacheState<u8> = CacheState::new(4);
    for _ in 0..2 {
        assert!(cache.get(key).is_none());
        cache.record_miss();
        cache.insert(key.to_string(), 0, 5);
    }
    let stats = cache.stats();
    assert_eq!(stats.entries, 0);
    assert_eq!(stats.misses, 2);
    assert_eq!(stats.admission_rejections, 2);
}

#[test]
fn delete_through_cache_invalidates_resident_object() {
    let key = "namespaces/a/index/g/1/deleted.sst";
    let mut cache: CacheState<u8> = CacheState::new(1024);
    cache.insert(key.to_string(), 0, 4);
    cache.invalidate(key);
    assert!(cache.get(key).is_none());
    assert_eq!(cache.stats().entries, 0);
    cache.insert(key.to_string(), 0, 4);
    cache.clear();
    assert_eq!(cache.stats().resident_bytes, 0);
}

fn table(key: &str, size_bytes: u64) -> SstMeta {
    SstMeta { key: key.to_string(), size_bytes, row_count: 1, min_id: None, max_id: None }
}

#[test]
fn warming_stays_within_its_budget() {
    let mut manifest = NamespaceManifest::new("docs", 1);
    manifest.doc_ssts.push(table("d1", 50));
    manifest.attr_ssts.push(table("a1", 30));
    manifest.text_ssts.push(table("t1", 10));
    let plan = cache_warm_plan("docs", &ManifestPointer::new(3), &manifest, 20, 60);
    assert!(plan.planned_bytes <= 60);
    assert_eq!(plan.objects[0].kind, CacheObjectKind::Manifest);
    let total: u64 = plan.objects.iter().map(|o| o.size_bytes).sum();
    assert_eq!(total, plan.planned_bytes);
    assert_eq!(plan.planned_bytes + plan.skipped_bytes, 110);
    assert_eq!(plan.objects.len() + plan.skipped_objects, 4);

    assert_eq!(check_loaded_size(&plan.objects[0], 20).unwrap(), 20);
    assert!(matches!(check_loaded_size(&plan.objects[0], 21), Err(Error::Corrupt(_))));
    assert!(CacheWarmOptions::default().validate().is_ok());
    assert!(CacheWarmOptions { max_bytes: 1, max_concurrency: 0 }.validate().is_err());
    assert!(CacheWarmOptions { max_bytes: 1, max_concurrency: 257 }.validate().is_err());
}
