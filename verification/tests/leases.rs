use sana::arithmetic::Step;
use sana::error::Error;
use sana::maintenance::{
    default_maintenance_owner_id, plan_gc, MaintenanceLeaseFile, MaintenanceReport, MaintenanceState, MaintenancePolicy,
};
use sana::manifest::{ManifestPointer, NamespaceManifest};
use sana::pinning::{PinningFile, ReplicaClaim, ReplicaStatus};
use sana::reader_lease::{
    default_reader_owner_id,
    protect_snapshot, reader_overlay_wal_keys, snapshot_from_manifest, ReaderLeaseFile,
    ReaderLeaseState,
};
use sana::textmap::TextSet;
use sana::wal::WalCursor;

fn calc(step: Step) -> u32 {
    let f = f32::from_bits;
    match step {
        Step::Add(a, b) => (f(a) + f(b)).to_bits(),
        Step::Div(a, b) => (f(a) / f(b)).to_bits(),
        Step::Count(n) => (n as f32).to_bits(),
        _ => unreachable!(),
    }
}

fn set(items: &[&str]) -> TextSet {
    let mut s = TextSet::new();
    for item in items {
        s.insert(item.to_string());
    }
    s
}

#[test]
fn maintenance_lease_is_exclusive_until_expiry() {
    let mut file = MaintenanceLeaseFile::empty();
    let first = file.claim("a", 100, 10).unwrap().into_parts().0.unwrap();
    assert_eq!(first.fencing_token, 1);
    assert_eq!(first.lease_expires_at_ms, 110);
    assert!(file.claim("b", 100, 20).unwrap().into_parts().0.is_none());

    let renewed = file.claim("a", 100, 30).unwrap().into_parts().0.unwrap();
    assert_eq!(renewed.fencing_token, first.fencing_token);
    assert_eq!(renewed.lease_expires_at_ms, 130);

    let replacement = file.claim("b", 100, 130).unwrap().into_parts().0.unwrap();
    assert_eq!(replacement.fencing_token, 2);
    assert_eq!(replacement.owner_id, "b");
    assert!(file.validate().is_ok());
}

#[test]
fn stale_maintenance_owner_cannot_heartbeat_or_release() {
    let mut file = MaintenanceLeaseFile::empty();
    let old = file.claim("old", 10, 100).unwrap().into_parts().0.unwrap();
    assert!(matches!(file.release(&old, 110), Err(Error::InvalidMaintenanceLease(_))));
    let replacement = file.claim("new", 10, 110).unwrap().into_parts().0.unwrap();

    assert!(matches!(
        file.heartbeat(&old, 10, 111),
        Err(Error::InvalidMaintenanceLease(_))
    ));
    assert!(matches!(file.release(&old, 111), Err(Error::InvalidMaintenanceLease(_))));
    file.heartbeat(&replacement, 10, 111).unwrap();
    file.release(&replacement, 112).unwrap();
    assert!(file.owner.is_none());
}

#[test]
fn maintenance_leases_refuse_bad_input() {
    let mut file = MaintenanceLeaseFile::empty();
    assert!(matches!(file.claim("", 10, 1), Err(Error::InvalidMaintenanceLease(_))));
    assert!(matches!(file.claim("a", 0, 1), Err(Error::InvalidMaintenanceLease(_))));
}

#[test]
fn leased_maintenance_skips_when_another_leader_is_live() {
    let mut file = MaintenanceLeaseFile::empty();
    file.claim("leader", 10_000, 1).unwrap();
    assert!(file.claim("other", 10_000, 2).unwrap().into_parts().0.is_none());
    let report = MaintenanceReport::skipped();
    assert!(report.skipped_leader_lease);
    assert_eq!(report.scanned_namespaces, 0);
    assert!(!MaintenancePolicy::default().gc);
}

#[test]
fn objects_are_deleted_only_when_two_passes_agree() {
    let mut state = MaintenanceState::default();
    let orphans = set(&["a", "b"]);
    let prior = state.take("docs");
    let plan = plan_gc(&orphans, &prior);
    assert_eq!(plan.delete.len(), 0);
    assert_eq!(plan.pending.len(), 2);
    state.remember("docs", plan.pending);

    let prior = state.take("docs");
    let plan = plan_gc(&set(&["b", "c"]), &prior);
    assert_eq!(plan.delete.len(), 1);
    assert!(plan.delete.contains("b"));
    assert!(plan.pending.contains("c"));
    state.remember("docs", plan.pending);
    state.retain(&set(&["other"]));
    assert_eq!(state.take("docs").len(), 0);
}

fn claim(file: &mut PinningFile, node: &str, lease: u64, now: u64) -> Option<ReplicaClaim> {
    file.claim("alpha", node, lease, now).unwrap().into_parts().0
}

#[test]
fn ready_replicas_route_only_matching_manifest_generation() {
    let half: f32 = 0.5;
    let more: f32 = 0.7;
    let mut file = PinningFile::empty();
    file.configure(Some(2)).unwrap();
    let first = claim(&mut file, "node-a", 100, 10).unwrap();
    let second = claim(&mut file, "node-b", 100, 10).unwrap();
    assert!(claim(&mut file, "node-c", 100, 10).is_none());

    file.heartbeat(&first, ReplicaStatus::Ready, 0, Some(half.to_bits()), 100, 20).unwrap();
    file.heartbeat(&second, ReplicaStatus::Ready, 0, Some(more.to_bits()), 100, 20).unwrap();
    let metadata = file.metadata(0, 30).unwrap();
    assert_eq!(metadata.replicas, 2);
    assert_eq!(metadata.assigned_replicas, 2);
    assert_eq!(metadata.ready_replicas, 2);
    assert_eq!(metadata.utilizations, vec![half.to_bits(), more.to_bits()]);
    let average = f32::from_bits(metadata.average_utilization(calc).unwrap());
    assert!((average - 0.6).abs() < 1e-6);

    let route = file.route("alpha", b"request-1", 0, 30).unwrap();
    assert!(route.node_id == "node-a" || route.node_id == "node-b");
    let again = file.route("alpha", b"request-1", 0, 30).unwrap();
    assert_eq!(again.node_id, route.node_id);
    assert_eq!(again.slot, route.slot);
    assert!(file.route("alpha", b"request-1", 1, 30).is_none());
}

#[test]
fn expired_lease_is_reassigned_and_stale_node_is_fenced() {
    let mut file = PinningFile::empty();
    file.configure(Some(1)).unwrap();
    let old = claim(&mut file, "old", 10, 100).unwrap();
    let replacement = claim(&mut file, "new", 10, 110).unwrap();
    assert_eq!(replacement.slot, old.slot);
    assert_ne!(replacement.assignment_id, old.assignment_id);
    assert!(matches!(
        file.heartbeat(&old, ReplicaStatus::Ready, 0, None, 10, 111),
        Err(Error::InvalidPinningClaim(_))
    ));
    file.release(&replacement).unwrap();
    assert_eq!(file.metadata(0, 112).unwrap().assigned_replicas, 0);
}

#[test]
fn scale_down_and_unpin_remove_excess_assignments() {
    let mut file = PinningFile::empty();
    file.configure(Some(3)).unwrap();
    for node in ["a", "b", "c"] {
        assert!(claim(&mut file, node, 100, 10).is_some());
    }
    file.configure(Some(1)).unwrap();
    let metadata = file.metadata(0, 20).unwrap();
    assert_eq!(metadata.replicas, 1);
    assert_eq!(metadata.assigned_replicas, 1);

    file.configure(None).unwrap();
    assert!(file.metadata(0, 20).is_none());
    assert!(file.route("alpha", b"request", 0, 20).is_none());
}

#[test]
fn concurrent_claimers_fill_each_slot_once() {
    let mut file = PinningFile::empty();
    file.configure(Some(4)).unwrap();
    let mut slots = Vec::new();
    let mut ids = Vec::new();
    for index in 0..16 {
        if let Some(claim) = claim(&mut file, &format!("node-{index}"), 100, 10) {
            slots.push(claim.slot);
            ids.push(claim.assignment_id);
        }
    }
    slots.sort();
    ids.sort();
    ids.dedup();
    assert_eq!(slots, vec![0, 1, 2, 3]);
    assert_eq!(ids.len(), 4);
    assert!(file.validate().is_ok());
}

#[test]
fn pinning_refuses_bad_input() {
    let mut file = PinningFile::empty();
    assert!(file.configure(Some(0)).is_err());
    assert!(file.configure(Some(100_000)).is_err());
    file.configure(Some(1)).unwrap();
    assert!(file.claim("alpha", "", 10, 1).is_err());
    assert!(file.claim("alpha", "n", 0, 1).is_err());
    let held = claim(&mut file, "n", 10, 1).unwrap();
    let nan: f32 = f32::NAN;
    assert!(file
        .heartbeat(&held, ReplicaStatus::Ready, 0, Some(nan.to_bits()), 10, 2)
        .is_err());
}

#[test]
fn readers_protect_what_they_see() {
    let mut manifest = NamespaceManifest::new("docs", 1);
    manifest.indexed_cursor = Some(WalCursor::new(0, 1));
    let pointer = ManifestPointer::new(0);
    let snapshot = snapshot_from_manifest("docs", &pointer, &manifest, WalCursor::new(0, 3));
    assert!(snapshot.validate().is_ok());

    let mut state = ReaderLeaseState::new();
    state.add(&snapshot);
    state.add(&snapshot);
    assert_eq!(state.snapshots().len(), 1);
    state.remove(&snapshot);
    assert_eq!(state.snapshots().len(), 1);
    state.remove(&snapshot);
    assert_eq!(state.snapshots().len(), 0);

    let keys = reader_overlay_wal_keys(&snapshot).unwrap();
    assert_eq!(keys.len(), 2);
    assert!(keys.contains("namespaces/docs/wal/0/2.wal"));
    assert!(keys.contains("namespaces/docs/wal/0/3.wal"));

    let mut live = TextSet::new();
    protect_snapshot(&mut live, &snapshot, &manifest).unwrap();
    assert!(live.contains("namespaces/docs/wal/0/3.wal"));

    let file = ReaderLeaseFile::first("reader", &vec![snapshot], 100, 10).unwrap();
    assert!(file.validate().is_ok());
    assert_eq!(file.live_snapshots("docs", 50).len(), 1);
    assert_eq!(file.live_snapshots("other", 50).len(), 0);
    assert_eq!(file.live_snapshots("docs", 110).len(), 0);
    let next = file.renewed("reader", &Vec::new(), 100, 60).unwrap();
    assert_eq!(next.revision, file.revision + 1);
    assert!(matches!(
        file.renewed("other", &Vec::new(), 100, 60),
        Err(Error::Corrupt(_))
    ));
}

#[test]
fn processes_are_named_after_their_machine() {
    assert_eq!(default_maintenance_owner_id("serve", Some("pod"), Some("host"), 7), "serve-pod-7");
    assert_eq!(default_maintenance_owner_id("serve", Some(""), Some("host"), 7), "serve-host-7");
    assert_eq!(default_maintenance_owner_id("serve", None, None, 7), "serve-7");
    assert_eq!(default_reader_owner_id("query", Some(""), Some("host"), 9), "query-host-9");
}
