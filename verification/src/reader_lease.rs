//! Leases of readers: which snapshots are being read, so that their objects are not
//! removed.

use vstd::prelude::*;
use vstd::string::*;

use crate::documents;
use crate::phrase;
use crate::phrase::say;
use crate::wal;
use crate::strings;
use crate::namespace;
use crate::manifest;
use crate::error::{corrupt, Error};
use crate::maintenance;
use crate::maintenance::default_maintenance_owner_id;
use crate::manifest::{ManifestPointer, NamespaceManifest};
use crate::namespace::wal_key;
use crate::strings::{compare_text, hex, same_text, starts_with, text3};
use crate::textmap::TextSet;
use crate::wal::WalCursor;

use crate::order::Order;
use crate::sorted;
use crate::sorted::{Key, SortedMap};
use crate::textmap;

verus! {

pub const READER_LEASE_FORMAT_VERSION: u32 = 1;

/// What the keys of lease files start with.
pub fn reader_lease_prefix() -> (s: String)
    ensures
        s@ == "jobs/readers/"@,
{
    "jobs/readers/".to_owned()
}

/// A snapshot that is being read.
#[derive(Debug)]
pub struct ReaderLeaseSnapshot {
    pub namespace: String,
    pub generation: u64,
    pub body_key: String,
    pub indexed_cursor: Option<WalCursor>,
    pub commit_cursor: WalCursor,
}

/// What a snapshot stands for.
#[verifier::ext_equal]
pub struct SnapshotView {
    pub namespace: Seq<char>,
    pub generation: u64,
    pub body_key: Seq<char>,
    pub indexed_cursor: Option<WalCursor>,
    pub commit_cursor: WalCursor,
}

impl View for ReaderLeaseSnapshot {
    type V = SnapshotView;

    open spec fn view(&self) -> SnapshotView {
        SnapshotView {
            namespace: self.namespace@,
            generation: self.generation,
            body_key: self.body_key@,
            indexed_cursor: self.indexed_cursor,
            commit_cursor: self.commit_cursor,
        }
    }
}

impl Clone for ReaderLeaseSnapshot {
    fn clone(&self) -> (r: ReaderLeaseSnapshot)
        ensures
            r@ == self@,
    {
        ReaderLeaseSnapshot {
            namespace: self.namespace.clone(),
            generation: self.generation,
            body_key: self.body_key.clone(),
            indexed_cursor: self.indexed_cursor,
            commit_cursor: self.commit_cursor,
        }
    }
}

/// The log between two positions can be read: the first is no later than the second,
/// and both are of one epoch.
pub open spec fn overlay_valid(indexed: WalCursor, commit: WalCursor) -> bool {
    !wal::cursor_lt(commit, indexed) && indexed.epoch == commit.epoch
}

/// A snapshot names a namespace and a manifest body of that namespace, and the log
/// after what is indexed can be read.
pub open spec fn snapshot_valid(s: SnapshotView) -> bool {
    &&& s.namespace.len() > 0
    &&& s.body_key.len() > 0
    &&& strings::has_prefix(s.body_key, namespace::namespace_key(s.namespace, "/manifest/g/"@))
    &&& s.indexed_cursor matches Some(indexed) ==> overlay_valid(indexed, s.commit_cursor)
}

/// Why the log between two positions cannot be read, if it cannot.
pub open spec fn overlay_complaint(indexed: WalCursor, commit: WalCursor) -> Option<Seq<char>> {
    if wal::cursor_lt(commit, indexed) {
        Some(
            "reader lease indexed cursor "@ + wal::cursor_words(indexed)
                + " is ahead of commit cursor "@ + wal::cursor_words(commit),
        )
    } else if indexed.epoch != commit.epoch {
        Some(
            "reader lease crosses unsupported WAL epoch boundary "@ + strings::decimal(
                indexed.epoch as nat,
            ) + " -> "@ + strings::decimal(commit.epoch as nat),
        )
    } else {
        None
    }
}

/// What is wrong with a snapshot, if anything is.
pub open spec fn snapshot_complaint(s: SnapshotView) -> Option<Seq<char>> {
    if s.namespace.len() == 0 {
        Some("reader lease namespace cannot be empty"@)
    } else if s.body_key.len() == 0 {
        Some("reader lease manifest body key cannot be empty"@)
    } else if !strings::has_prefix(
        s.body_key,
        namespace::namespace_key(s.namespace, "/manifest/g/"@),
    ) {
        Some(
            "reader lease body key "@ + phrase::quoted(s.body_key)
                + " does not belong to namespace "@ + phrase::quoted(s.namespace),
        )
    } else {
        match s.indexed_cursor {
            Some(indexed) => overlay_complaint(indexed, s.commit_cursor),
            None => None,
        }
    }
}

fn invalid(text: &str) -> (e: Error)
    ensures
        e is InvalidReaderLease,
        e->InvalidReaderLease_0@ == text@,
{
    Error::InvalidReaderLease(text.to_owned())
}

fn validate_overlay_range(indexed: WalCursor, commit: WalCursor) -> (r: Result<(), Error>)
    ensures
        overlay_valid(indexed, commit) ==> r is Ok,
        !overlay_valid(indexed, commit) ==> r is Err && r->Err_0 is InvalidReaderLease
            && overlay_complaint(indexed, commit) == Some(r->Err_0->InvalidReaderLease_0@),
{
    if commit.is_before(&indexed) {
        return Err(
            Error::InvalidReaderLease(
                say("reader lease indexed cursor ").and(indexed.text().as_str()).and(
                    " is ahead of commit cursor ",
                ).and(commit.text().as_str()).done(),
            ),
        );
    }
    if indexed.epoch != commit.epoch {
        return Err(
            Error::InvalidReaderLease(
                say("reader lease crosses unsupported WAL epoch boundary ").number(
                    indexed.epoch,
                ).and(" -> ").number(commit.epoch).done(),
            ),
        );
    }
    Ok(())
}

impl ReaderLeaseSnapshot {
    /// Refuses a snapshot that cannot be read.
    pub fn validate(&self) -> (r: Result<(), Error>)
        ensures
            snapshot_valid(self@) ==> r is Ok,
            !snapshot_valid(self@) ==> r is Err && r->Err_0 is InvalidReaderLease
                && snapshot_complaint(self@) == Some(r->Err_0->InvalidReaderLease_0@),
    {
        if self.namespace.as_str().is_empty() {
            return Err(invalid("reader lease namespace cannot be empty"));
        }
        if self.body_key.as_str().is_empty() {
            return Err(invalid("reader lease manifest body key cannot be empty"));
        }
        let expected = text3("namespaces/", self.namespace.as_str(), "/manifest/g/");
        if !starts_with(self.body_key.as_str(), expected.as_str()) {
            return Err(
                Error::InvalidReaderLease(
                    say("reader lease body key ").quote(self.body_key.as_str()).and(
                        " does not belong to namespace ",
                    ).quote(self.namespace.as_str()).done(),
                ),
            );
        }
        match self.indexed_cursor {
            Some(indexed) => validate_overlay_range(indexed, self.commit_cursor),
            None => Ok(()),
        }
    }
}

/// The snapshot that a manifest and the committed log give.
pub fn snapshot_from_manifest(
    namespace: &str,
    pointer: &ManifestPointer,
    manifest: &NamespaceManifest,
    commit_cursor: WalCursor,
) -> (s: ReaderLeaseSnapshot)
    ensures
        s@ == (SnapshotView {
            namespace: namespace@,
            generation: manifest.generation,
            body_key: manifest::body_name(namespace@, *pointer),
            indexed_cursor: manifest.indexed_cursor,
            commit_cursor,
        }),
{
    ReaderLeaseSnapshot {
        namespace: namespace.to_owned(),
        generation: manifest.generation,
        body_key: pointer.manifest_body_key(namespace),
        indexed_cursor: manifest.indexed_cursor,
        commit_cursor,
    }
}

/// The key of an owner's lease file.
pub fn reader_lease_key(owner_id: &str) -> (key: String)
    ensures
        key@ == "jobs/readers/"@ + strings::hex_of(vstd::utf8::encode_utf8(owner_id@)) + ".json"@,
{
    text3("jobs/readers/", hex(owner_id.as_bytes()).as_str(), ".json")
}

/// The lease file of an owner: the snapshots that it reads, and until when.
#[derive(Debug)]
pub struct ReaderLeaseFile {
    pub format_version: u32,
    pub revision: u64,
    pub owner_id: String,
    pub lease_expires_at_ms: u64,
    pub active: Vec<ReaderLeaseSnapshot>,
}

pub open spec fn snapshots_view(s: Seq<ReaderLeaseSnapshot>) -> Seq<SnapshotView> {
    Seq::new(s.len(), |i: int| s[i]@)
}

/// A lease file is in this format, has an owner, and its snapshots can be read.
pub open spec fn reader_file_valid(f: ReaderLeaseFile) -> bool {
    &&& f.format_version == READER_LEASE_FORMAT_VERSION
    &&& f.owner_id@.len() > 0
    &&& forall|i: int| 0 <= i < f.active@.len() ==> snapshot_valid((#[trigger] f.active@[i])@)
}

/// Refuses an owner without a name or a lease without a duration.
pub fn validate_reader(owner_id: &str, lease_ms: u64) -> (r: Result<(), Error>)
    ensures
        owner_id@.len() > 0 && lease_ms > 0 ==> r is Ok,
        !(owner_id@.len() > 0 && lease_ms > 0) ==> r is Err && r->Err_0 is InvalidReaderLease,
{
    if owner_id.is_empty() {
        return Err(invalid("reader lease owner id cannot be empty"));
    }
    if lease_ms == 0 {
        return Err(invalid("reader lease duration must be positive"));
    }
    Ok(())
}

/// What a reading process calls itself: its role, its machine if that has a name, and
/// its number.
pub fn default_reader_owner_id(
    role: &str,
    pod: Option<&str>,
    host: Option<&str>,
    process: u64,
) -> (id: String)
    ensures
        id@ == (match maintenance::machine_name(pod, host) {
            Some(name) => role@ + "-"@ + name + "-"@ + strings::decimal(process as nat),
            None => role@ + "-"@ + strings::decimal(process as nat),
        }),
{
    default_maintenance_owner_id(role, pod, host, process)
}

fn copy_snapshots(active: &Vec<ReaderLeaseSnapshot>) -> (r: Vec<ReaderLeaseSnapshot>)
    ensures
        snapshots_view(r@) == snapshots_view(active@),
{
    let mut r: Vec<ReaderLeaseSnapshot> = Vec::new();
    let mut i: usize = 0;
    while i < active.len()
        invariant
            i <= active@.len(),
            r@.len() == i,
            forall|j: int| 0 <= j < i ==> (#[trigger] r@[j])@ == active@[j]@,
        decreases active@.len() - i,
    {
        let copy = active[i].clone();
        r.push(copy);
        i = i + 1;
    }
    assert(snapshots_view(r@) =~= snapshots_view(active@));
    r
}

/// What a lease file written at that time says.
pub open spec fn renews(
    f: ReaderLeaseFile,
    revision: int,
    owner_id: Seq<char>,
    active: Seq<SnapshotView>,
    lease_ms: u64,
    now: u64,
) -> bool {
    &&& f.format_version == READER_LEASE_FORMAT_VERSION
    &&& f.revision == revision
    &&& f.owner_id@ == owner_id
    &&& f.lease_expires_at_ms == now + lease_ms
    &&& snapshots_view(f.active@) == active
}

impl ReaderLeaseFile {
    /// Refuses a damaged lease file: one of another format as corrupt, one without an
    /// owner or with a snapshot that cannot be read as an invalid lease.
    pub fn validate(&self) -> (r: Result<(), Error>)
        ensures
            reader_file_valid(*self) ==> r is Ok,
            self.format_version != READER_LEASE_FORMAT_VERSION ==> r is Err && r->Err_0 is Corrupt,
            !reader_file_valid(*self) && self.format_version == READER_LEASE_FORMAT_VERSION ==> r
                is Err && r->Err_0 is InvalidReaderLease,
    {
        if self.format_version != READER_LEASE_FORMAT_VERSION {
            return Err(Error::Corrupt(
                    say("unsupported reader lease format version ").number(
                        self.format_version as u64,
                    ).done(),
                ));
        }
        if self.owner_id.as_str().is_empty() {
            return Err(invalid("reader lease owner id cannot be empty"));
        }
        let mut i: usize = 0;
        while i < self.active.len()
            invariant
                i <= self.active@.len(),
                self.format_version == READER_LEASE_FORMAT_VERSION,
                self.owner_id@.len() > 0,
                forall|j: int| 0 <= j < i ==> snapshot_valid((#[trigger] self.active@[j])@),
            decreases self.active@.len() - i,
        {
            match self.active[i].validate() {
                Ok(_) => {},
                Err(e) => {
                    assert(!snapshot_valid(self.active@[i as int]@));
                    return Err(e);
                },
            }
            i = i + 1;
        }
        Ok(())
    }

    /// The first lease file of an owner.
    pub fn first(
        owner_id: &str,
        active: &Vec<ReaderLeaseSnapshot>,
        lease_ms: u64,
        now: u64,
    ) -> (r: Result<ReaderLeaseFile, Error>)
        ensures
            match r {
                Ok(f) => renews(f, 0, owner_id@, snapshots_view(active@), lease_ms, now),
                Err(e) => now + lease_ms > u64::MAX && e is Corrupt,
            },
    {
        match now.checked_add(lease_ms) {
            None => Err(corrupt("reader lease expiry overflow")),
            Some(lease_expires_at_ms) => Ok(
                ReaderLeaseFile {
                    format_version: READER_LEASE_FORMAT_VERSION,
                    revision: 0,
                    owner_id: owner_id.to_owned(),
                    lease_expires_at_ms,
                    active: copy_snapshots(active),
                },
            ),
        }
    }

    /// The next lease file of an owner, in place of this one. A file of another owner
    /// is corrupt.
    pub fn renewed(
        &self,
        owner_id: &str,
        active: &Vec<ReaderLeaseSnapshot>,
        lease_ms: u64,
        now: u64,
    ) -> (r: Result<ReaderLeaseFile, Error>)
        requires
            self.format_version == READER_LEASE_FORMAT_VERSION,
        ensures
            match r {
                Ok(f) => self.owner_id@ == owner_id@ && renews(
                    f,
                    self.revision + 1,
                    owner_id@,
                    snapshots_view(active@),
                    lease_ms,
                    now,
                ),
                Err(e) => {
                    &&& e is Corrupt
                    &&& self.owner_id@ != owner_id@ || self.revision == u64::MAX || now + lease_ms
                        > u64::MAX
                    &&& e->Corrupt_0@ == (if self.owner_id@ != owner_id@ {
                        "reader lease key jobs/readers/"@ + strings::hex_of(
                            vstd::utf8::encode_utf8(owner_id@),
                        ) + ".json is owned by "@ + phrase::quoted(self.owner_id@) + ", expected "@
                            + phrase::quoted(owner_id@)
                    } else if self.revision == u64::MAX {
                        "reader lease revision overflow"@
                    } else {
                        "reader lease expiry overflow"@
                    })
                },
            },
    {
        if !same_text(self.owner_id.as_str(), owner_id) {
            let name = hex(owner_id.as_bytes());
            return Err(
                Error::Corrupt(
                    say("reader lease key jobs/readers/").and(name.as_str()).and(
                        ".json is owned by ",
                    ).quote(self.owner_id.as_str()).and(", expected ").quote(owner_id).done(),
                ),
            );
        }
        let revision: u64 = match self.revision.checked_add(1) {
            Some(revision) => revision,
            None => {
                return Err(corrupt("reader lease revision overflow"));
            },
        };
        match now.checked_add(lease_ms) {
            Some(lease_expires_at_ms) => Ok(
                ReaderLeaseFile {
                    format_version: READER_LEASE_FORMAT_VERSION,
                    revision,
                    owner_id: owner_id.to_owned(),
                    lease_expires_at_ms,
                    active: copy_snapshots(active),
                },
            ),
            None => Err(corrupt("reader lease expiry overflow")),
        }
    }

    /// The snapshots of a namespace that are being read at that time: none once the
    /// lease has expired.
    pub fn live_snapshots(&self, namespace: &str, now: u64) -> (r: Vec<ReaderLeaseSnapshot>)
        ensures
            snapshots_view(r@) == live_of(*self, namespace@, now, self.active@.len() as int),
    {
        let mut r: Vec<ReaderLeaseSnapshot> = Vec::new();
        assert(snapshots_view(r@) =~= Seq::empty());
        if self.lease_expires_at_ms <= now {
            proof {
                lemma_live_none(*self, namespace@, now, self.active@.len() as int);
            }
            return r;
        }
        let mut i: usize = 0;
        while i < self.active.len()
            invariant
                i <= self.active@.len(),
                self.lease_expires_at_ms > now,
                snapshots_view(r@) == live_of(*self, namespace@, now, i as int),
            decreases self.active@.len() - i,
        {
            if same_text(self.active[i].namespace.as_str(), namespace) {
                let ghost before = snapshots_view(r@);
                let copy = self.active[i].clone();
                r.push(copy);
                assert(snapshots_view(r@) =~= before.push(self.active@[i as int]@));
            }
            i = i + 1;
        }
        r
    }
}

/// The snapshots of a namespace that are being read, among the first `n`.
pub open spec fn live_of(f: ReaderLeaseFile, namespace: Seq<char>, now: u64, n: int) -> Seq<
    SnapshotView,
>
    decreases n,
{
    if n <= 0 {
        Seq::empty()
    } else {
        let rest = live_of(f, namespace, now, n - 1);
        if f.lease_expires_at_ms > now && f.active@[n - 1]@.namespace == namespace {
            rest.push(f.active@[n - 1]@)
        } else {
            rest
        }
    }
}

proof fn lemma_live_none(f: ReaderLeaseFile, namespace: Seq<char>, now: u64, n: int)
    requires
        f.lease_expires_at_ms <= now,
    ensures
        live_of(f, namespace, now, n) == Seq::<SnapshotView>::empty(),
    decreases n,
{
    if n > 0 {
        lemma_live_none(f, namespace, now, n - 1);
    }
}

/// The positions of the log that a snapshot needs: those after what is indexed, up to
/// what is committed.
pub open spec fn needs_position(s: SnapshotView, seq: int) -> bool {
    match s.indexed_cursor {
        None => 1 <= seq <= s.commit_cursor.seq,
        Some(indexed) => indexed.seq < seq <= s.commit_cursor.seq,
    }
}

/// The keys of the log objects that a snapshot needs.
pub open spec fn overlay_keys(s: SnapshotView) -> Set<Seq<char>> {
    Set::new(
        |key: Seq<char>|
            exists|seq: int| #[trigger]
                needs_position(s, seq) && key == namespace::wal_name(
                    s.namespace,
                    WalCursor { epoch: s.commit_cursor.epoch, seq: seq as u64 },
                ),
    )
}

/// The keys of the log objects that a snapshot needs.
pub fn reader_overlay_wal_keys(snapshot: &ReaderLeaseSnapshot) -> (r: Result<TextSet, Error>)
    ensures
        match r {
            Ok(keys) => {
                &&& keys.wf()
                &&& keys.set() == overlay_keys(snapshot@)
                &&& snapshot@.indexed_cursor matches Some(indexed) ==> overlay_valid(
                    indexed,
                    snapshot@.commit_cursor,
                )
            },
            Err(e) => e is InvalidReaderLease && snapshot@.indexed_cursor is Some
                && !overlay_valid(snapshot@.indexed_cursor->Some_0, snapshot@.commit_cursor),
        },
{
    let from: u64 = match snapshot.indexed_cursor {
        None => 0,
        Some(indexed) => {
            match validate_overlay_range(indexed, snapshot.commit_cursor) {
                Ok(_) => {},
                Err(e) => {
                    return Err(e);
                },
            }
            indexed.seq
        },
    };
    let mut keys = TextSet::new();
    let mut seq: u64 = from;
    let ghost s = snapshot@;
    assert(keys.set() =~= keys_up_to(s, from as int, from as int));
    while seq < snapshot.commit_cursor.seq
        invariant
            from <= seq,
            seq <= snapshot.commit_cursor.seq || seq == from,
            s == snapshot@,
            keys.wf(),
            keys.set() == keys_up_to(s, from as int, seq as int),
        decreases snapshot.commit_cursor.seq - seq,
    {
        seq = seq + 1;
        let ghost before = keys.set();
        let key = wal_key(
            snapshot.namespace.as_str(),
            WalCursor::new(snapshot.commit_cursor.epoch, seq),
        );
        let ghost k0 = key@;
        keys.insert(key);
        proof {
            assert forall|k: Seq<char>| keys_up_to(s, from as int, seq as int).contains(k) <==> before.insert(
                k0,
            ).contains(k) by {
                if keys_up_to(s, from as int, seq as int).contains(k) {
                    let x = choose|x: int| #[trigger]
                        within(from as int, x, seq as int) && k == namespace::wal_name(
                            s.namespace,
                            WalCursor { epoch: s.commit_cursor.epoch, seq: x as u64 },
                        );
                    if x < seq {
                        assert(within(from as int, x, seq - 1));
                    }
                }
                if before.contains(k) {
                    let x = choose|x: int| #[trigger]
                        within(from as int, x, seq - 1) && k == namespace::wal_name(
                            s.namespace,
                            WalCursor { epoch: s.commit_cursor.epoch, seq: x as u64 },
                        );
                    assert(within(from as int, x, seq as int));
                }
                assert(within(from as int, seq as int, seq as int));
            }
            assert(keys.set() =~= keys_up_to(s, from as int, seq as int));
        }
    }
    proof {
        assert forall|k: Seq<char>| keys_up_to(s, from as int, seq as int).contains(k)
            <==> overlay_keys(s).contains(k) by {
            if keys_up_to(s, from as int, seq as int).contains(k) {
                let x = choose|x: int| #[trigger]
                    within(from as int, x, seq as int) && k == namespace::wal_name(
                        s.namespace,
                        WalCursor { epoch: s.commit_cursor.epoch, seq: x as u64 },
                    );
                assert(needs_position(s, x));
            }
            if overlay_keys(s).contains(k) {
                let x = choose|x: int| #[trigger]
                    needs_position(s, x) && k == namespace::wal_name(
                        s.namespace,
                        WalCursor { epoch: s.commit_cursor.epoch, seq: x as u64 },
                    );
                assert(within(from as int, x, seq as int));
            }
        }
        assert(keys.set() =~= overlay_keys(s));
    }
    Ok(keys)
}

spec fn within(from: int, x: int, to: int) -> bool {
    from < x <= to
}

spec fn keys_up_to(s: SnapshotView, from: int, to: int) -> Set<Seq<char>> {
    Set::new(
        |key: Seq<char>|
            exists|x: int| #[trigger]
                within(from, x, to) && key == namespace::wal_name(
                    s.namespace,
                    WalCursor { epoch: s.commit_cursor.epoch, seq: x as u64 },
                ),
    )
}

/// The keys of everything that a snapshot needs: its manifest body, the objects that
/// the manifest names, and the log after what is indexed.
pub open spec fn needed_keys(s: SnapshotView, m: NamespaceManifest) -> Set<Seq<char>> {
    manifest::object_keys(manifest::index_objects(m)).insert(s.body_key).union(overlay_keys(s))
}

/// Adds what a snapshot needs to a set of live keys. A manifest that is not the one
/// of the snapshot is corrupt.
pub fn protect_snapshot(
    live: &mut TextSet,
    snapshot: &ReaderLeaseSnapshot,
    manifest: &NamespaceManifest,
) -> (r: Result<(), Error>)
    requires
        old(live).wf(),
    ensures
        final(live).wf(),
        ({
            let s = snapshot@;
            if !snapshot_valid(s) {
                r is Err && r->Err_0 is InvalidReaderLease && final(live).set() == old(live).set()
            } else if manifest.namespace@ != s.namespace || manifest.generation != s.generation {
                r is Err && r->Err_0 is Corrupt && final(live).set() == old(live).set()
            } else {
                r is Ok && final(live).set() == old(live).set().union(needed_keys(s, *manifest))
            }
        }),
{
    match snapshot.validate() {
        Ok(_) => {},
        Err(e) => {
            return Err(e);
        },
    }
    if !same_text(manifest.namespace.as_str(), snapshot.namespace.as_str()) || manifest.generation
        != snapshot.generation {
        return Err(
            Error::Corrupt(
                say("reader lease for ").and(snapshot.namespace.as_str()).and(
                    " generation ",
                ).number(snapshot.generation).and(" points at manifest ").and(
                    manifest.namespace.as_str(),
                ).and(" generation ").number(manifest.generation).done(),
            ),
        );
    }
    let overlay = match reader_overlay_wal_keys(snapshot) {
        Ok(overlay) => overlay,
        Err(e) => {
            return Err(e);
        },
    };
    let keys = manifest.referenced_index_keys();
    live.insert(snapshot.body_key.clone());
    extend(live, &keys);
    extend(live, &overlay);
    assert(live.set() =~= old(live).set().union(needed_keys(snapshot@, *manifest)));
    Ok(())
}

fn extend(live: &mut TextSet, more: &TextSet)
    requires
        old(live).wf(),
        more.wf(),
    ensures
        final(live).wf(),
        final(live).set() == old(live).set().union(more.set()),
{
    let count: usize = more.len();
    let ghost items = more.items();
    let mut i: usize = 0;
    assert(live.set() =~= old(live).set().union(items.take(0).to_set()));
    while i < count
        invariant
            i <= count,
            count == items.len(),
            items == more.items(),
            live.wf(),
            live.set() == old(live).set().union(items.take(i as int).to_set()),
        decreases count - i,
    {
        let item = more.item_at(i);
        live.insert(item.clone());
        proof {
            let now = items.take(i + 1);
            let was = items.take(i as int);
            assert(now =~= was.push(item@));
            assert forall|x: Seq<char>| now.to_set().contains(x) <==> was.to_set().contains(x) || x
                == item@ by {
                if now.contains(x) && x != item@ {
                    assert(was[now.index_of(x)] == x);
                }
                if was.contains(x) {
                    assert(now[was.index_of(x)] == x);
                }
                assert(now[i as int] == item@);
            }
            assert(live.set() =~= old(live).set().union(now.to_set()));
        }
        i = i + 1;
    }
    assert(items.take(i as int) =~= items);
}

// ---------------------------------------------------------------------------
// Readers of one process
// ---------------------------------------------------------------------------

/// The order by a first and, where that does not tell, by a second criterion.
pub open spec fn refined(first: Order, second: Order) -> Order {
    if first == Order::Equal {
        second
    } else {
        first
    }
}

pub open spec fn number_order(a: u64, b: u64) -> Order {
    if a < b {
        Order::Less
    } else if a == b {
        Order::Equal
    } else {
        Order::Greater
    }
}

pub open spec fn cursor_order(a: WalCursor, b: WalCursor) -> Order {
    refined(number_order(a.epoch, b.epoch), number_order(a.seq, b.seq))
}

/// The order of positions, with none before all others.
pub open spec fn indexed_order(a: Option<WalCursor>, b: Option<WalCursor>) -> Order {
    match (a, b) {
        (None, None) => Order::Equal,
        (None, Some(_)) => Order::Less,
        (Some(_), None) => Order::Greater,
        (Some(x), Some(y)) => cursor_order(x, y),
    }
}

/// The order of snapshots: by namespace, generation, manifest and positions.
pub open spec fn snapshot_order(a: SnapshotView, b: SnapshotView) -> Order {
    refined(
        strings::text_order(a.namespace, b.namespace),
        refined(
            number_order(a.generation, b.generation),
            refined(
                strings::text_order(a.body_key, b.body_key),
                refined(
                    indexed_order(a.indexed_cursor, b.indexed_cursor),
                    cursor_order(a.commit_cursor, b.commit_cursor),
                ),
            ),
        ),
    )
}

fn refine(first: Order, second: Order) -> (o: Order)
    ensures
        o == refined(first, second),
{
    match first {
        Order::Equal => second,
        _ => first,
    }
}

fn compare_numbers(a: u64, b: u64) -> (o: Order)
    ensures
        o == number_order(a, b),
{
    if a < b {
        Order::Less
    } else if a == b {
        Order::Equal
    } else {
        Order::Greater
    }
}

fn compare_cursors(a: WalCursor, b: WalCursor) -> (o: Order)
    ensures
        o == cursor_order(a, b),
{
    refine(compare_numbers(a.epoch, b.epoch), compare_numbers(a.seq, b.seq))
}

fn compare_indexed(a: Option<WalCursor>, b: Option<WalCursor>) -> (o: Order)
    ensures
        o == indexed_order(a, b),
{
    match (a, b) {
        (None, None) => Order::Equal,
        (None, Some(_)) => Order::Less,
        (Some(_), None) => Order::Greater,
        (Some(x), Some(y)) => compare_cursors(x, y),
    }
}

impl Key for ReaderLeaseSnapshot {
    open spec fn order(a: SnapshotView, b: SnapshotView) -> Order {
        snapshot_order(a, b)
    }

    proof fn lemma_total(a: SnapshotView, b: SnapshotView) {
        textmap::lemma_text_total(a.namespace, b.namespace);
        textmap::lemma_text_total(b.namespace, a.namespace);
        textmap::lemma_text_total(a.body_key, b.body_key);
        textmap::lemma_text_total(b.body_key, a.body_key);
        assert(<ReaderLeaseSnapshot as Key>::order(a, b) == snapshot_order(a, b));
        assert(<ReaderLeaseSnapshot as Key>::order(b, a) == snapshot_order(b, a));
    }

    proof fn lemma_transitive(a: SnapshotView, b: SnapshotView, c: SnapshotView) {
        assert(<ReaderLeaseSnapshot as Key>::order(a, b) == snapshot_order(a, b));
        assert(<ReaderLeaseSnapshot as Key>::order(b, c) == snapshot_order(b, c));
        assert(<ReaderLeaseSnapshot as Key>::order(a, c) == snapshot_order(a, c));
        lemma_text_transitive(a.namespace, b.namespace, c.namespace);
        lemma_text_transitive(a.body_key, b.body_key, c.body_key);
    }

    fn compare(&self, other: &ReaderLeaseSnapshot) -> (o: Order) {
        refine(
            compare_text(self.namespace.as_str(), other.namespace.as_str()),
            refine(
                compare_numbers(self.generation, other.generation),
                refine(
                    compare_text(self.body_key.as_str(), other.body_key.as_str()),
                    refine(
                        compare_indexed(self.indexed_cursor, other.indexed_cursor),
                        compare_cursors(self.commit_cursor, other.commit_cursor),
                    ),
                ),
            ),
        )
    }
}

proof fn lemma_text_transitive(a: Seq<char>, b: Seq<char>, c: Seq<char>)
    ensures
        strings::text_order(a, b) == Order::Less && strings::text_order(b, c) == Order::Less
            ==> strings::text_order(a, c) == Order::Less,
{
    textmap::lemma_text_total(a, c);
    if strings::text_lt(a, b) && strings::text_lt(b, c) {
        textmap::lemma_text_transitive(a, b, c);
    }
}

/// The snapshots that a process reads, and how many readers each has.
#[derive(Debug)]
pub struct ReaderLeaseState {
    active: SortedMap<ReaderLeaseSnapshot, u64>,
}

/// How many readers a snapshot has.
pub open spec fn reader_count(readers: Map<SnapshotView, u64>, s: SnapshotView) -> u64 {
    if readers.dom().contains(s) {
        readers[s]
    } else {
        0
    }
}

/// The readers with one more of a snapshot.
pub open spec fn with_reader(readers: Map<SnapshotView, u64>, s: SnapshotView) -> Map<
    SnapshotView,
    u64,
> {
    readers.insert(s, (reader_count(readers, s) + 1) as u64)
}

/// The readers with one less of a snapshot; one without readers is forgotten.
pub open spec fn without_reader(readers: Map<SnapshotView, u64>, s: SnapshotView) -> Map<
    SnapshotView,
    u64,
> {
    if reader_count(readers, s) > 1 {
        readers.insert(s, (readers[s] - 1) as u64)
    } else {
        readers.remove(s)
    }
}

impl ReaderLeaseState {
    /// The snapshots with their numbers of readers.
    pub closed spec fn readers(self) -> Map<SnapshotView, u64> {
        self.active.map()
    }

    pub closed spec fn wf(self) -> bool {
        self.active.wf()
    }

    pub fn new() -> (s: ReaderLeaseState)
        ensures
            s.wf(),
            s.readers() == Map::<SnapshotView, u64>::empty(),
    {
        ReaderLeaseState { active: SortedMap::new() }
    }

    /// Counts one more reader of a snapshot.
    pub fn add(&mut self, snapshot: &ReaderLeaseSnapshot)
        requires
            old(self).wf(),
            reader_count(old(self).readers(), snapshot@) < u64::MAX,
        ensures
            final(self).wf(),
            final(self).readers() == with_reader(old(self).readers(), snapshot@),
    {
        let count: u64 = match self.active.get(snapshot) {
            Some(count) => *count,
            None => 0,
        };
        self.active.insert(snapshot.clone(), count + 1);
    }

    /// Counts one reader of a snapshot less, and forgets a snapshot without readers.
    pub fn remove(&mut self, snapshot: &ReaderLeaseSnapshot)
        requires
            old(self).wf(),
        ensures
            final(self).wf(),
            final(self).readers() == without_reader(old(self).readers(), snapshot@),
    {
        let count: u64 = match self.active.get(snapshot) {
            Some(count) => *count,
            None => 0,
        };
        if count > 1 {
            self.active.insert(snapshot.clone(), count - 1);
        } else {
            self.active.remove(snapshot);
        }
    }

    /// The snapshots that are being read, in order.
    pub fn snapshots(&self) -> (r: Vec<ReaderLeaseSnapshot>)
        requires
            self.wf(),
        ensures
            sorted::keys_sorted::<ReaderLeaseSnapshot>(snapshots_view(r@)),
            forall|s: SnapshotView| #[trigger]
                snapshots_view(r@).contains(s) <==> self.readers().dom().contains(s),
    {
        let ghost keys = self.active.keys();
        let mut r: Vec<ReaderLeaseSnapshot> = Vec::new();
        let n = self.active.len();
        let mut i: usize = 0;
        assert(snapshots_view(r@) =~= keys.take(0));
        while i < n
            invariant
                i <= n,
                n == keys.len(),
                keys == self.active.keys(),
                snapshots_view(r@) == keys.take(i as int),
            decreases n - i,
        {
            let ghost before = r@;
            let copy = self.active.key_at(i).clone();
            r.push(copy);
            assert(snapshots_view(r@) =~= snapshots_view(before).push(copy@));
            assert(keys.take(i + 1) =~= keys.take(i as int).push(keys[i as int]));
            i = i + 1;
        }
        assert(keys.take(n as int) =~= keys);
        r
    }
}

/// A reader that comes and goes leaves all counts as they were.
pub proof fn law_reader_leaves_no_trace(readers: Map<SnapshotView, u64>, s: SnapshotView)
    requires
        reader_count(readers, s) < u64::MAX,
        readers.dom().contains(s) ==> readers[s] > 0,
    ensures
        without_reader(with_reader(readers, s), s) == readers,
{
    assert(without_reader(with_reader(readers, s), s) =~= readers);
}

/// A snapshot protects exactly the batches of the log after what its manifest has indexed,
/// up to what was committed: the first one after it and the last one are protected, the
/// one before and the one behind are not.
pub proof fn law_overlay_is_protected(s: SnapshotView)
    ensures
        s.indexed_cursor matches Some(indexed) ==> {
            &&& !needs_position(s, indexed.seq as int)
            &&& indexed.seq < s.commit_cursor.seq ==> needs_position(s, indexed.seq + 1)
                && needs_position(s, s.commit_cursor.seq as int)
            &&& indexed.seq >= s.commit_cursor.seq ==> forall|seq: int| !needs_position(s, seq)
        },
        s.indexed_cursor is None && s.commit_cursor.seq > 0 ==> needs_position(s, 1)
            && needs_position(s, s.commit_cursor.seq as int),
        !needs_position(s, s.commit_cursor.seq + 1),
        !needs_position(s, 0),
        forall|seq: int|
            #![trigger needs_position(s, seq)]
            needs_position(s, seq) && needs_position(s, seq + 2) ==> needs_position(s, seq + 1),
{
}

/// What a snapshot needs are the objects of its manifest, the manifest itself and the log
/// that it protects; nothing else.
pub proof fn law_snapshot_needs_its_objects(
    s: SnapshotView,
    m: NamespaceManifest,
    key: Seq<char>,
)
    ensures
        needed_keys(s, m).contains(key) <==> {
            ||| key == s.body_key
            ||| manifest::object_keys(manifest::index_objects(m)).contains(key)
            ||| exists|seq: int| #[trigger]
                needs_position(s, seq) && key == namespace::wal_name(
                    s.namespace,
                    WalCursor { epoch: s.commit_cursor.epoch, seq: seq as u64 },
                )
        },
{
}

/// The snapshots of a lease file count for a namespace exactly until its lease runs out.
pub proof fn law_snapshots_count_until_the_lease_ends(
    f: ReaderLeaseFile,
    namespace: Seq<char>,
    now: u64,
    n: int,
    i: int,
)
    requires
        0 <= i < n <= f.active@.len(),
    ensures
        f.lease_expires_at_ms <= now ==> live_of(f, namespace, now, n).len() == 0,
        f.lease_expires_at_ms > now && f.active@[i]@.namespace == namespace ==> live_of(
            f,
            namespace,
            now,
            n,
        ).contains(f.active@[i]@),
        forall|k: int|
            0 <= k < live_of(f, namespace, now, n).len() ==> (#[trigger] live_of(
                f,
                namespace,
                now,
                n,
            )[k]).namespace == namespace,
    decreases n,
{
    let front = live_of(f, namespace, now, n - 1);
    let all = live_of(f, namespace, now, n);
    if n > 1 {
        law_snapshots_count_until_the_lease_ends(
            f,
            namespace,
            now,
            n - 1,
            if i < n - 1 {
                i
            } else {
                0
            },
        );
    } else {
        assert(front =~= Seq::empty());
    }
    if f.lease_expires_at_ms > now && f.active@[n - 1]@.namespace == namespace {
        assert(all[front.len() as int] == f.active@[n - 1]@);
        if i < n - 1 && front.contains(f.active@[i]@) {
            let k = front.index_of(f.active@[i]@);
            assert(all[k] == f.active@[i]@);
        }
    }
}

/// Readers of a snapshot are counted: one more is one more, and one less one less, down to
/// none; other snapshots keep theirs. A snapshot is held exactly while it has a reader.
pub proof fn law_readers_are_counted(
    readers: Map<SnapshotView, u64>,
    s: SnapshotView,
    other: SnapshotView,
)
    requires
        other != s,
        reader_count(readers, s) < u64::MAX,
        readers.dom().contains(s) ==> readers[s] > 0,
    ensures
        with_reader(readers, s).dom().contains(s),
        with_reader(readers, s)[s] == reader_count(readers, s) + 1,
        reader_count(without_reader(readers, s), s) == (if reader_count(readers, s) == 0 {
            0int
        } else {
            reader_count(readers, s) - 1
        }),
        without_reader(readers, s).dom().contains(s) <==> reader_count(readers, s) > 1,
        reader_count(with_reader(readers, s), other) == reader_count(readers, other),
        reader_count(without_reader(readers, s), other) == reader_count(readers, other),
        with_reader(readers, s).dom().contains(other) == readers.dom().contains(other),
        without_reader(readers, s).dom().contains(other) == readers.dom().contains(other),
{
}

/// The log between two positions can be read exactly if both are of one epoch and the
/// first is not behind the second.
pub proof fn law_overlay_stays_in_one_epoch(indexed: WalCursor, commit: WalCursor)
    ensures
        overlay_valid(indexed, commit) <==> indexed.epoch == commit.epoch && indexed.seq
            <= commit.seq,
{
}

/// The log objects that are read on top of the tables are those that a snapshot needs: they
/// start right behind what is indexed, or with the first, and go up to what is committed.
pub proof fn law_overlay_is_what_the_snapshot_needs(s: SnapshotView, seq: int)
    ensures
        needs_position(s, seq) <==> documents::overlay_start(s.indexed_cursor) <= seq
            <= s.commit_cursor.seq,
        s.indexed_cursor matches Some(c) ==> documents::overlay_start(s.indexed_cursor) - c.seq
            == 1,
        s.indexed_cursor is None ==> documents::overlay_start(s.indexed_cursor) == 1,
{
}

/// A snapshot of a namespace at one of its manifests is accepted as long as its log can be
/// read, and one at the manifest of another namespace is not.
pub proof fn law_snapshots_stay_in_their_namespace(
    s: SnapshotView,
    other: Seq<char>,
    generation: nat,
)
    requires
        namespace::is_namespace_name(s.namespace),
        namespace::is_namespace_name(other),
        s.body_key == namespace::manifest_body_name(other, generation),
        s.indexed_cursor is None,
    ensures
        snapshot_valid(s) <==> s.namespace == other,
{
    let mark = "/manifest/g/"@;
    let start = namespace::namespace_key(s.namespace, mark);
    let rest = strings::decimal(generation) + ".json"@;
    lemma_body_starts(other, generation);
    strings::law_parts_make_up_the_text(s.body_key, start);
    if s.namespace == other {
        assert(s.body_key == start + rest);
    } else if strings::has_prefix(s.body_key, start) {
        let more = choose|more: Seq<char>| s.body_key == #[trigger] (start + more);
        lemma_starts_apart(s.namespace, more, other, rest);
    }
}

proof fn lemma_body_starts(name: Seq<char>, generation: nat)
    ensures
        namespace::manifest_body_name(name, generation) == namespace::namespace_key(
            name,
            "/manifest/g/"@,
        ) + (strings::decimal(generation) + ".json"@),
        namespace::manifest_body_name(name, generation).len() > 0,
{
    reveal_strlit(".json");
    assert(namespace::manifest_body_name(name, generation) =~= namespace::namespace_key(
        name,
        "/manifest/g/"@,
    ) + (strings::decimal(generation) + ".json"@));
}

proof fn lemma_starts_apart(a: Seq<char>, x: Seq<char>, b: Seq<char>, y: Seq<char>)
    requires
        namespace::is_namespace_name(a),
        namespace::is_namespace_name(b),
        namespace::namespace_key(a, "/manifest/g/"@) + x == namespace::namespace_key(
            b,
            "/manifest/g/"@,
        ) + y,
    ensures
        a == b,
{
    reveal_strlit("/manifest/g/");
    let mark = "/manifest/g/"@;
    let p = mark + x;
    let q = mark + y;
    assert(namespace::namespace_key(a, mark) + x =~= "namespaces/"@ + (a + p));
    assert(namespace::namespace_key(b, mark) + y =~= "namespaces/"@ + (b + q));
    namespace::lemma_behind("namespaces/"@, a + p, b + q);
    namespace::lemma_names_have_no_slash(a);
    namespace::lemma_names_have_no_slash(b);
    assert(p[0] == '/' && q[0] == '/');
    strings::lemma_same_split(a, p, b, q, '/');
}

} // verus!
