//! Snapshots of a namespace: branching, copying and exporting one generation.

use vstd::prelude::*;
use vstd::string::*;

use crate::cache_warm::CacheObjectKind;
use crate::manifest;
use crate::wal;
use crate::phrase;
use crate::phrase::say;
use crate::strings;
use crate::backpressure;
use crate::indexer;
use crate::namespace;
use crate::error::{invalid_write, Error};
use crate::manifest::{BranchParent, NamespaceManifest, SstMeta, VectorAppendMeta, VectorIndexMeta};
use crate::object_store::ObjectVersion;
use crate::sorting::reversed;
use crate::strings::{decimal_text, text2, text3, trim_end_char};
use crate::textmap::TextMap;
use crate::wal::WalCursor;

verus! {

pub const SNAPSHOT_EXPORT_FORMAT_VERSION: u32 = 1;

#[derive(Clone, Debug)]
pub struct CopyReport {
    pub source_generation: u64,
    pub object_count: usize,
    pub copied_bytes: u64,
}

/// An object of a snapshot, and where it was copied to.
#[derive(Clone, Debug)]
pub struct ExportObject {
    pub source_key: String,
    pub export_key: String,
    pub size_bytes: u64,
    pub checksum: ObjectVersion,
}

/// What an export holds.
#[derive(Debug)]
pub struct SnapshotExportCatalog {
    pub format_version: u32,
    pub source_namespace: String,
    pub source_generation: u64,
    pub manifest: NamespaceManifest,
    pub objects: Vec<ExportObject>,
}

#[derive(Clone, Debug)]
pub struct ExportReport {
    pub catalog_key: String,
    pub source_generation: u64,
    pub object_count: usize,
    pub copied_bytes: u64,
}

impl SnapshotExportCatalog {
    /// Refuses a catalog in a format of another version.
    pub fn check_version(&self) -> (r: Result<(), Error>)
        ensures
            self.format_version == SNAPSHOT_EXPORT_FORMAT_VERSION ==> r is Ok,
            self.format_version != SNAPSHOT_EXPORT_FORMAT_VERSION ==> r is Err
                && r->Err_0 is Corrupt,
    {
        if self.format_version != SNAPSHOT_EXPORT_FORMAT_VERSION {
            return Err(Error::Corrupt(
                    say("unsupported snapshot export format version ").number(
                        self.format_version as u64,
                    ).done(),
                ));
        }
        Ok(())
    }
}

/// Everything that was committed is in tables. A namespace that was never indexed
/// stands at the start of its log.
pub open spec fn fully_indexed(m: NamespaceManifest, commit: WalCursor) -> bool {
    match m.indexed_cursor {
        Some(cursor) => cursor == commit,
        None => commit.seq == 0,
    }
}

/// Refuses to take a snapshot that would need the log.
pub fn check_fully_indexed(operation: &str, manifest: &NamespaceManifest, commit: WalCursor) -> (r:
    Result<(), Error>)
    ensures
        fully_indexed(*manifest, commit) ==> r is Ok,
        !fully_indexed(*manifest, commit) ==> r is Err && r->Err_0 is InvalidWrite
            && r->Err_0->InvalidWrite_0@ == "cannot "@ + operation@ + " namespace "@
            + phrase::quoted(manifest.namespace@) + ": WAL is indexed through "@
            + wal::cursor_words(
            match manifest.indexed_cursor {
                Some(cursor) => cursor,
                None => WalCursor { epoch: commit.epoch, seq: 0 },
            },
        ) + ", committed through "@ + wal::cursor_words(commit),
{
    let indexed = match manifest.indexed_cursor {
        Some(cursor) => cursor,
        None => WalCursor::new(commit.epoch, 0),
    };
    if indexed != commit {
        return Err(
            Error::InvalidWrite(
                say("cannot ").and(operation).and(" namespace ").quote(
                    manifest.namespace.as_str(),
                ).and(": WAL is indexed through ").and(indexed.text().as_str()).and(
                    ", committed through ",
                ).and(commit.text().as_str()).done(),
            ),
        );
    }
    Ok(())
}

/// A manifest of another namespace over the same index: at its first generation, with
/// a log of its own, made at that time.
pub open spec fn transplanted(
    r: NamespaceManifest,
    m: NamespaceManifest,
    name: Seq<char>,
    timestamp_ms: u64,
) -> bool {
    &&& r.format_version == m.format_version
    &&& r.namespace@ == name
    &&& r.generation == 0
    &&& r.schema == m.schema
    &&& r.wal_commit_cursor is None
    &&& r.indexed_cursor is None
    &&& r.indexed_wal_bytes == 0
    &&& r.vector_index_generations == m.vector_index_generations
    &&& r.approx_logical_bytes == m.approx_logical_bytes
    &&& r.approx_row_count == m.approx_row_count
    &&& r.created_at_ms == timestamp_ms
    &&& r.updated_at_ms == timestamp_ms
}

/// A namespace that was just made from another has a log of its own, of which nothing
/// is written: nothing in it waits to be indexed, and none of it counts as indexed.
pub proof fn law_fresh_namespace_has_nothing_unindexed(
    r: NamespaceManifest,
    m: NamespaceManifest,
    name: Seq<char>,
    timestamp_ms: u64,
    epoch: u64,
)
    requires
        transplanted(r, m, name, timestamp_ms),
    ensures
        backpressure::unindexed(r, 0) == Some(0nat),
        !indexer::has_unindexed(r.indexed_cursor, (WalCursor { epoch, seq: 0 })),
        fully_indexed(r, (WalCursor { epoch, seq: 0 })),
{
}

/// The manifest of a branch: the same index objects under another name, with the
/// snapshot that it comes from.
pub fn branch_manifest(manifest: NamespaceManifest, source: &str, child: &str, timestamp_ms: u64) -> (r:
    NamespaceManifest)
    ensures
        transplanted(r, manifest, child@, timestamp_ms),
        r.doc_ssts == manifest.doc_ssts,
        r.attr_ssts == manifest.attr_ssts,
        r.text_ssts == manifest.text_ssts,
        r.vector_indexes == manifest.vector_indexes,
        r.branch_parent is Some,
        r.branch_parent->Some_0.namespace@ == source@,
        r.branch_parent->Some_0.generation == manifest.generation,
{
    let mut m = manifest;
    let generation: u64 = m.generation;
    m.namespace = child.to_owned();
    m.generation = 0;
    m.wal_commit_cursor = None;
    m.indexed_cursor = None;
    m.indexed_wal_bytes = 0;
    m.branch_parent = Some(BranchParent { namespace: source.to_owned(), generation });
    m.created_at_ms = timestamp_ms;
    m.updated_at_ms = timestamp_ms;
    m
}

/// Where objects were copied to, by where they come from.
pub type Transfers = TextMap<ExportObject>;

/// The key that an object was copied to.
pub open spec fn new_key(t: Transfers, key: Seq<char>) -> Option<Seq<char>> {
    if t.map().dom().contains(key) {
        Some(t.map()[key].export_key@)
    } else {
        None
    }
}

fn transferred_key(t: &Transfers, key: &String) -> (r: Result<String, Error>)
    requires
        t.wf(),
    ensures
        match r {
            Ok(k) => new_key(*t, key@) == Some(k@),
            Err(e) => new_key(*t, key@) is None && e is Corrupt && e->Corrupt_0@
                == "snapshot transfer omitted manifest object "@ + key@,
        },
{
    match t.get(key.as_str()) {
        Some(object) => Ok(object.export_key.clone()),
        None => Err(
            Error::Corrupt(text2("snapshot transfer omitted manifest object ", key.as_str())),
        ),
    }
}

/// A table under its new key.
pub open spec fn table_moved(t: Transfers, a: SstMeta, b: SstMeta) -> bool {
    &&& new_key(t, a.key@) == Some(b.key@)
    &&& b.size_bytes == a.size_bytes
    &&& b.row_count == a.row_count
    &&& b.min_id == a.min_id
    &&& b.max_id == a.max_id
}

/// Tables under their new keys.
pub open spec fn tables_moved(t: Transfers, a: Seq<SstMeta>, b: Seq<SstMeta>) -> bool {
    a.len() == b.len() && forall|i: int| 0 <= i < a.len() ==> table_moved(t, #[trigger] a[i], b[i])
}

/// Every table was copied.
pub open spec fn tables_known(t: Transfers, a: Seq<SstMeta>) -> bool {
    forall|i: int| 0 <= i < a.len() ==> new_key(t, (#[trigger] a[i]).key@) is Some
}

fn rewrite_tables(t: &Transfers, metas: &mut Vec<SstMeta>) -> (r: Result<(), Error>)
    requires
        t.wf(),
    ensures
        tables_known(*t, old(metas)@) ==> r is Ok && tables_moved(*t, old(metas)@, final(metas)@),
        !tables_known(*t, old(metas)@) ==> r is Err && r->Err_0 is Corrupt,
{
    let ghost start = metas@;
    let mut i: usize = 0;
    while i < metas.len()
        invariant
            i <= metas@.len(),
            metas@.len() == start.len(),
            start == old(metas)@,
            t.wf(),
            forall|j: int| 0 <= j < i ==> table_moved(*t, #[trigger] start[j], metas@[j]),
            forall|j: int| i <= j < start.len() ==> #[trigger] metas@[j] == start[j],
        decreases metas@.len() - i,
    {
        match transferred_key(t, &metas[i].key) {
            Ok(key) => {
                metas[i].key = key;
            },
            Err(e) => {
                assert(new_key(*t, start[i as int].key@) is None);
                return Err(e);
            },
        }
        i = i + 1;
    }
    Ok(())
}

/// An object that may not be there was copied if it is.
pub open spec fn optional_known(t: Transfers, key: Option<String>) -> bool {
    key matches Some(k) ==> new_key(t, k@) is Some
}

/// An object that may not be there, under its new key.
pub open spec fn optional_moved(t: Transfers, a: Option<String>, b: Option<String>) -> bool {
    match (a, b) {
        (None, None) => true,
        (Some(x), Some(y)) => new_key(t, x@) == Some(y@),
        _ => false,
    }
}

fn rewrite_optional(t: &Transfers, key: &Option<String>) -> (r: Result<Option<String>, Error>)
    requires
        t.wf(),
    ensures
        match r {
            Ok(k) => optional_known(*t, *key) && optional_moved(*t, *key, k),
            Err(e) => !optional_known(*t, *key) && e is Corrupt,
        },
{
    match key {
        None => Ok(None),
        Some(key) => match transferred_key(t, key) {
            Ok(k) => Ok(Some(k)),
            Err(e) => Err(e),
        },
    }
}

/// The objects of an extension were copied.
pub open spec fn append_known(t: Transfers, a: VectorAppendMeta) -> bool {
    new_key(t, a.key@) is Some && optional_known(t, a.rabitq_key)
}

/// An extension under its new keys.
pub open spec fn append_moved(t: Transfers, a: VectorAppendMeta, b: VectorAppendMeta) -> bool {
    &&& new_key(t, a.key@) == Some(b.key@)
    &&& b.size_bytes == a.size_bytes
    &&& optional_moved(t, a.rabitq_key, b.rabitq_key)
    &&& b.rabitq_size_bytes == a.rabitq_size_bytes
}

/// The objects of a vector index were copied.
pub open spec fn vector_known(t: Transfers, a: VectorIndexMeta) -> bool {
    &&& new_key(t, a.key@) is Some
    &&& optional_known(t, a.rabitq_key)
    &&& optional_known(t, a.version_map_key)
    &&& forall|i: int|
        0 <= i < a.append_indexes@.len() ==> append_known(t, #[trigger] a.append_indexes@[i])
}

/// A vector index under its new keys.
pub open spec fn vector_moved(t: Transfers, a: VectorIndexMeta, b: VectorIndexMeta) -> bool {
    &&& new_key(t, a.key@) == Some(b.key@)
    &&& b.size_bytes == a.size_bytes
    &&& optional_moved(t, a.rabitq_key, b.rabitq_key)
    &&& b.rabitq_size_bytes == a.rabitq_size_bytes
    &&& optional_moved(t, a.version_map_key, b.version_map_key)
    &&& b.version_map_size_bytes == a.version_map_size_bytes
    &&& b.append_indexes@.len() == a.append_indexes@.len()
    &&& forall|i: int|
        0 <= i < a.append_indexes@.len() ==> append_moved(
            t,
            #[trigger] a.append_indexes@[i],
            b.append_indexes@[i],
        )
    &&& b.maintenance_plan == a.maintenance_plan
}

fn rewrite_vector(t: &Transfers, meta: VectorIndexMeta) -> (r: Result<VectorIndexMeta, Error>)
    requires
        t.wf(),
    ensures
        match r {
            Ok(m) => vector_known(*t, meta) && vector_moved(*t, meta, m),
            Err(e) => !vector_known(*t, meta) && e is Corrupt,
        },
{
    let key = match transferred_key(t, &meta.key) {
        Ok(key) => key,
        Err(e) => {
            return Err(e);
        },
    };
    let rabitq_key = match rewrite_optional(t, &meta.rabitq_key) {
        Ok(key) => key,
        Err(e) => {
            return Err(e);
        },
    };
    let version_map_key = match rewrite_optional(t, &meta.version_map_key) {
        Ok(key) => key,
        Err(e) => {
            return Err(e);
        },
    };
    let mut appends: Vec<VectorAppendMeta> = Vec::new();
    let old_appends = &meta.append_indexes;
    let mut i: usize = 0;
    while i < old_appends.len()
        invariant
            i <= old_appends@.len(),
            *old_appends == meta.append_indexes,
            t.wf(),
            appends@.len() == i,
            forall|j: int| 0 <= j < i ==> append_known(*t, #[trigger] old_appends@[j]),
            forall|j: int|
                0 <= j < i ==> append_moved(*t, #[trigger] old_appends@[j], appends@[j]),
        decreases old_appends@.len() - i,
    {
        let append = &old_appends[i];
        let key = match transferred_key(t, &append.key) {
            Ok(key) => key,
            Err(e) => {
                assert(!append_known(*t, meta.append_indexes@[i as int]));
                return Err(e);
            },
        };
        let rabitq_key = match rewrite_optional(t, &append.rabitq_key) {
            Ok(key) => key,
            Err(e) => {
                assert(!append_known(*t, meta.append_indexes@[i as int]));
                return Err(e);
            },
        };
        appends.push(
            VectorAppendMeta {
                key,
                size_bytes: append.size_bytes,
                rabitq_key,
                rabitq_size_bytes: append.rabitq_size_bytes,
            },
        );
        i = i + 1;
    }
    Ok(
        VectorIndexMeta {
            key,
            size_bytes: meta.size_bytes,
            rabitq_key,
            rabitq_size_bytes: meta.rabitq_size_bytes,
            version_map_key,
            version_map_size_bytes: meta.version_map_size_bytes,
            append_indexes: appends,
            maintenance_plan: meta.maintenance_plan,
        },
    )
}

/// Every vector index was copied.
pub open spec fn vectors_known(t: Transfers, a: TextMap<VectorIndexMeta>) -> bool {
    forall|k: Seq<char>| a.map().dom().contains(k) ==> vector_known(t, #[trigger] a.map()[k])
}

/// Vector indexes under their new keys.
pub open spec fn vectors_moved(
    t: Transfers,
    a: TextMap<VectorIndexMeta>,
    b: TextMap<VectorIndexMeta>,
) -> bool {
    &&& b.map().dom() == a.map().dom()
    &&& forall|k: Seq<char>|
        a.map().dom().contains(k) ==> vector_moved(t, #[trigger] a.map()[k], b.map()[k])
}

fn rewrite_vectors(t: &Transfers, metas: TextMap<VectorIndexMeta>) -> (r: Result<
    TextMap<VectorIndexMeta>,
    Error,
>)
    requires
        t.wf(),
        metas.wf(),
    ensures
        match r {
            Ok(m) => m.wf() && vectors_known(*t, metas) && vectors_moved(*t, metas, m),
            Err(e) => !vectors_known(*t, metas) && e is Corrupt,
        },
{
    let ghost keys = metas.keys();
    let ghost values = metas.values();
    let ghost start = metas.map();
    proof {
        assert forall|j: int| 0 <= j < keys.len() implies start.dom().contains(#[trigger] keys[j])
            && start[keys[j]] == values[j] by {
            metas.lemma_position(j);
        }
    }
    let entries = metas.into_entries();
    let ghost given = entries@;
    let n: usize = entries.len();
    let mut rest = reversed(entries);
    let mut out: TextMap<VectorIndexMeta> = TextMap::new();
    let mut i: usize = 0;
    while i < n
        invariant
            i <= n,
            n == keys.len(),
            n == given.len(),
            out.wf(),
            t.wf(),
            start == metas.map(),
            keys.len() == values.len(),
            crate::textmap::texts_sorted(keys),
            rest@.len() == n - i,
            forall|j: int| 0 <= j < rest@.len() ==> #[trigger] rest@[j] == given[n - 1 - j],
            forall|j: int|
                0 <= j < n ==> (#[trigger] given[j]).0@ == keys[j] && given[j].1 == values[j],
            forall|j: int|
                0 <= j < keys.len() ==> start.dom().contains(#[trigger] keys[j]) && start[keys[j]]
                    == values[j],
            forall|k: Seq<char>| #[trigger]
                out.map().dom().contains(k) <==> keys.take(i as int).contains(k),
            forall|k: Seq<char>| #[trigger]
                out.map().dom().contains(k) ==> start.dom().contains(k) && vector_known(
                    *t,
                    start[k],
                ) && vector_moved(*t, start[k], out.map()[k]),
        decreases n - i,
    {
        let ghost before = out.map();
        assert(rest@[rest@.len() - 1] == given[i as int]);
        if let Some((key, meta)) = rest.pop() {
            let ghost k0 = key@;
            proof {
                assert(start.dom().contains(keys[i as int]));
                assert(given[i as int].0@ == keys[i as int]);
                let a = keys.take(i + 1);
                let b = keys.take(i as int);
                assert forall|k: Seq<char>| a.contains(k) <==> b.contains(k) || k == k0 by {
                    if a.contains(k) {
                        let j = a.index_of(k);
                        if j < i {
                            assert(b[j] == k);
                        }
                    }
                    if b.contains(k) {
                        assert(a[b.index_of(k)] == k);
                    }
                    assert(a[i as int] == keys[i as int]);
                }
            }
            match rewrite_vector(t, meta) {
                Ok(moved) => {
                    out.insert(key, moved);
                    assert forall|k: Seq<char>| #[trigger]
                        out.map().dom().contains(k) implies start.dom().contains(k)
                        && vector_known(*t, start[k]) && vector_moved(
                        *t,
                        start[k],
                        out.map()[k],
                    ) by {
                        if k != k0 {
                            assert(before.dom().contains(k));
                        }
                    }
                },
                Err(e) => {
                    assert(!vector_known(*t, metas.map()[k0]));
                    return Err(e);
                },
            }
        }
        i = i + 1;
    }
    proof {
        assert(keys.take(n as int) =~= keys);
        assert forall|k: Seq<char>| out.map().dom().contains(k) <==> start.dom().contains(k) by {
            if keys.contains(k) {
                assert(keys[keys.index_of(k)] == k);
            }
        }
        assert(out.map().dom() =~= start.dom());
    }
    Ok(out)
}

/// Every object that a manifest names was copied.
pub open spec fn all_known(t: Transfers, m: NamespaceManifest) -> bool {
    &&& tables_known(t, m.doc_ssts@)
    &&& tables_known(t, m.attr_ssts@)
    &&& tables_known(t, m.text_ssts@)
    &&& vectors_known(t, m.vector_indexes)
}

/// The manifest of a copy: every object under the key that it was copied to. An
/// object that was not copied makes the copy corrupt.
pub fn copied_manifest(
    manifest: NamespaceManifest,
    transferred: &Transfers,
    target: &str,
    timestamp_ms: u64,
) -> (r: Result<NamespaceManifest, Error>)
    requires
        manifest.wf(),
        transferred.wf(),
    ensures
        match r {
            Ok(m) => {
                &&& all_known(*transferred, manifest)
                &&& transplanted(m, manifest, target@, timestamp_ms)
                &&& m.branch_parent is None
                &&& tables_moved(*transferred, manifest.doc_ssts@, m.doc_ssts@)
                &&& tables_moved(*transferred, manifest.attr_ssts@, m.attr_ssts@)
                &&& tables_moved(*transferred, manifest.text_ssts@, m.text_ssts@)
                &&& m.vector_indexes.wf()
                &&& vectors_moved(*transferred, manifest.vector_indexes, m.vector_indexes)
            },
            Err(e) => !all_known(*transferred, manifest) && e is Corrupt,
        },
{
    let mut m = manifest;
    match rewrite_tables(transferred, &mut m.doc_ssts) {
        Ok(_) => {},
        Err(e) => {
            return Err(e);
        },
    }
    match rewrite_tables(transferred, &mut m.attr_ssts) {
        Ok(_) => {},
        Err(e) => {
            return Err(e);
        },
    }
    match rewrite_tables(transferred, &mut m.text_ssts) {
        Ok(_) => {},
        Err(e) => {
            return Err(e);
        },
    }
    let vectors = match rewrite_vectors(transferred, m.vector_indexes) {
        Ok(vectors) => vectors,
        Err(e) => {
            return Err(e);
        },
    };
    m.vector_indexes = vectors;
    m.namespace = target.to_owned();
    m.generation = 0;
    m.wal_commit_cursor = None;
    m.indexed_cursor = None;
    m.indexed_wal_bytes = 0;
    m.branch_parent = None;
    m.created_at_ms = timestamp_ms;
    m.updated_at_ms = timestamp_ms;
    Ok(m)
}

/// Where the objects of a copy lie.
pub fn copy_root(target: &str) -> (s: String)
    ensures
        s@ == namespace::namespace_key(target@, "/index/g/0/copy"@),
{
    let mut s = "namespaces/".to_owned();
    s.append(target);
    s.append("/index/g/0/copy");
    s
}

/// A number in at least `width` digits.
pub open spec fn padded(n: nat, width: nat) -> Seq<char> {
    let d = strings::decimal(n);
    if d.len() >= width {
        d
    } else {
        Seq::new((width - d.len()) as nat, |i: int| '0') + d
    }
}

/// The key that an object is copied to: its place in the order of keys, in eight
/// digits, and its checksum.
pub open spec fn export_name(root: Seq<char>, ordinal: nat, checksum: Seq<char>) -> Seq<char> {
    root + "/objects/"@ + padded(ordinal, 8) + "-"@ + checksum + ".bin"@
}

/// The key that an object is copied to.
pub fn export_key(root: &str, ordinal: usize, checksum: &ObjectVersion) -> (s: String)
    ensures
        s@ == export_name(root@, ordinal as nat, checksum.0@),
{
    let mut s = root.to_owned();
    s.append("/objects/");
    let digits = decimal_text(ordinal as u64);
    let ghost start = s@;
    let n: usize = crate::strings::chars_of(digits.as_str()).len();
    let mut k: usize = n;
    while k < 8
        invariant
            n <= k,
            k <= 8 || k == n,
            s@ == start + Seq::new((k - n) as nat, |i: int| '0'),
        decreases 8 - k,
    {
        s.push('0');
        k = k + 1;
        assert(s@ =~= start + Seq::new((k - n) as nat, |i: int| '0'));
    }
    s.append(digits.as_str());
    assert(s@ =~= start + padded(ordinal as nat, 8));
    s.append("-");
    s.append(checksum.0.as_str());
    s.append(".bin");
    s
}

/// How many bytes objects have together.
pub open spec fn copied_size(objects: Seq<ExportObject>) -> nat
    decreases objects.len(),
{
    if objects.len() == 0 {
        0
    } else {
        copied_size(objects.drop_last()) + objects.last().size_bytes as nat
    }
}

/// How many bytes objects have together, if that can be told.
pub fn copied_bytes(objects: &Vec<ExportObject>) -> (r: Option<u64>)
    ensures
        match r {
            Some(n) => n == copied_size(objects@),
            None => copied_size(objects@) > u64::MAX,
        },
{
    let mut sum: u64 = 0;
    let mut i: usize = 0;
    assert(objects@.take(0) =~= Seq::empty());
    while i < objects.len()
        invariant
            i <= objects@.len(),
            sum == copied_size(objects@.take(i as int)),
        decreases objects@.len() - i,
    {
        assert(objects@.take(i + 1).drop_last() =~= objects@.take(i as int));
        match sum.checked_add(objects[i].size_bytes) {
            Some(next) => {
                sum = next;
            },
            None => {
                proof {
                    lemma_copied_grows(objects@, i + 1);
                }
                return None;
            },
        }
        i = i + 1;
    }
    assert(objects@.take(i as int) =~= objects@);
    Some(sum)
}

proof fn lemma_copied_grows(objects: Seq<ExportObject>, n: int)
    requires
        0 <= n <= objects.len(),
    ensures
        copied_size(objects.take(n)) <= copied_size(objects),
    decreases objects.len() - n,
{
    if n == objects.len() {
        assert(objects.take(n) =~= objects);
    } else {
        assert(objects.take(n + 1).drop_last() =~= objects.take(n));
        lemma_copied_grows(objects, n + 1);
    }
}

/// The prefix of an export: without slashes at its end, and then not empty.
pub fn export_prefix(prefix: &str) -> (r: Result<String, Error>)
    ensures
        match r {
            Ok(s) => s@ == strings::trimmed_end(prefix@, '/') && s@.len() > 0,
            Err(e) => strings::trimmed_end(prefix@, '/').len() == 0 && e is InvalidWrite
                && e->InvalidWrite_0@ == "snapshot export prefix cannot be empty"@,
        },
{
    let s = trim_end_char(prefix, '/');
    if s.as_str().is_empty() {
        return Err(invalid_write("snapshot export prefix cannot be empty"));
    }
    Ok(s)
}

/// The key of an export's catalog.
pub fn catalog_key(prefix: &str) -> (s: String)
    ensures
        s@ == prefix@ + "/catalog.json"@,
{
    text2(prefix, "/catalog.json")
}

/// Whether objects written once agree: what is there already must be the same. `what`
/// names the key in the message.
pub fn check_immutable(what: &str, key: &str, wanted: &[u8], existing: &[u8]) -> (r: Result<
    (),
    Error,
>)
    ensures
        wanted@ == existing@ ==> r is Ok,
        wanted@ != existing@ ==> r is Err && r->Err_0 is Corrupt && r->Err_0->Corrupt_0@ == what@
            + " collision at "@ + key@,
{
    if crate::order::same_bytes(wanted, existing) {
        Ok(())
    } else {
        Err(Error::Corrupt(text3(what, " collision at ", key)))
    }
}

/// A namespace can be taken as it stands in its tables exactly where nothing of its log
/// waits and nothing was indexed beyond it: right after a flush, but not once more was
/// written.
pub proof fn law_snapshots_need_no_log(m: NamespaceManifest, at: WalCursor, later: u64)
    requires
        m.indexed_cursor == Some(at),
        at.seq < later,
    ensures
        fully_indexed(m, at),
        !fully_indexed(m, (WalCursor { epoch: at.epoch, seq: later })),
        forall|commit: WalCursor| #[trigger]
            fully_indexed(m, commit) ==> !indexer::has_unindexed(m.indexed_cursor, commit),
        forall|commit: WalCursor|
            commit.epoch == at.epoch && commit.seq >= at.seq ==> (#[trigger] fully_indexed(m, commit)
                <==> !indexer::has_unindexed(m.indexed_cursor, commit)),
{
}

/// The sizes of copied objects add up.
pub proof fn law_copied_sizes_add_up(a: Seq<ExportObject>, b: Seq<ExportObject>, one: ExportObject)
    ensures
        copied_size(a + b) == copied_size(a) + copied_size(b),
        copied_size(seq![one]) == one.size_bytes,
    decreases b.len(),
{
    if b.len() == 0 {
        assert(a + b =~= a);
    } else {
        law_copied_sizes_add_up(a, b.drop_last(), one);
        assert((a + b).drop_last() =~= a + b.drop_last());
    }
    assert(seq![one].drop_last() =~= Seq::empty());
    reveal_with_fuel(copied_size, 2);
}

proof fn lemma_padded_reads_back(n: nat, width: nat)
    ensures
        strings::digits_value(padded(n, width)) == Some(n),
        padded(n, width).len() >= width,
        !padded(n, width).contains('-'),
    decreases width,
{
    strings::law_decimal_reads_back(n);
    let d = strings::decimal(n);
    let p = padded(n, width);
    assert forall|i: int| 0 <= i < p.len() implies '0' <= (#[trigger] p[i]) <= '9' by {
        if d.len() < width {
            if i >= width - d.len() {
                assert(p[i] == d[i - (width - d.len())]);
            }
        }
    }
    if d.len() < width {
        lemma_zeros_before((width - d.len()) as nat, d);
    }
}

proof fn lemma_zeros_before(k: nat, d: Seq<char>)
    requires
        strings::digits_value(d) is Some,
    ensures
        strings::digits_value(Seq::new(k, |i: int| '0') + d) == strings::digits_value(d),
    decreases d.len(), k,
{
    let z = Seq::new(k, |i: int| '0');
    let all = z + d;
    if d.len() > 0 {
        lemma_zeros_before(k, d.drop_last());
        assert(all.drop_last() =~= z + d.drop_last());
    } else if k > 0 {
        lemma_zeros_before((k - 1) as nat, d);
        assert(all.drop_last() =~= Seq::new((k - 1) as nat, |i: int| '0') + d);
    } else {
        assert(all =~= d);
    }
}

/// Objects at different places of an export have different keys, and so have objects with
/// different contents.
pub proof fn law_exported_objects_have_keys_of_their_own(
    root: Seq<char>,
    i: nat,
    j: nat,
    c: Seq<char>,
    d: Seq<char>,
)
    requires
        export_name(root, i, c) == export_name(root, j, d),
    ensures
        i == j,
        c == d,
{
    reveal_strlit("-");
    lemma_padded_reads_back(i, 8);
    lemma_padded_reads_back(j, 8);
    let start = root + "/objects/"@;
    let end = ".bin"@;
    let x = "-"@ + (c + end);
    let y = "-"@ + (d + end);
    assert(export_name(root, i, c) =~= start + (padded(i, 8) + x));
    assert(export_name(root, j, d) =~= start + (padded(j, 8) + y));
    namespace::lemma_behind(start, padded(i, 8) + x, padded(j, 8) + y);
    strings::lemma_same_split(padded(i, 8), x, padded(j, 8), y, '-');
    namespace::lemma_behind("-"@, c + end, d + end);
    assert((c + end).len() == (d + end).len());
    assert((c + end).take(c.len() as int) =~= c);
    assert((d + end).take(d.len() as int) =~= d);
}

/// The objects of a vector index that was copied are those of the index it comes from, one
/// for one and of the same sizes and kinds, each under the key that it was copied to.
pub proof fn law_copied_index_has_the_copied_objects(
    t: Transfers,
    a: VectorIndexMeta,
    b: VectorIndexMeta,
    i: int,
)
    requires
        vector_moved(t, a, b),
        0 <= i < manifest::vector_objects(a).len(),
    ensures
        manifest::vector_objects(b).len() == manifest::vector_objects(a).len(),
        manifest::vector_objects(b)[i].kind == manifest::vector_objects(a)[i].kind,
        manifest::vector_objects(b)[i].size_bytes == manifest::vector_objects(a)[i].size_bytes,
        t.map().dom().contains(manifest::vector_objects(a)[i].key),
        manifest::vector_objects(b)[i].key == t.map()[manifest::vector_objects(
            a,
        )[i].key].export_key@,
{
    let x = manifest::vector_objects(a);
    let y = manifest::vector_objects(b);
    let m = manifest::optional_object(
        a.version_map_key,
        a.version_map_size_bytes,
        CacheObjectKind::VectorVersionMap,
    );
    let c = manifest::optional_object(a.rabitq_key, a.rabitq_size_bytes, CacheObjectKind::Rabitq);
    let n = 1 + m.len() + c.len();
    if i >= n {
        lemma_appends_moved(t, a.append_indexes@, b.append_indexes@, i - n);
    } else if 0 < a.append_indexes@.len() {
        lemma_appends_moved(t, a.append_indexes@, b.append_indexes@, 0);
    } else {
        assert(b.append_indexes@.len() == 0);
    }
}

proof fn lemma_appends_moved(
    t: Transfers,
    a: Seq<VectorAppendMeta>,
    b: Seq<VectorAppendMeta>,
    i: int,
)
    requires
        a.len() == b.len(),
        forall|k: int| 0 <= k < a.len() ==> append_moved(t, #[trigger] a[k], b[k]),
    ensures
        manifest::append_objects(b).len() == manifest::append_objects(a).len(),
        0 <= i < manifest::append_objects(a).len() ==> {
            let x = manifest::append_objects(a)[i];
            let y = manifest::append_objects(b)[i];
            &&& y.kind == x.kind
            &&& y.size_bytes == x.size_bytes
            &&& t.map().dom().contains(x.key)
            &&& y.key == t.map()[x.key].export_key@
        },
    decreases a.len(),
{
    if a.len() > 0 {
        let p = a.drop_last();
        let q = b.drop_last();
        assert forall|k: int| 0 <= k < p.len() implies append_moved(t, #[trigger] p[k], q[k]) by {
            assert(append_moved(t, a[k], b[k]));
        }
        lemma_appends_moved(t, p, q, i);
        assert(append_moved(t, a[a.len() - 1], b[b.len() - 1]));
    }
}

} // verus!
