//! The manifest: the catalog of a namespace. Every generation is an immutable
//! object, and a small pointer object names the current one.

use vstd::prelude::*;
use vstd::string::*;

use crate::strings;
use crate::phrase::say;
use crate::namespace;
use crate::cache_warm;
use crate::cache_warm::{CacheObjectKind, CacheWarmObject, ObjectView};
use crate::error::Error;
use crate::namespace::manifest_body_key;
use crate::schema::Schema;
use crate::textmap::{TextMap, TextSet};
use crate::value::Id;
use crate::wal::WalCursor;

verus! {

pub const MANIFEST_FORMAT_VERSION: u32 = 1;

/// The snapshot that a namespace was branched from.
#[derive(Clone, Debug)]
pub struct BranchParent {
    pub namespace: String,
    pub generation: u64,
}

/// A table that a manifest names, with the range of keys it holds.
#[derive(Clone, Debug)]
pub struct SstMeta {
    pub key: String,
    pub size_bytes: u64,
    pub row_count: u64,
    pub min_id: Option<Id>,
    pub max_id: Option<Id>,
}

/// A vector index that extends another one.
#[derive(Clone, Debug)]
pub struct VectorAppendMeta {
    pub key: String,
    pub size_bytes: u64,
    pub rabitq_key: Option<String>,
    pub rabitq_size_bytes: u64,
}

/// What to do with a cluster of a vector index.
#[derive(Clone, Copy, Debug, PartialEq, Eq, Structural)]
pub enum VectorMaintenanceAction {
    Split,
    Merge,
}

/// One piece of work on the clusters of a vector index.
#[derive(Clone, Debug)]
pub struct VectorMaintenanceTask {
    pub action: VectorMaintenanceAction,
    pub cluster_id: u32,
    pub partner_cluster_id: Option<u32>,
    pub neighbor_cluster_ids: Vec<u32>,
    pub live_rows: u64,
    pub stale_rows: u64,
    pub append_rows: u64,
    pub total_rows: u64,
}

/// From which sizes on clusters are split or merged.
#[derive(Clone, Copy, Debug, PartialEq, Eq, Structural)]
pub struct VectorMaintenanceThresholds {
    pub min_posting_rows: u64,
    pub max_posting_rows: u64,
    pub reassign_neighborhood: usize,
}

/// The work that a vector index needs.
#[derive(Clone, Debug)]
pub struct VectorMaintenancePlan {
    pub thresholds: VectorMaintenanceThresholds,
    pub tasks: Vec<VectorMaintenanceTask>,
}

/// A vector index that a manifest names, with what belongs to it.
#[derive(Clone, Debug)]
pub struct VectorIndexMeta {
    pub key: String,
    pub size_bytes: u64,
    pub rabitq_key: Option<String>,
    pub rabitq_size_bytes: u64,
    pub version_map_key: Option<String>,
    pub version_map_size_bytes: u64,
    pub append_indexes: Vec<VectorAppendMeta>,
    pub maintenance_plan: Option<VectorMaintenancePlan>,
}

/// The catalog of a namespace at one generation. Tables are listed newest first.
#[derive(Debug)]
pub struct NamespaceManifest {
    pub format_version: u32,
    pub namespace: String,
    pub generation: u64,
    pub schema: Schema,
    pub wal_commit_cursor: Option<WalCursor>,
    pub indexed_cursor: Option<WalCursor>,
    pub indexed_wal_bytes: u64,
    pub doc_ssts: Vec<SstMeta>,
    pub attr_ssts: Vec<SstMeta>,
    pub text_ssts: Vec<SstMeta>,
    pub vector_indexes: TextMap<VectorIndexMeta>,
    pub vector_index_generations: TextMap<u64>,
    pub branch_parent: Option<BranchParent>,
    pub approx_logical_bytes: u64,
    pub approx_row_count: u64,
    pub created_at_ms: u64,
    pub updated_at_ms: u64,
}

/// The objects of tables, one per table.
pub open spec fn table_objects(metas: Seq<SstMeta>, kind: CacheObjectKind) -> Seq<ObjectView> {
    Seq::new(
        metas.len(),
        |i: int| ObjectView { key: metas[i].key@, size_bytes: metas[i].size_bytes, kind },
    )
}

/// An object that may not be there.
pub open spec fn optional_object(
    key: Option<String>,
    size_bytes: u64,
    kind: CacheObjectKind,
) -> Seq<ObjectView> {
    match key {
        None => Seq::empty(),
        Some(key) => seq![ObjectView { key: key@, size_bytes, kind }],
    }
}

/// The objects of the indexes that extend a vector index.
pub open spec fn append_objects(appends: Seq<VectorAppendMeta>) -> Seq<ObjectView>
    decreases appends.len(),
{
    if appends.len() == 0 {
        Seq::empty()
    } else {
        let a = appends.last();
        append_objects(appends.drop_last()) + seq![
            ObjectView {
                key: a.key@,
                size_bytes: a.size_bytes,
                kind: CacheObjectKind::VectorIndex,
            },
        ] + optional_object(a.rabitq_key, a.rabitq_size_bytes, CacheObjectKind::Rabitq)
    }
}

/// The objects of a vector index: the index, its version map, its codes, and the
/// indexes that extend it.
pub open spec fn vector_objects(meta: VectorIndexMeta) -> Seq<ObjectView> {
    seq![
        ObjectView {
            key: meta.key@,
            size_bytes: meta.size_bytes,
            kind: CacheObjectKind::VectorIndex,
        },
    ] + optional_object(
        meta.version_map_key,
        meta.version_map_size_bytes,
        CacheObjectKind::VectorVersionMap,
    ) + optional_object(meta.rabitq_key, meta.rabitq_size_bytes, CacheObjectKind::Rabitq)
        + append_objects(meta.append_indexes@)
}

/// The objects of vector indexes.
pub open spec fn all_vector_objects(metas: Seq<VectorIndexMeta>) -> Seq<ObjectView>
    decreases metas.len(),
{
    if metas.len() == 0 {
        Seq::empty()
    } else {
        all_vector_objects(metas.drop_last()) + vector_objects(metas.last())
    }
}

/// The objects that a manifest names, the most valuable to have at hand first.
pub open spec fn index_objects(m: NamespaceManifest) -> Seq<ObjectView> {
    all_vector_objects(m.vector_indexes.values()) + table_objects(
        m.text_ssts@,
        CacheObjectKind::TextSst,
    ) + table_objects(m.attr_ssts@, CacheObjectKind::AttributeSst) + table_objects(
        m.doc_ssts@,
        CacheObjectKind::DocumentSst,
    )
}

/// The keys of objects.
pub open spec fn object_keys(objects: Seq<ObjectView>) -> Set<Seq<char>> {
    Set::new(|key: Seq<char>| exists|i: int| 0 <= i < objects.len() && #[trigger] objects[i].key == key)
}

fn push_tables(out: &mut Vec<CacheWarmObject>, metas: &Vec<SstMeta>, kind: CacheObjectKind)
    ensures
        cache_warm::objects_view(final(out)@) == cache_warm::objects_view(old(out)@) + table_objects(metas@, kind),
{
    let mut i: usize = 0;
    assert(cache_warm::objects_view(out@) =~= cache_warm::objects_view(old(out)@) + table_objects(metas@, kind).take(0));
    while i < metas.len()
        invariant
            i <= metas@.len(),
            cache_warm::objects_view(out@) == cache_warm::objects_view(old(out)@) + table_objects(metas@, kind).take(
                i as int,
            ),
        decreases metas@.len() - i,
    {
        let ghost before = out@;
        let object = CacheWarmObject {
            key: metas[i].key.clone(),
            size_bytes: metas[i].size_bytes,
            kind,
        };
        out.push(object);
        proof {
            let all = table_objects(metas@, kind);
            assert(all.take(i + 1) =~= all.take(i as int).push(all[i as int]));
            assert(cache_warm::objects_view(out@) =~= cache_warm::objects_view(before).push(cache_warm::object_view(object)));
            assert(cache_warm::objects_view(out@) =~= cache_warm::objects_view(old(out)@) + all.take(i + 1));
        }
        i = i + 1;
    }
    assert(table_objects(metas@, kind).take(i as int) =~= table_objects(metas@, kind));
}

fn push_object(out: &mut Vec<CacheWarmObject>, key: &String, size_bytes: u64, kind: CacheObjectKind)
    ensures
        cache_warm::objects_view(final(out)@) == cache_warm::objects_view(old(out)@) + seq![
            ObjectView { key: key@, size_bytes, kind },
        ],
{
    out.push(CacheWarmObject { key: key.clone(), size_bytes, kind });
    assert(cache_warm::objects_view(out@) =~= cache_warm::objects_view(old(out)@) + seq![
        ObjectView { key: key@, size_bytes, kind },
    ]);
}

fn push_optional(
    out: &mut Vec<CacheWarmObject>,
    key: &Option<String>,
    size_bytes: u64,
    kind: CacheObjectKind,
)
    ensures
        cache_warm::objects_view(final(out)@) == cache_warm::objects_view(old(out)@) + optional_object(
            *key,
            size_bytes,
            kind,
        ),
{
    match key {
        Some(key) => push_object(out, key, size_bytes, kind),
        None => {
            assert(cache_warm::objects_view(out@) =~= cache_warm::objects_view(old(out)@) + Seq::empty());
        },
    }
}

fn push_vector(out: &mut Vec<CacheWarmObject>, meta: &VectorIndexMeta)
    ensures
        cache_warm::objects_view(final(out)@) == cache_warm::objects_view(old(out)@) + vector_objects(*meta),
{
    push_object(out, &meta.key, meta.size_bytes, CacheObjectKind::VectorIndex);
    push_optional(
        out,
        &meta.version_map_key,
        meta.version_map_size_bytes,
        CacheObjectKind::VectorVersionMap,
    );
    push_optional(out, &meta.rabitq_key, meta.rabitq_size_bytes, CacheObjectKind::Rabitq);
    let ghost start = cache_warm::objects_view(out@);
    let appends = &meta.append_indexes;
    let mut i: usize = 0;
    proof {
        assert(appends@.take(0) =~= Seq::empty());
        assert(start =~= start + append_objects(appends@.take(0)));
    }
    while i < appends.len()
        invariant
            i <= appends@.len(),
            cache_warm::objects_view(out@) == start + append_objects(appends@.take(i as int)),
        decreases appends@.len() - i,
    {
        let ghost before = cache_warm::objects_view(out@);
        let append = &appends[i];
        push_object(out, &append.key, append.size_bytes, CacheObjectKind::VectorIndex);
        push_optional(out, &append.rabitq_key, append.rabitq_size_bytes, CacheObjectKind::Rabitq);
        proof {
            let now = appends@.take(i + 1);
            assert(now.drop_last() =~= appends@.take(i as int));
            assert(now.last() == *append);
            assert(cache_warm::objects_view(out@) =~= start + append_objects(now));
        }
        i = i + 1;
    }
    proof {
        assert(appends@.take(i as int) =~= appends@);
        assert(cache_warm::objects_view(out@) =~= cache_warm::objects_view(old(out)@) + vector_objects(*meta));
    }
}

impl NamespaceManifest {
    /// The maps of the manifest are in key order.
    pub open spec fn wf(self) -> bool {
        self.schema.wf() && self.vector_indexes.wf() && self.vector_index_generations.wf()
    }

    /// A fresh, empty namespace at generation 0.
    pub fn new(namespace: &str, created_at_ms: u64) -> (m: NamespaceManifest)
        ensures
            m.wf(),
            m.format_version == MANIFEST_FORMAT_VERSION,
            m.namespace@ == namespace@,
            m.generation == 0,
            m.schema.columns.map() == Map::<Seq<char>, crate::schema::ColumnSpec>::empty(),
            m.schema.version == 0,
            m.wal_commit_cursor is None,
            m.indexed_cursor is None,
            m.indexed_wal_bytes == 0,
            m.doc_ssts@.len() == 0,
            m.attr_ssts@.len() == 0,
            m.text_ssts@.len() == 0,
            m.vector_indexes.keys().len() == 0,
            m.vector_index_generations.keys().len() == 0,
            m.branch_parent is None,
            m.approx_logical_bytes == 0,
            m.approx_row_count == 0,
            m.created_at_ms == created_at_ms,
            m.updated_at_ms == created_at_ms,
    {
        NamespaceManifest {
            format_version: MANIFEST_FORMAT_VERSION,
            namespace: namespace.to_owned(),
            generation: 0,
            schema: Schema::default(),
            wal_commit_cursor: None,
            indexed_cursor: None,
            indexed_wal_bytes: 0,
            doc_ssts: Vec::new(),
            attr_ssts: Vec::new(),
            text_ssts: Vec::new(),
            vector_indexes: TextMap::new(),
            vector_index_generations: TextMap::new(),
            branch_parent: None,
            approx_logical_bytes: 0,
            approx_row_count: 0,
            created_at_ms,
            updated_at_ms: created_at_ms,
        }
    }

    /// Refuses a manifest in a format of another version.
    pub fn check_version(&self) -> (r: Result<(), Error>)
        ensures
            self.format_version == MANIFEST_FORMAT_VERSION ==> r is Ok,
            self.format_version != MANIFEST_FORMAT_VERSION ==> r is Err && r->Err_0 is Corrupt
                && r->Err_0->Corrupt_0@ == "unsupported manifest format version "@
                + strings::decimal(self.format_version as nat),
    {
        if self.format_version != MANIFEST_FORMAT_VERSION {
            return Err(Error::Corrupt(
                    say("unsupported manifest format version ").number(
                        self.format_version as u64,
                    ).done(),
                ));
        }
        Ok(())
    }

    /// The objects that the manifest names.
    pub fn referenced_objects(&self) -> (out: Vec<CacheWarmObject>)
        ensures
            cache_warm::objects_view(out@) == index_objects(*self),
    {
        let mut out: Vec<CacheWarmObject> = Vec::new();
        let metas = &self.vector_indexes;
        let ghost values = metas.values();
        let count: usize = metas.len();
        let mut i: usize = 0;
        proof {
            assert(values.take(0) =~= Seq::empty());
            assert(cache_warm::objects_view(out@) =~= all_vector_objects(values.take(0)));
        }
        while i < count
            invariant
                i <= count,
                count == metas.keys().len(),
                count == values.len(),
                values == metas.values(),
                cache_warm::objects_view(out@) == all_vector_objects(values.take(i as int)),
            decreases count - i,
        {
            push_vector(&mut out, metas.value_at(i));
            proof {
                assert(values.take(i + 1).drop_last() =~= values.take(i as int));
            }
            i = i + 1;
        }
        assert(values.take(i as int) =~= values);
        push_tables(&mut out, &self.text_ssts, CacheObjectKind::TextSst);
        push_tables(&mut out, &self.attr_ssts, CacheObjectKind::AttributeSst);
        push_tables(&mut out, &self.doc_ssts, CacheObjectKind::DocumentSst);
        out
    }

    /// The keys of the objects that the manifest names.
    pub fn referenced_index_keys(&self) -> (keys: TextSet)
        ensures
            keys.wf(),
            keys.set() == object_keys(index_objects(*self)),
    {
        let objects = self.referenced_objects();
        let ghost all = index_objects(*self);
        let mut keys = TextSet::new();
        let mut i: usize = 0;
        assert(keys.set() =~= object_keys(all.take(0)));
        while i < objects.len()
            invariant
                i <= objects@.len(),
                cache_warm::objects_view(objects@) == all,
                keys.wf(),
                keys.set() == object_keys(all.take(i as int)),
            decreases objects@.len() - i,
        {
            let ghost before = keys.set();
            assert(all[i as int].key == objects@[i as int].key@);
            keys.insert(objects[i].key.clone());
            proof {
                let now = all.take(i + 1);
                let was = all.take(i as int);
                assert forall|k: Seq<char>| object_keys(now).contains(k) <==> before.insert(
                    all[i as int].key,
                ).contains(k) by {
                    if object_keys(now).contains(k) {
                        let j = choose|j: int| 0 <= j < now.len() && #[trigger] now[j].key == k;
                        if j < i {
                            assert(was[j].key == k);
                        }
                    }
                    if object_keys(was).contains(k) {
                        let j = choose|j: int| 0 <= j < was.len() && #[trigger] was[j].key == k;
                        assert(now[j].key == k);
                    }
                    assert(now[i as int].key == all[i as int].key);
                }
                assert(keys.set() =~= object_keys(now));
            }
            i = i + 1;
        }
        assert(all.take(i as int) =~= all);
        keys
    }
}

/// The object at `manifest/current`: which generation is current, and under which
/// key its body lies if not the usual one.
#[derive(Clone, Debug)]
pub struct ManifestPointer {
    pub generation: u64,
    pub body_key: Option<String>,
}

/// The key of the body that a pointer names.
pub open spec fn body_name(ns: Seq<char>, pointer: ManifestPointer) -> Seq<char> {
    match pointer.body_key {
        Some(key) => key@,
        None => namespace::manifest_body_name(ns, pointer.generation as nat),
    }
}

impl ManifestPointer {
    pub fn new(generation: u64) -> (p: ManifestPointer)
        ensures
            p.generation == generation,
            p.body_key is None,
    {
        ManifestPointer { generation, body_key: None }
    }

    /// A pointer to a body under a key of its own.
    pub fn for_body(generation: u64, body_key: String) -> (p: ManifestPointer)
        ensures
            p.generation == generation,
            p.body_key == Some(body_key),
    {
        ManifestPointer { generation, body_key: Some(body_key) }
    }

    /// The key of the body that the pointer names.
    pub fn manifest_body_key(&self, ns: &str) -> (key: String)
        ensures
            key@ == body_name(ns@, *self),
    {
        match &self.body_key {
            Some(key) => key.clone(),
            None => manifest_body_key(ns, self.generation),
        }
    }
}

/// The objects of a manifest are all that it names: its tables of documents, attributes
/// and text, its vector indexes with their version maps and codes, and the indexes that
/// extend these with theirs. So what is kept for a manifest is all of this.
pub proof fn law_every_named_object_is_listed(m: NamespaceManifest, i: int, j: int)
    ensures
        ({
            let keys = object_keys(index_objects(m));
            let metas = m.vector_indexes.values();
            &&& 0 <= i < m.doc_ssts@.len() ==> keys.contains(m.doc_ssts@[i].key@)
            &&& 0 <= i < m.attr_ssts@.len() ==> keys.contains(m.attr_ssts@[i].key@)
            &&& 0 <= i < m.text_ssts@.len() ==> keys.contains(m.text_ssts@[i].key@)
            &&& 0 <= i < metas.len() ==> {
                &&& keys.contains(metas[i].key@)
                &&& metas[i].version_map_key matches Some(k) ==> keys.contains(k@)
                &&& metas[i].rabitq_key matches Some(k) ==> keys.contains(k@)
                &&& 0 <= j < metas[i].append_indexes@.len() ==> {
                    &&& keys.contains(metas[i].append_indexes@[j].key@)
                    &&& metas[i].append_indexes@[j].rabitq_key matches Some(k) ==> keys.contains(k@)
                }
            }
        }),
{
    let all = index_objects(m);
    let metas = m.vector_indexes.values();
    let vectors = all_vector_objects(metas);
    let texts = table_objects(m.text_ssts@, CacheObjectKind::TextSst);
    let attrs = table_objects(m.attr_ssts@, CacheObjectKind::AttributeSst);
    let docs = table_objects(m.doc_ssts@, CacheObjectKind::DocumentSst);
    assert(all.take(vectors.len() as int) =~= vectors);
    if 0 <= i < m.text_ssts@.len() {
        assert(all[vectors.len() + i] == texts[i]);
        assert(all[vectors.len() + i].key == m.text_ssts@[i].key@);
    }
    if 0 <= i < m.attr_ssts@.len() {
        assert(all[vectors.len() + texts.len() + i] == attrs[i]);
        assert(all[vectors.len() + texts.len() + i].key == m.attr_ssts@[i].key@);
    }
    if 0 <= i < m.doc_ssts@.len() {
        assert(all[vectors.len() + texts.len() + attrs.len() + i] == docs[i]);
        assert(all[vectors.len() + texts.len() + attrs.len() + i].key == m.doc_ssts@[i].key@);
    }
    if 0 <= i < metas.len() {
        let meta = metas[i];
        let own = vector_objects(meta);
        let map = optional_object(
            meta.version_map_key,
            meta.version_map_size_bytes,
            CacheObjectKind::VectorVersionMap,
        );
        let codes = optional_object(meta.rabitq_key, meta.rabitq_size_bytes, CacheObjectKind::Rabitq);
        lemma_listed(metas, i, all, own[0]);
        if meta.version_map_key is Some {
            assert(own[1] == map[0]);
            lemma_listed(metas, i, all, own[1]);
        }
        if meta.rabitq_key is Some {
            assert(own[1 + map.len() as int] == codes[0]);
            lemma_listed(metas, i, all, own[1 + map.len() as int]);
        }
        if 0 <= j < meta.append_indexes@.len() {
            let appends = append_objects(meta.append_indexes@);
            lemma_append_listed(meta.append_indexes@, j);
            let a = meta.append_indexes@[j];
            let k = choose|k: int| 0 <= k < appends.len() && (#[trigger] appends[k]).key == a.key@;
            assert(own[1 + map.len() + codes.len() + k] == appends[k]);
            lemma_listed(metas, i, all, own[1 + map.len() + codes.len() + k]);
            if let Some(key) = a.rabitq_key {
                let k = choose|k: int| 0 <= k < appends.len() && (#[trigger] appends[k]).key == key@;
                assert(own[1 + map.len() + codes.len() + k] == appends[k]);
                lemma_listed(metas, i, all, own[1 + map.len() + codes.len() + k]);
            }
        }
    }
}

proof fn lemma_append_listed(appends: Seq<VectorAppendMeta>, j: int)
    requires
        0 <= j < appends.len(),
    ensures
        exists|k: int|
            0 <= k < append_objects(appends).len() && (#[trigger] append_objects(appends)[k]).key
                == appends[j].key@,
        appends[j].rabitq_key matches Some(key) ==> exists|k: int|
            0 <= k < append_objects(appends).len() && (#[trigger] append_objects(appends)[k]).key
                == key@,
    decreases appends.len(),
{
    let front = append_objects(appends.drop_last());
    let all = append_objects(appends);
    if j < appends.len() - 1 {
        lemma_append_listed(appends.drop_last(), j);
        let k = choose|k: int|
            0 <= k < front.len() && (#[trigger] front[k]).key == appends.drop_last()[j].key@;
        assert(all[k] == front[k]);
        if let Some(key) = appends[j].rabitq_key {
            let k = choose|k: int| 0 <= k < front.len() && (#[trigger] front[k]).key == key@;
            assert(all[k] == front[k]);
        }
    } else {
        assert(all[front.len() as int].key == appends[j].key@);
        if appends[j].rabitq_key is Some {
            assert(all[front.len() as int + 1].key == appends[j].rabitq_key->Some_0@);
        }
    }
}

proof fn lemma_listed(
    metas: Seq<VectorIndexMeta>,
    i: int,
    all: Seq<ObjectView>,
    o: ObjectView,
)
    requires
        0 <= i < metas.len(),
        vector_objects(metas[i]).contains(o),
        all_vector_objects(metas).len() <= all.len(),
        all.take(all_vector_objects(metas).len() as int) == all_vector_objects(metas),
    ensures
        object_keys(all).contains(o.key),
{
    lemma_vector_listed(metas, i, o);
    let k = all_vector_objects(metas).index_of(o);
    assert(all.take(all_vector_objects(metas).len() as int)[k] == o);
    assert(all[k].key == o.key);
}

proof fn lemma_vector_listed(metas: Seq<VectorIndexMeta>, i: int, o: ObjectView)
    requires
        0 <= i < metas.len(),
        vector_objects(metas[i]).contains(o),
    ensures
        all_vector_objects(metas).contains(o),
    decreases metas.len(),
{
    let front = all_vector_objects(metas.drop_last());
    let all = all_vector_objects(metas);
    if i < metas.len() - 1 {
        assert(metas.drop_last()[i] == metas[i]);
        lemma_vector_listed(metas.drop_last(), i, o);
        let k = front.index_of(o);
        assert(all[k] == o);
    } else {
        let k = vector_objects(metas[i]).index_of(o);
        assert(all[front.len() + k] == o);
    }
}

} // verus!
