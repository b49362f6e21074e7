//! The documents of a namespace: how the operations of the log change them, and
//! how the tables and the log together give what a reader sees.

use vstd::prelude::*;

use crate::sst::reader;
use crate::sst::block;
use crate::wal;
use crate::value;
use crate::doc;
use crate::codec::to_vec;
use crate::doc::{decode_id, encode_id, DocRecord};
use crate::error::Error;
use crate::manifest::SstMeta;
use crate::order::Order;
use crate::sorted::{Key, SortedMap, SortedSet};
use crate::sst::reader::SstReader;
use crate::textmap::TextMap;
use crate::value::{compare_ids, copy_id, same_id, Document, DocumentView, Id, IdView, Value, ValueView, VectorValue, VectorView};
use crate::wal::{op_id, OpView, WalCursor, WalOp};

verus! {

/// Documents by key.
pub type Docs = Map<IdView, DocumentView>;

/// What tables hold by key: a document, or `None` for a deletion.
pub type Records = Map<IdView, Option<DocumentView>>;

/// What a map of documents stands for.
pub open spec fn docs_view(m: SortedMap<Id, Document>) -> Docs {
    m.map().map_values(|d: Document| d@)
}

/// What a map of records stands for.
pub open spec fn records_view(m: SortedMap<Id, DocRecord>) -> Records {
    m.map().map_values(|r: DocRecord| doc::record_view(r))
}

/// The map and every document in it are well formed.
pub open spec fn docs_wf(m: SortedMap<Id, Document>) -> bool {
    &&& m.wf()
    &&& forall|id: IdView| m.map().dom().contains(id) ==> (#[trigger] m.map()[id]).wf()
}

/// The document of a record, if it has one, is well formed.
pub open spec fn record_wf(r: DocRecord) -> bool {
    r matches DocRecord::Present(d) ==> d.wf()
}

/// The map and every record in it are well formed.
pub open spec fn records_wf(m: SortedMap<Id, DocRecord>) -> bool {
    &&& m.wf()
    &&& forall|id: IdView| m.map().dom().contains(id) ==> record_wf(#[trigger] m.map()[id])
}

/// Attributes after a patch: those it names are set, or cleared where it has a
/// null; the others stay.
pub open spec fn patched_attributes(
    base: Map<Seq<char>, ValueView>,
    patch: Map<Seq<char>, ValueView>,
) -> Map<Seq<char>, ValueView> {
    Map::new(
        |k: Seq<char>|
            if patch.dom().contains(k) {
                !(patch[k] is Null)
            } else {
                base.dom().contains(k)
            },
        |k: Seq<char>|
            if patch.dom().contains(k) {
                patch[k]
            } else {
                base[k]
            },
    )
}

/// A document after a patch.
pub open spec fn patched(
    base: DocumentView,
    attributes: Map<Seq<char>, ValueView>,
    vectors: Map<Seq<char>, VectorView>,
) -> DocumentView {
    DocumentView {
        id: base.id,
        vectors: base.vectors.union_prefer_right(vectors),
        attributes: patched_attributes(base.attributes, attributes),
    }
}

/// A document with a key and nothing else.
pub open spec fn blank(id: IdView) -> DocumentView {
    DocumentView { id, vectors: Map::empty(), attributes: Map::empty() }
}

/// Documents after an operation. A patch of a document that is not there makes it.
pub open spec fn applied(docs: Docs, op: OpView) -> Docs {
    match op {
        OpView::Upsert { id, document } => docs.insert(id, document),
        OpView::Delete { id } => docs.remove(id),
        OpView::Patch { id, attributes, vectors } => {
            let base = if docs.dom().contains(id) {
                docs[id]
            } else {
                blank(id)
            };
            docs.insert(id, patched(base, attributes, vectors))
        },
    }
}

/// Documents after some operations, one after the other.
pub open spec fn applied_all(docs: Docs, ops: Seq<OpView>) -> Docs
    decreases ops.len(),
{
    if ops.len() == 0 {
        docs
    } else {
        applied(applied_all(docs, ops.drop_last()), ops.last())
    }
}

fn patch_attributes(base: &mut TextMap<Value>, patch: TextMap<Value>)
    requires
        old(base).wf(),
        patch.wf(),
    ensures
        final(base).wf(),
        value::attributes_view(*final(base)) == patched_attributes(
            value::attributes_view(*old(base)),
            value::attributes_view(patch),
        ),
{
    let ghost start = value::attributes_view(*base);
    let ghost all = value::attributes_view(patch);
    let ghost keys = patch.keys();
    let ghost values = patch.values();
    proof {
        assert forall|j: int| 0 <= j < keys.len() implies all.dom().contains(#[trigger] keys[j])
            && all[keys[j]] == values[j]@ by {
            patch.lemma_position(j);
        }
        assert(all.restrict(keys.skip(keys.len() as int).to_set()) =~= Map::empty());
        assert(patched_attributes(start, Map::empty()) =~= start);
    }
    let mut entries = patch.into_entries();
    while entries.len() > 0
        invariant
            base.wf(),
            entries@.len() <= keys.len(),
            keys.len() == values.len(),
            crate::textmap::texts_sorted(keys),
            forall|j: int|
                0 <= j < entries@.len() ==> (#[trigger] entries@[j]).0@ == keys[j] && entries@[j].1
                    == values[j],
            forall|j: int|
                0 <= j < keys.len() ==> all.dom().contains(#[trigger] keys[j]) && all[keys[j]]
                    == values[j]@,
            value::attributes_view(*base) == patched_attributes(
                start,
                all.restrict(keys.skip(entries@.len() as int).to_set()),
            ),
        decreases entries@.len(),
    {
        let ghost n = entries@.len() - 1;
        let ghost before = value::attributes_view(*base);
        let ghost was = all.restrict(keys.skip(n + 1).to_set());
        if let Some((key, value)) = entries.pop() {
            proof {
                lemma_skip_next(keys, n);
            }
            let ghost k = key@;
            let ghost v = value@;
            if let Value::Null = value {
                base.remove(key.as_str());
                assert(value::attributes_view(*base) =~= before.remove(k));
            } else {
                base.insert(key, value);
                assert(value::attributes_view(*base) =~= before.insert(k, v));
            }
            proof {
                let now = all.restrict(keys.skip(n).to_set());
                assert(now =~= was.insert(k, v));
                assert(value::attributes_view(*base) =~= patched_attributes(start, now));
            }
        }
    }
    proof {
        assert(keys.skip(0) =~= keys);
        assert forall|k: Seq<char>| all.dom().contains(k) implies keys.to_set().contains(k) by {
            assert(keys.contains(k));
        }
        assert(all.restrict(keys.to_set()) =~= all);
    }
}

fn patch_vectors(base: &mut TextMap<VectorValue>, patch: TextMap<VectorValue>)
    requires
        old(base).wf(),
        patch.wf(),
    ensures
        final(base).wf(),
        value::vectors_view(*final(base)) == value::vectors_view(*old(base)).union_prefer_right(
            value::vectors_view(patch),
        ),
{
    let ghost start = value::vectors_view(*base);
    let ghost all = value::vectors_view(patch);
    let ghost keys = patch.keys();
    let ghost values = patch.values();
    proof {
        assert forall|j: int| 0 <= j < keys.len() implies all.dom().contains(#[trigger] keys[j])
            && all[keys[j]] == values[j]@ by {
            patch.lemma_position(j);
        }
        assert(all.restrict(keys.skip(keys.len() as int).to_set()) =~= Map::empty());
        assert(start.union_prefer_right(Map::empty()) =~= start);
    }
    let mut entries = patch.into_entries();
    while entries.len() > 0
        invariant
            base.wf(),
            entries@.len() <= keys.len(),
            keys.len() == values.len(),
            crate::textmap::texts_sorted(keys),
            forall|j: int|
                0 <= j < entries@.len() ==> (#[trigger] entries@[j]).0@ == keys[j] && entries@[j].1
                    == values[j],
            forall|j: int|
                0 <= j < keys.len() ==> all.dom().contains(#[trigger] keys[j]) && all[keys[j]]
                    == values[j]@,
            value::vectors_view(*base) == start.union_prefer_right(
                all.restrict(keys.skip(entries@.len() as int).to_set()),
            ),
        decreases entries@.len(),
    {
        let ghost n = entries@.len() - 1;
        let ghost before = value::vectors_view(*base);
        let ghost was = all.restrict(keys.skip(n + 1).to_set());
        if let Some((key, value)) = entries.pop() {
            proof {
                lemma_skip_next(keys, n);
            }
            let ghost k = key@;
            let ghost v = value@;
            base.insert(key, value);
            proof {
                assert(value::vectors_view(*base) =~= before.insert(k, v));
                let now = all.restrict(keys.skip(n).to_set());
                assert(now =~= was.insert(k, v));
                assert(value::vectors_view(*base) =~= start.union_prefer_right(now));
            }
        }
    }
    proof {
        assert(keys.skip(0) =~= keys);
        assert forall|k: Seq<char>| all.dom().contains(k) implies keys.to_set().contains(k) by {
            assert(keys.contains(k));
        }
        assert(all.restrict(keys.to_set()) =~= all);
    }
}

/// The keys from one position on are those from the next on and its own.
proof fn lemma_skip_next(keys: Seq<Seq<char>>, n: int)
    requires
        crate::textmap::texts_sorted(keys),
        0 <= n < keys.len(),
    ensures
        keys.skip(n).to_set() == keys.skip(n + 1).to_set().insert(keys[n]),
        !keys.skip(n + 1).to_set().contains(keys[n]),
{
    let a = keys.skip(n);
    let b = keys.skip(n + 1);
    assert forall|k: Seq<char>| a.to_set().contains(k) <==> b.to_set().insert(keys[n]).contains(
        k,
    ) by {
        if a.contains(k) {
            let i = a.index_of(k);
            if i > 0 {
                assert(b[i - 1] == k);
            }
        }
        if b.contains(k) {
            assert(a[b.index_of(k) + 1] == k);
        }
        assert(a[0] == keys[n]);
    }
    assert(a.to_set() =~= b.to_set().insert(keys[n]));
    if b.contains(keys[n]) {
        let i = b.index_of(keys[n]);
        assert(keys[n + 1 + i] == keys[n]);
        crate::textmap::lemma_text_total(keys[n], keys[n + 1 + i]);
    }
}

/// Applies an operation to documents.
pub fn apply_op(docs: &mut SortedMap<Id, Document>, op: WalOp)
    requires
        docs_wf(*old(docs)),
        op.wf(),
    ensures
        docs_wf(*final(docs)),
        docs_view(*final(docs)) == applied(docs_view(*old(docs)), op@),
{
    let ghost before = docs_view(*docs);
    match op {
        WalOp::Upsert { id, document } => {
            let ghost i = id@;
            let ghost d = document@;
            docs.insert(id, document);
            assert(docs_view(*docs) =~= before.insert(i, d));
        },
        WalOp::Delete { id } => {
            docs.remove(&id);
            assert(docs_view(*docs) =~= before.remove(id@));
        },
        WalOp::Patch { id, attributes, vectors } => {
            let ghost i = id@;
            let mut document = match docs.remove(&id) {
                Some(document) => document,
                None => Document::new(copy_id(&id)),
            };
            let ghost base = document@;
            assert(document.wf());
            patch_attributes(&mut document.attributes, attributes);
            patch_vectors(&mut document.vectors, vectors);
            let ghost d = document@;
            docs.insert(id, document);
            assert(docs_view(*docs) =~= before.remove(i).insert(i, d));
            assert(before.remove(i).insert(i, d) =~= before.insert(i, d));
        },
    }
}

/// Applies operations to documents, one after the other.
pub fn apply_ops(docs: &mut SortedMap<Id, Document>, ops: Vec<WalOp>)
    requires
        docs_wf(*old(docs)),
        wal::ops_wf(ops@),
    ensures
        docs_wf(*final(docs)),
        docs_view(*final(docs)) == applied_all(docs_view(*old(docs)), wal::ops_view(ops@)),
{
    let ghost all = wal::ops_view(ops@);
    let ghost start = docs_view(*docs);
    let ghost given = ops@;
    let mut rest = ops;
    let mut ordered: Vec<WalOp> = Vec::new();
    while rest.len() > 0
        invariant
            rest@.len() + ordered@.len() == given.len(),
            rest@ == given.take(rest@.len() as int),
            forall|j: int|
                0 <= j < ordered@.len() ==> #[trigger] ordered@[j] == given[given.len() - 1
                    - j],
        decreases rest@.len(),
    {
        if let Some(op) = rest.pop() {
            ordered.push(op);
            assert(rest@ =~= given.take(rest@.len() as int));
        }
    }
    assert(all.take(0) =~= Seq::empty());
    while ordered.len() > 0
        invariant
            docs_wf(*docs),
            wal::ops_wf(given),
            all == wal::ops_view(given),
            ordered@.len() <= given.len(),
            forall|j: int|
                0 <= j < ordered@.len() ==> #[trigger] ordered@[j] == given[given.len() - 1
                    - j],
            docs_view(*docs) == applied_all(start, all.take(given.len() - ordered@.len())),
        decreases ordered@.len(),
    {
        let ghost n = given.len() - ordered@.len();
        if let Some(op) = ordered.pop() {
            proof {
                assert(op == given[n]);
                assert(all.take(n + 1).drop_last() =~= all.take(n));
                assert(all.take(n + 1).last() == op@);
            }
            apply_op(docs, op);
        }
    }
    assert(all.take(given.len() as int) =~= all);
}

// ---------------------------------------------------------------------------
// Tables
// ---------------------------------------------------------------------------

/// The documents among records.
pub open spec fn live(records: Records) -> Docs {
    Map::new(
        |id: IdView| records.dom().contains(id) && records[id] is Some,
        |id: IdView| records[id]->Some_0,
    )
}

/// Records of newer tables over those of older ones.
pub open spec fn over(newer: Records, older: Records) -> Records {
    older.union_prefer_right(newer)
}

/// A list of keys with records stands for a map in which the first of a key
/// counts.
pub open spec fn first_records(entries: Seq<(Id, DocRecord)>) -> Records
    decreases entries.len(),
{
    if entries.len() == 0 {
        Map::empty()
    } else {
        let rest = first_records(entries.drop_last());
        let (id, record) = entries.last();
        if rest.dom().contains(id@) {
            rest
        } else {
            rest.insert(id@, doc::record_view(record))
        }
    }
}

/// Merges the records of tables, given newest table first: of the records of a key
/// the newest counts.
pub fn merge_records(entries: Vec<(Id, DocRecord)>) -> (m: SortedMap<Id, DocRecord>)
    requires
        forall|i: int| 0 <= i < entries@.len() ==> record_wf((#[trigger] entries@[i]).1),
    ensures
        records_wf(m),
        records_view(m) == first_records(entries@),
{
    let ghost all = entries@;
    let mut rest = entries;
    let mut reversed: Vec<(Id, DocRecord)> = Vec::new();
    while rest.len() > 0
        invariant
            rest@.len() + reversed@.len() == all.len(),
            rest@ == all.take(rest@.len() as int),
            forall|j: int|
                0 <= j < reversed@.len() ==> #[trigger] reversed@[j] == all[all.len() - 1 - j],
        decreases rest@.len(),
    {
        if let Some(entry) = rest.pop() {
            reversed.push(entry);
            assert(rest@ =~= all.take(rest@.len() as int));
        }
    }
    let mut m: SortedMap<Id, DocRecord> = SortedMap::new();
    proof {
        assert(all.take(0) =~= Seq::empty());
        assert(records_view(m) =~= Map::empty());
    }
    while reversed.len() > 0
        invariant
            records_wf(m),
            reversed@.len() <= all.len(),
            forall|i: int| 0 <= i < all.len() ==> record_wf((#[trigger] all[i]).1),
            forall|j: int|
                0 <= j < reversed@.len() ==> #[trigger] reversed@[j] == all[all.len() - 1 - j],
            records_view(m) == first_records(all.take(all.len() - reversed@.len())),
        decreases reversed@.len(),
    {
        let ghost n = all.len() - reversed@.len();
        let ghost before = records_view(m);
        if let Some((id, record)) = reversed.pop() {
            proof {
                assert((id, record) == all[n]);
                assert(record_wf(all[n].1));
                assert(all.take(n + 1).drop_last() =~= all.take(n));
                assert(all.take(n + 1).last() == (id, record));
            }
            if !m.contains_key(&id) {
                let ghost i = id@;
                let ghost r = doc::record_view(record);
                m.insert(id, record);
                assert(records_view(m) =~= before.insert(i, r));
            }
        }
    }
    assert(all.take(all.len() as int) =~= all);
    m
}

/// The records of two lists, one after the other: the first list's count.
pub proof fn law_newer_tables_win(newer: Seq<(Id, DocRecord)>, older: Seq<(Id, DocRecord)>)
    ensures
        first_records(newer + older) == over(first_records(newer), first_records(older)),
    decreases older.len(),
{
    if older.len() == 0 {
        assert(newer + older =~= newer);
        assert(over(first_records(newer), first_records(older)) =~= first_records(newer));
    } else {
        law_newer_tables_win(newer, older.drop_last());
        let all = newer + older;
        assert(all.drop_last() =~= newer + older.drop_last());
        assert(all.last() == older.last());
        assert(first_records(all) =~= over(first_records(newer), first_records(older)));
    }
}

/// Keeps the documents among records.
pub fn live_documents(records: SortedMap<Id, DocRecord>) -> (docs: SortedMap<Id, Document>)
    requires
        records_wf(records),
    ensures
        docs_wf(docs),
        docs_view(docs) == live(records_view(records)),
{
    let ghost all = records_view(records);
    let ghost keys = records.keys();
    let ghost values = records.values();
    proof {
        assert forall|j: int| 0 <= j < keys.len() implies all.dom().contains(#[trigger] keys[j])
            && all[keys[j]] == doc::record_view(values[j]) && record_wf(values[j]) by {
            records.lemma_position(j);
        }
    }
    let mut docs: SortedMap<Id, Document> = SortedMap::new();
    let mut entries = records.into_entries();
    assert(docs_view(docs) =~= live(all.restrict(keys.skip(keys.len() as int).to_set())));
    while entries.len() > 0
        invariant
            docs_wf(docs),
            entries@.len() <= keys.len(),
            keys.len() == values.len(),
            crate::sorted::keys_sorted::<Id>(keys),
            forall|j: int|
                0 <= j < entries@.len() ==> (#[trigger] entries@[j]).0@ == keys[j] && entries@[j].1
                    == values[j],
            forall|j: int|
                0 <= j < keys.len() ==> all.dom().contains(#[trigger] keys[j]) && all[keys[j]]
                    == doc::record_view(values[j]) && record_wf(values[j]),
            docs_view(docs) == live(all.restrict(keys.skip(entries@.len() as int).to_set())),
        decreases entries@.len(),
    {
        let ghost n = entries@.len() - 1;
        let ghost before = docs_view(docs);
        let ghost was = all.restrict(keys.skip(n + 1).to_set());
        if let Some((id, record)) = entries.pop() {
            let ghost i = id@;
            let ghost r = doc::record_view(record);
            proof {
                lemma_skip_next_id(keys, n);
                assert(all.dom().contains(keys[n]));
                let now = all.restrict(keys.skip(n).to_set());
                assert(now =~= was.insert(i, r));
            }
            match record {
                DocRecord::Present(document) => {
                    let ghost d = document@;
                    docs.insert(id, document);
                    assert(docs_view(docs) =~= before.insert(i, d));
                    assert(live(was.insert(i, r)) =~= live(was).insert(i, d));
                },
                DocRecord::Deleted => {
                    assert(live(was.insert(i, r)) =~= live(was));
                },
            }
        }
    }
    proof {
        assert(keys.skip(0) =~= keys);
        assert forall|k: IdView| all.dom().contains(k) implies keys.to_set().contains(k) by {
            assert(keys.contains(k));
        }
        assert(all.restrict(keys.to_set()) =~= all);
    }
    docs
}

proof fn lemma_skip_next_id(keys: Seq<IdView>, n: int)
    requires
        crate::sorted::keys_sorted::<Id>(keys),
        0 <= n < keys.len(),
    ensures
        keys.skip(n).to_set() == keys.skip(n + 1).to_set().insert(keys[n]),
        !keys.skip(n + 1).to_set().contains(keys[n]),
{
    let a = keys.skip(n);
    let b = keys.skip(n + 1);
    assert forall|k: IdView| a.to_set().contains(k) <==> b.to_set().insert(keys[n]).contains(k) by {
        if a.contains(k) {
            let i = a.index_of(k);
            if i > 0 {
                assert(b[i - 1] == k);
            }
        }
        if b.contains(k) {
            assert(a[b.index_of(k) + 1] == k);
        }
        assert(a[0] == keys[n]);
    }
    assert(a.to_set() =~= b.to_set().insert(keys[n]));
    if b.contains(keys[n]) {
        let i = b.index_of(keys[n]);
        assert(keys[n + 1 + i] == keys[n]);
        assert(crate::sorted::key_lt::<Id>(keys[n], keys[n + 1 + i]));
        <Id as Key>::lemma_total(keys[n], keys[n]);
    }
}

/// What a reader sees: the documents of the tables with the operations of the log
/// that are not in tables yet applied to them.
pub fn replay(entries: Vec<(Id, DocRecord)>, overlay: Vec<WalOp>) -> (docs: SortedMap<Id, Document>)
    requires
        forall|i: int| 0 <= i < entries@.len() ==> record_wf((#[trigger] entries@[i]).1),
        wal::ops_wf(overlay@),
    ensures
        docs_wf(docs),
        docs_view(docs) == applied_all(live(first_records(entries@)), wal::ops_view(overlay@)),
{
    let mut docs = live_documents(merge_records(entries));
    apply_ops(&mut docs, overlay);
    docs
}

/// The operations about one document.
pub open spec fn ops_about(ops: Seq<OpView>, id: IdView) -> Seq<OpView>
    decreases ops.len(),
{
    if ops.len() == 0 {
        Seq::empty()
    } else if wal::id_of_op(ops.last()) == id {
        ops_about(ops.drop_last(), id).push(ops.last())
    } else {
        ops_about(ops.drop_last(), id)
    }
}

/// The document under a key.
pub open spec fn at(docs: Docs, id: IdView) -> Option<DocumentView> {
    if docs.dom().contains(id) {
        Some(docs[id])
    } else {
        None
    }
}

/// Documents are given by what there is under each key.
pub proof fn lemma_same_docs(a: Docs, b: Docs)
    requires
        forall|id: IdView| #[trigger] at(a, id) == at(b, id),
    ensures
        a == b,
{
    assert forall|id: IdView| a.dom().contains(id) == b.dom().contains(id) by {
        assert(at(a, id) == at(b, id));
    }
    assert(a.dom() =~= b.dom());
    assert forall|id: IdView| #[trigger] a.dom().contains(id) implies a[id] == b[id] by {
        assert(at(a, id) == at(b, id));
    }
    assert(a =~= b);
}

/// What a reader sees of one document is decided by what is stored of it and by
/// the operations about it alone.
pub proof fn law_documents_are_independent(a: Docs, b: Docs, ops: Seq<OpView>, id: IdView)
    requires
        at(a, id) == at(b, id),
    ensures
        at(applied_all(a, ops), id) == at(applied_all(b, ops_about(ops, id)), id),
    decreases ops.len(),
{
    if ops.len() > 0 {
        law_documents_are_independent(a, b, ops.drop_last(), id);
        if wal::id_of_op(ops.last()) == id {
            let c = ops_about(ops.drop_last(), id);
            assert(c.push(ops.last()).drop_last() =~= c);
        }
    }
}

/// The document stored under a key, if there is one, and nothing else.
pub open spec fn stored(id: IdView, base: Option<Document>) -> Docs {
    match base {
        Some(d) => Map::empty().insert(id, d@),
        None => Map::empty(),
    }
}

/// Looks up one document: the newest record of it, and the operations about it
/// applied.
pub fn lookup(base: Option<Document>, overlay: Vec<WalOp>, id: &Id) -> (r: Option<Document>)
    requires
        base matches Some(d) ==> d.wf(),
        wal::ops_wf(overlay@),
    ensures
        r matches Some(d) ==> d.wf(),
        match r {
            Some(d) => at(applied_all(stored(id@, base), wal::ops_view(overlay@)), id@) == Some(d@),
            None => at(applied_all(stored(id@, base), wal::ops_view(overlay@)), id@) is None,
        },
{
    let ghost all = wal::ops_view(overlay@);
    let ghost start = stored(id@, base);
    let mut docs: SortedMap<Id, Document> = SortedMap::new();
    assert(docs_view(docs) =~= Map::empty());
    if let Some(d) = base {
        docs.insert(copy_id(id), d);
        assert(docs_view(docs) =~= start);
    }
    let about = keep_ops_about(overlay, id);
    apply_ops(&mut docs, about);
    proof {
        law_documents_are_independent(start, start, all, id@);
    }
    let ghost before = docs_view(docs);
    let r = docs.remove(id);
    r
}

/// Keeps the operations about one document.
fn keep_ops_about(ops: Vec<WalOp>, id: &Id) -> (r: Vec<WalOp>)
    requires
        wal::ops_wf(ops@),
    ensures
        wal::ops_wf(r@),
        wal::ops_view(r@) == ops_about(wal::ops_view(ops@), id@),
    decreases ops@.len(),
{
    let ghost all = wal::ops_view(ops@);
    let mut rest = ops;
    match rest.pop() {
        None => {
            assert(wal::ops_view(rest@) =~= Seq::empty());
            rest
        },
        Some(op) => {
            proof {
                assert(rest@ =~= ops@.drop_last());
                assert(op == ops@.last());
                assert(ops@[ops@.len() - 1].wf());
                assert(wal::ops_view(rest@) =~= all.drop_last());
                assert(all.last() == op@);
                assert forall|i: int| 0 <= i < rest@.len() implies (#[trigger] rest@[i]).wf() by {
                    assert(ops@[i].wf());
                }
            }
            let wanted = same_id(op_id(&op), id);
            let mut r = keep_ops_about(rest, id);
            if wanted {
                let ghost before = wal::ops_view(r@);
                r.push(op);
                assert(wal::ops_view(r@) =~= before.push(op@));
            }
            r
        },
    }
}

/// A table can hold a key: it does not if its range of keys is known and the key
/// lies outside.
pub open spec fn may_hold(meta: SstMeta, id: IdView) -> bool {
    match (meta.min_id, meta.max_id) {
        (Some(min), Some(max)) => value::id_order(id, min@) != Order::Less && value::id_order(id, max@)
            != Order::Greater,
        _ => true,
    }
}

/// Whether a table can hold a key.
pub fn sst_may_hold(meta: &SstMeta, id: &Id) -> (b: bool)
    ensures
        b == may_hold(*meta, id@),
{
    match (&meta.min_id, &meta.max_id) {
        (Some(min), Some(max)) => match compare_ids(id, min) {
            Order::Less => false,
            _ => match compare_ids(id, max) {
                Order::Greater => false,
                _ => true,
            },
        },
        _ => true,
    }
}

/// The value that the newest table holding a key has for it; `None` if a table on
/// the way is damaged.
pub open spec fn newest(
    metas: Seq<SstMeta>,
    readers: Seq<SstReader>,
    id: IdView,
    n: int,
) -> Option<Option<Seq<u8>>>
    decreases metas.len() - n,
{
    if n < 0 || n >= metas.len() {
        Some(None)
    } else if !may_hold(metas[n], id) {
        newest(metas, readers, id, n + 1)
    } else {
        match reader::table_get(readers[n].data(), readers[n].index(), doc::id_bytes(id)) {
            None => None,
            Some(Some(v)) => Some(Some(v)),
            Some(None) => newest(metas, readers, id, n + 1),
        }
    }
}

/// Finds the newest stored value of a key. Tables are given newest first; one whose
/// range of keys leaves the key out is not looked at.
pub fn newest_value(metas: &[SstMeta], readers: &[SstReader], id: &Id) -> (r: Result<
    Option<Vec<u8>>,
    Error,
>)
    requires
        metas@.len() == readers@.len(),
    ensures
        match newest(metas@, readers@, id@, 0) {
            None => r is Err && r->Err_0 is Corrupt,
            Some(None) => r is Ok && r->Ok_0 is None,
            Some(Some(v)) => r is Ok && r->Ok_0 is Some && r->Ok_0->Some_0@ == v,
        },
{
    let key = encode_id(id);
    let mut n: usize = 0;
    while n < metas.len()
        invariant
            n <= metas@.len(),
            metas@.len() == readers@.len(),
            key@ == doc::id_bytes(id@),
            newest(metas@, readers@, id@, 0) == newest(metas@, readers@, id@, n as int),
        decreases metas@.len() - n,
    {
        if sst_may_hold(&metas[n], id) {
            match readers[n].get(key.as_slice()) {
                Err(e) => {
                    return Err(e);
                },
                Ok(Some(value)) => {
                    return Ok(Some(value));
                },
                Ok(None) => {},
            }
        }
        n = n + 1;
    }
    Ok(None)
}

/// The keys of a table's entries; `None` if one is damaged.
pub open spec fn keyed(es: Seq<(Seq<u8>, Seq<u8>)>) -> Option<Seq<(IdView, Seq<u8>)>>
    decreases es.len(),
{
    if es.len() == 0 {
        Some(Seq::empty())
    } else {
        match (keyed(es.drop_last()), doc::id_of_bytes(es.last().0)) {
            (Some(rest), Some(id)) => Some(rest.push((id, es.last().1))),
            _ => None,
        }
    }
}

/// What a list of keys with stored values stands for.
pub open spec fn rows_view(rows: Seq<(Id, Vec<u8>)>) -> Seq<(IdView, Seq<u8>)> {
    Seq::new(rows.len(), |i: int| (rows[i].0@, rows[i].1@))
}

proof fn lemma_keyed_none(es: Seq<(Seq<u8>, Seq<u8>)>, n: int)
    requires
        0 <= n <= es.len(),
        keyed(es.take(n)) is None,
    ensures
        keyed(es) is None,
    decreases es.len() - n,
{
    if n == es.len() {
        assert(es.take(n) =~= es);
    } else {
        assert(es.take(n + 1).drop_last() =~= es.take(n));
        lemma_keyed_none(es, n + 1);
    }
}

/// The entries of a table of documents, with their keys read.
pub fn table_rows(reader: &SstReader) -> (r: Result<Vec<(Id, Vec<u8>)>, Error>)
    ensures
        match reader::blocks_entries(reader.data(), reader.index()) {
            None => r is Err && r->Err_0 is Corrupt,
            Some(es) => match keyed(es) {
                None => r is Err && r->Err_0 is Corrupt,
                Some(rows) => r is Ok && rows_view(r->Ok_0@) == rows,
            },
        },
{
    let entries = match reader.entries() {
        Ok(entries) => entries,
        Err(e) => {
            return Err(e);
        },
    };
    let ghost es = block::entries_view(entries@);
    let mut out: Vec<(Id, Vec<u8>)> = Vec::new();
    let mut i: usize = 0;
    proof {
        assert(es.take(0) =~= Seq::empty());
        assert(rows_view(out@) =~= Seq::empty());
    }
    while i < entries.len()
        invariant
            i <= entries@.len(),
            es == block::entries_view(entries@),
            reader::blocks_entries(reader.data(), reader.index()) == Some(es),
            keyed(es.take(i as int)) == Some(rows_view(out@)),
        decreases entries@.len() - i,
    {
        let ghost before = rows_view(out@);
        proof {
            assert(es.take(i + 1).drop_last() =~= es.take(i as int));
            assert(es.take(i + 1).last() == es[i as int]);
            assert(es[i as int] == (entries@[i as int].0@, entries@[i as int].1@));
        }
        match decode_id(entries[i].0.as_slice()) {
            Err(e) => {
                proof {
                    lemma_keyed_none(es, i + 1);
                }
                return Err(e);
            },
            Ok(id) => {
                let value = to_vec(entries[i].1.as_slice());
                let ghost row = (id@, value@);
                out.push((id, value));
                assert(rows_view(out@) =~= before.push(row));
            },
        }
        i = i + 1;
    }
    assert(es.take(i as int) =~= es);
    Ok(out)
}

/// The operations about some documents.
pub open spec fn ops_among(ops: Seq<OpView>, ids: Set<IdView>) -> Seq<OpView>
    decreases ops.len(),
{
    if ops.len() == 0 {
        Seq::empty()
    } else if ids.contains(wal::id_of_op(ops.last())) {
        ops_among(ops.drop_last(), ids).push(ops.last())
    } else {
        ops_among(ops.drop_last(), ids)
    }
}

/// Keeps the operations about some documents.
fn keep_ops_among(ops: Vec<WalOp>, ids: &SortedSet<Id>) -> (r: Vec<WalOp>)
    requires
        wal::ops_wf(ops@),
        ids.wf(),
    ensures
        wal::ops_wf(r@),
        wal::ops_view(r@) == ops_among(wal::ops_view(ops@), ids.set()),
    decreases ops@.len(),
{
    let ghost all = wal::ops_view(ops@);
    let mut rest = ops;
    match rest.pop() {
        None => {
            assert(wal::ops_view(rest@) =~= Seq::empty());
            rest
        },
        Some(op) => {
            proof {
                assert(rest@ =~= ops@.drop_last());
                assert(op == ops@.last());
                assert(ops@[ops@.len() - 1].wf());
                assert(wal::ops_view(rest@) =~= all.drop_last());
                assert(all.last() == op@);
                assert forall|i: int| 0 <= i < rest@.len() implies (#[trigger] rest@[i]).wf() by {
                    assert(ops@[i].wf());
                }
            }
            let wanted = ids.contains(op_id(&op));
            let mut r = keep_ops_among(rest, ids);
            if wanted {
                let ghost before = wal::ops_view(r@);
                r.push(op);
                assert(wal::ops_view(r@) =~= before.push(op@));
            }
            r
        },
    }
}

/// Resolves some documents at once: what the tables have for them, with the
/// operations about them applied.
pub fn resolve_ids(
    found: SortedMap<Id, Document>,
    overlay: Vec<WalOp>,
    ids: &SortedSet<Id>,
) -> (docs: SortedMap<Id, Document>)
    requires
        docs_wf(found),
        wal::ops_wf(overlay@),
        ids.wf(),
    ensures
        docs_wf(docs),
        docs_view(docs) == applied_all(
            docs_view(found),
            ops_among(wal::ops_view(overlay@), ids.set()),
        ),
{
    let mut docs = found;
    let wanted = keep_ops_among(overlay, ids);
    apply_ops(&mut docs, wanted);
    docs
}

proof fn lemma_about_among(ops: Seq<OpView>, ids: Set<IdView>, id: IdView)
    requires
        ids.contains(id),
    ensures
        ops_about(ops_among(ops, ids), id) == ops_about(ops, id),
    decreases ops.len(),
{
    if ops.len() > 0 {
        lemma_about_among(ops.drop_last(), ids, id);
        let rest = ops_among(ops.drop_last(), ids);
        if ids.contains(wal::id_of_op(ops.last())) {
            assert(rest.push(ops.last()).drop_last() =~= rest);
        }
    }
}

proof fn lemma_untouched(docs: Docs, ops: Seq<OpView>, id: IdView)
    requires
        ops_about(ops, id).len() == 0,
    ensures
        at(applied_all(docs, ops), id) == at(docs, id),
{
    law_documents_are_independent(docs, docs, ops, id);
    assert(ops_about(ops, id) =~= Seq::empty());
}

proof fn lemma_among_only(ops: Seq<OpView>, ids: Set<IdView>, id: IdView)
    requires
        !ids.contains(id),
    ensures
        ops_about(ops_among(ops, ids), id).len() == 0,
    decreases ops.len(),
{
    if ops.len() > 0 {
        lemma_among_only(ops.drop_last(), ids, id);
        let rest = ops_among(ops.drop_last(), ids);
        if ids.contains(wal::id_of_op(ops.last())) {
            assert(rest.push(ops.last()).drop_last() =~= rest);
        }
    }
}

/// Resolving some documents gives exactly what a full replay shows of them.
pub proof fn law_resolving_agrees_with_replay(
    base: Docs,
    found: Docs,
    ops: Seq<OpView>,
    ids: Set<IdView>,
)
    requires
        found == base.restrict(ids),
    ensures
        applied_all(found, ops_among(ops, ids)) == applied_all(base, ops).restrict(ids),
{
    let a = applied_all(found, ops_among(ops, ids));
    let b = applied_all(base, ops).restrict(ids);
    assert forall|id: IdView| #[trigger] at(a, id) == at(b, id) by {
        if ids.contains(id) {
            assert(at(found, id) == at(base, id));
            law_documents_are_independent(found, base, ops_among(ops, ids), id);
            law_documents_are_independent(base, base, ops, id);
            lemma_about_among(ops, ids, id);
        } else {
            lemma_among_only(ops, ids, id);
            lemma_untouched(found, ops_among(ops, ids), id);
        }
    }
    lemma_same_docs(a, b);
}

// ---------------------------------------------------------------------------
// The log
// ---------------------------------------------------------------------------

/// The sequence numbers of the log objects after `from` up to and with `to`: the
/// first, and how many. Before anything is indexed they start at one.
pub open spec fn overlay_start(from: Option<WalCursor>) -> int {
    match from {
        None => 1,
        Some(c) => c.seq + 1,
    }
}

/// The positions of the log that are not in tables yet.
pub fn overlay_cursors(from: Option<WalCursor>, to: WalCursor) -> (r: Vec<WalCursor>)
    ensures
        r@.len() == (if overlay_start(from) > to.seq {
            0
        } else {
            to.seq - overlay_start(from) + 1
        }),
        forall|i: int|
            0 <= i < r@.len() ==> #[trigger] r@[i] == (WalCursor {
                epoch: to.epoch,
                seq: (overlay_start(from) + i) as u64,
            }),
{
    let mut out: Vec<WalCursor> = Vec::new();
    let before: u64 = match from {
        None => 0,
        Some(c) => c.seq,
    };
    let mut seq: u64 = before;
    while seq < to.seq
        invariant
            before == overlay_start(from) - 1,
            before <= seq,
            seq <= to.seq || seq == before,
            out@.len() == seq - before,
            forall|i: int|
                0 <= i < out@.len() ==> #[trigger] out@[i] == (WalCursor {
                    epoch: to.epoch,
                    seq: (overlay_start(from) + i) as u64,
                }),
        decreases to.seq - seq,
    {
        seq = seq + 1;
        out.push(WalCursor { epoch: to.epoch, seq });
    }
    out
}

/// A patch leaves every column that it does not name as it was. A vector or an
/// attribute that it names is there afterwards with the value that the patch has for
/// it, except that a null takes the attribute away.
pub proof fn law_patch_changes_what_it_names(
    docs: Docs,
    id: IdView,
    attributes: Map<Seq<char>, ValueView>,
    vectors: Map<Seq<char>, VectorView>,
    column: Seq<char>,
)
    ensures
        ({
            let now = applied(docs, OpView::Patch { id, attributes, vectors });
            let had = docs.dom().contains(id);
            &&& now.dom().contains(id)
            &&& now[id].id == (if had {
                docs[id].id
            } else {
                id
            })
            &&& !vectors.dom().contains(column) ==> now[id].vectors.dom().contains(column) == (had
                && docs[id].vectors.dom().contains(column))
            &&& !vectors.dom().contains(column) && now[id].vectors.dom().contains(column)
                ==> now[id].vectors[column] == docs[id].vectors[column]
            &&& vectors.dom().contains(column) ==> now[id].vectors.dom().contains(column)
                && now[id].vectors[column] == vectors[column]
            &&& !attributes.dom().contains(column) ==> now[id].attributes.dom().contains(column) == (
            had && docs[id].attributes.dom().contains(column))
            &&& !attributes.dom().contains(column) && now[id].attributes.dom().contains(column)
                ==> now[id].attributes[column] == docs[id].attributes[column]
            &&& attributes.dom().contains(column) && attributes[column] is Null
                ==> !now[id].attributes.dom().contains(column)
            &&& attributes.dom().contains(column) && !(attributes[column] is Null)
                ==> now[id].attributes.dom().contains(column) && now[id].attributes[column]
                == attributes[column]
        }),
{
}

/// A write of a whole document leaves exactly that document, whatever was there; a
/// delete leaves none; and no write changes any other document.
pub proof fn law_write_changes_one_document(
    docs: Docs,
    id: IdView,
    other: IdView,
    document: DocumentView,
    attributes: Map<Seq<char>, ValueView>,
    vectors: Map<Seq<char>, VectorView>,
)
    requires
        other != id,
    ensures
        applied(docs, OpView::Upsert { id, document }).dom().contains(id),
        applied(docs, OpView::Upsert { id, document })[id] == document,
        !applied(docs, OpView::Delete { id }).dom().contains(id),
        forall|op: OpView|
            op == (OpView::Upsert { id, document }) || op == (OpView::Delete { id }) || op == (
            OpView::Patch { id, attributes, vectors }) ==> {
                let now = #[trigger] applied(docs, op);
                &&& now.dom().contains(other) == docs.dom().contains(other)
                &&& docs.dom().contains(other) ==> now[other] == docs[other]
            },
{
}

/// Writes take effect in the order in which they are given: some, and then others on
/// what those left. A single write is what it is alone, and none change nothing.
pub proof fn law_writes_take_effect_in_order(docs: Docs, ops: Seq<OpView>, later: Seq<OpView>)
    ensures
        applied_all(docs, ops + later) == applied_all(applied_all(docs, ops), later),
        ops.len() == 0 ==> applied_all(docs, ops) == docs,
        ops.len() == 1 ==> applied_all(docs, ops) == applied(docs, ops[0]),
    decreases later.len(),
{
    reveal_with_fuel(applied_all, 2);
    if later.len() == 0 {
        assert(ops + later =~= ops);
    } else {
        law_writes_take_effect_in_order(docs, ops, later.drop_last());
        assert((ops + later).drop_last() =~= ops + later.drop_last());
        assert((ops + later).last() == later.last());
    }
}

/// Of the records of a key the first in the list counts, and a key is among the merged
/// records exactly if the list has a record of it.
pub proof fn law_first_record_counts(entries: Seq<(Id, DocRecord)>, i: int)
    requires
        0 <= i < entries.len(),
        forall|j: int| 0 <= j < i ==> (#[trigger] entries[j]).0@ != entries[i].0@,
    ensures
        first_records(entries).dom().contains(entries[i].0@),
        first_records(entries)[entries[i].0@] == doc::record_view(entries[i].1),
    decreases entries.len(),
{
    let front = entries.drop_last();
    if i < entries.len() - 1 {
        assert(front[i] == entries[i]);
        law_first_record_counts(front, i);
    } else {
        lemma_records_are_listed(front, entries[i].0@);
    }
}

proof fn lemma_records_are_listed(entries: Seq<(Id, DocRecord)>, id: IdView)
    ensures
        first_records(entries).dom().contains(id) ==> exists|j: int|
            0 <= j < entries.len() && (#[trigger] entries[j]).0@ == id,
    decreases entries.len(),
{
    if entries.len() > 0 {
        let front = entries.drop_last();
        lemma_records_are_listed(front, id);
        if first_records(front).dom().contains(id) {
            let j = choose|j: int| 0 <= j < front.len() && (#[trigger] front[j]).0@ == id;
            assert(entries[j] == front[j]);
        } else if first_records(entries).dom().contains(id) {
            assert(entries[entries.len() - 1].0@ == id);
        }
    }
}

/// A deleted document is not there, whatever older tables hold of it; one that the
/// newer tables have no record of is what the older ones have.
pub proof fn law_newer_record_hides_older(newer: Records, older: Records, id: IdView)
    ensures
        newer.dom().contains(id) && newer[id] is None ==> !live(over(newer, older)).dom().contains(
            id,
        ),
        newer.dom().contains(id) && newer[id] is Some ==> at(live(over(newer, older)), id)
            == newer[id],
        !newer.dom().contains(id) && older.dom().contains(id) ==> at(live(over(newer, older)), id)
            == older[id],
        !newer.dom().contains(id) && !older.dom().contains(id) ==> at(
            live(over(newer, older)),
            id,
        ) is None,
{
}

/// A table whose keys are known to go from one key to another is passed over for the
/// keys outside of these, and never for one of these or between them.
pub proof fn law_only_keys_outside_are_passed_over(meta: SstMeta, id: IdView)
    requires
        meta.min_id is Some,
        meta.max_id is Some,
    ensures
        id == meta.min_id->Some_0@ && value::id_order(id, meta.max_id->Some_0@) == Order::Less
            ==> may_hold(meta, id),
        id == meta.max_id->Some_0@ && value::id_order(meta.min_id->Some_0@, id) == Order::Less
            ==> may_hold(meta, id),
        value::id_order(meta.min_id->Some_0@, id) == Order::Less && value::id_order(
            id,
            meta.max_id->Some_0@,
        ) == Order::Less ==> may_hold(meta, id),
        value::id_order(id, meta.min_id->Some_0@) == Order::Less ==> !may_hold(meta, id),
        value::id_order(meta.max_id->Some_0@, id) == Order::Less ==> !may_hold(meta, id),
{
    value::lemma_ids_total(id, meta.min_id->Some_0@);
    value::lemma_ids_total(id, meta.max_id->Some_0@);
    value::lemma_ids_total(meta.min_id->Some_0@, id);
    value::lemma_ids_total(meta.max_id->Some_0@, id);
}

} // verus!
