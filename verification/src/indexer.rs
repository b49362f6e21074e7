//! Indexing: folding the committed log into tables of documents, and merging
//! those tables.
//!
//! A flush writes one new table with a record for every document that the log
//! touches: the whole document as it then is, or that it is deleted. A compaction
//! merges all tables into one and drops what is deleted or overwritten.

use vstd::prelude::*;
use vstd::string::*;

use crate::wal;
use crate::value;
use crate::strings;
use crate::sst::block;
use crate::sorted;
use crate::order;
use crate::namespace;
use crate::documents;
use crate::doc;
use crate::doc::{encode_id, DocRecord};
use crate::documents::{apply_ops, Records};
use crate::backpressure;
use crate::error::{corrupt, Error};
use crate::manifest::{NamespaceManifest, SstMeta};
use crate::order::Order;
use crate::sorted::{Key, SortedMap, SortedSet};
use crate::sst::block::Entry;
use crate::sst::reader;
use crate::sst::writer;
use crate::sst::writer::write_table;
use crate::strings::push_decimal;
use crate::codec::to_vec;
use crate::value::{copy_id, Document, DocumentView, Id, IdView};
use crate::wal::{op_id, OpView, WalCursor, WalOp};

verus! {

/// The documents that operations are about.
pub open spec fn touched(ops: Seq<OpView>) -> Set<IdView> {
    Set::new(|id: IdView| exists|i: int| 0 <= i < ops.len() && wal::id_of_op(#[trigger] ops[i]) == id)
}

/// The records that a flush of operations writes over what tables hold.
pub open spec fn flushed(base: Records, ops: Seq<OpView>) -> Records {
    let docs = documents::applied_all(documents::live(base).restrict(touched(ops)), ops);
    Map::new(|id: IdView| touched(ops).contains(id), |id: IdView| documents::at(docs, id))
}

/// The log holds more than the tables do.
pub open spec fn has_unindexed(indexed: Option<WalCursor>, commit: WalCursor) -> bool {
    match indexed {
        None => 0 < commit.seq,
        Some(c) => c.seq < commit.seq,
    }
}

/// Whether there is anything in the log to flush.
pub fn needs_flush(indexed: Option<WalCursor>, commit: WalCursor) -> (b: bool)
    ensures
        b == has_unindexed(indexed, commit),
{
    match indexed {
        None => 0 < commit.seq,
        Some(c) => c.seq < commit.seq,
    }
}

/// The documents that operations are about.
fn touched_ids(ops: &Vec<WalOp>) -> (ids: SortedSet<Id>)
    ensures
        ids.wf(),
        ids.set() == touched(wal::ops_view(ops@)),
{
    let ghost all = wal::ops_view(ops@);
    let mut ids: SortedSet<Id> = SortedSet::new();
    let mut i: usize = 0;
    assert(ids.set() =~= touched(all.take(0)));
    while i < ops.len()
        invariant
            i <= ops@.len(),
            all == wal::ops_view(ops@),
            ids.wf(),
            ids.set() == touched(all.take(i as int)),
        decreases ops@.len() - i,
    {
        let ghost before = ids.set();
        ids.insert(copy_id(op_id(&ops[i])));
        proof {
            let now = all.take(i + 1);
            let was = all.take(i as int);
            let id = wal::id_of_op(all[i as int]);
            assert forall|x: IdView| touched(now).contains(x) <==> before.insert(id).contains(x) by {
                if touched(now).contains(x) {
                    let j = choose|j: int| 0 <= j < now.len() && wal::id_of_op(#[trigger] now[j]) == x;
                    if j < i {
                        assert(was[j] == now[j]);
                    }
                }
                if touched(was).contains(x) {
                    let j = choose|j: int| 0 <= j < was.len() && wal::id_of_op(#[trigger] was[j]) == x;
                    assert(now[j] == was[j]);
                }
                assert(now[i as int] == all[i as int]);
            }
            assert(ids.set() =~= touched(now));
        }
        i = i + 1;
    }
    assert(all.take(i as int) =~= all);
    ids
}

/// How many records are documents.
spec fn live_count(values: Seq<DocRecord>) -> nat
    decreases values.len(),
{
    if values.len() == 0 {
        0
    } else {
        live_count(values.drop_last()) + (if values.last() is Present {
            1nat
        } else {
            0nat
        })
    }
}

proof fn lemma_live_count(m: SortedMap<Id, DocRecord>, n: int)
    requires
        m.wf(),
        0 <= n <= m.keys().len(),
    ensures
        documents::live(documents::records_view(m).restrict(m.keys().take(n).to_set())).dom().finite(),
        documents::live(documents::records_view(m).restrict(m.keys().take(n).to_set())).dom().len() == live_count(
            m.values().take(n),
        ),
        live_count(m.values().take(n)) <= n,
    decreases n,
{
    let keys = m.keys();
    let values = m.values();
    let view = documents::records_view(m);
    if n == 0 {
        assert(documents::live(view.restrict(keys.take(0).to_set())).dom() =~= Set::empty());
    } else {
        lemma_live_count(m, n - 1);
        let a = documents::live(view.restrict(keys.take(n - 1).to_set())).dom();
        let b = documents::live(view.restrict(keys.take(n).to_set())).dom();
        let k = keys[n - 1];
        m.lemma_position(n - 1);
        assert(values.take(n).drop_last() =~= values.take(n - 1));
        assert(!keys.take(n - 1).contains(k)) by {
            if keys.take(n - 1).contains(k) {
                let j = keys.take(n - 1).index_of(k);
                assert(keys[j] == k);
                assert(sorted::key_lt::<Id>(keys[j], keys[n - 1]));
                <Id as Key>::lemma_total(k, k);
            }
        }
        assert forall|x: IdView| keys.take(n).to_set().contains(x) <==> keys.take(
            n - 1,
        ).to_set().contains(x) || x == k by {
            if keys.take(n).contains(x) {
                let j = keys.take(n).index_of(x);
                if j < n - 1 {
                    assert(keys.take(n - 1)[j] == x);
                }
            }
            if keys.take(n - 1).contains(x) {
                let j = keys.take(n - 1).index_of(x);
                assert(keys.take(n)[j] == x);
            }
            assert(keys.take(n)[n - 1] == k);
        }
        if values[n - 1] is Present {
            assert(b =~= a.insert(k));
        } else {
            assert(b =~= a);
        }
    }
}

/// How many documents are among records.
fn count_live(m: &SortedMap<Id, DocRecord>) -> (n: usize)
    requires
        m.wf(),
    ensures
        documents::live(documents::records_view(*m)).dom().finite(),
        n == documents::live(documents::records_view(*m)).dom().len(),
        n <= m.keys().len(),
{
    let len: usize = m.len();
    let mut n: usize = 0;
    let mut i: usize = 0;
    while i < len
        invariant
            i <= len,
            len == m.keys().len(),
            len == m.values().len(),
            n == live_count(m.values().take(i as int)),
            n <= i,
        decreases len - i,
    {
        assert(m.values().take(i + 1).drop_last() =~= m.values().take(i as int));
        match m.value_at(i) {
            DocRecord::Present(_) => {
                n = n + 1;
            },
            DocRecord::Deleted => {},
        }
        i = i + 1;
    }
    proof {
        lemma_live_count(*m, len as int);
        let keys = m.keys();
        assert(keys.take(len as int) =~= keys);
        assert(m.values().take(len as int) =~= m.values());
        assert forall|k: IdView| documents::records_view(*m).dom().contains(k) implies keys.to_set().contains(
            k,
        ) by {
            assert(keys.contains(k));
        }
        assert(documents::records_view(*m).restrict(keys.to_set()) =~= documents::records_view(*m));
    }
    n
}

/// What a flush writes, and how many documents there are after it.
#[derive(Debug)]
pub struct Flush {
    pub records: SortedMap<Id, DocRecord>,
    pub row_count: u64,
}

/// A flush writes these records over what tables hold, and leaves so many documents.
pub open spec fn is_flush_of(base: Records, ops: Seq<OpView>, f: Flush) -> bool {
    let records = documents::records_view(f.records);
    &&& records == flushed(base, ops)
    &&& f.row_count == documents::live(documents::over(records, base)).dom().len()
}

/// Works out a flush: what tables hold, and the operations of the log that are not
/// in them yet.
pub fn flush_records(base: SortedMap<Id, DocRecord>, ops: Vec<WalOp>) -> (f: Flush)
    requires
        documents::records_wf(base),
        wal::ops_wf(ops@),
        base.keys().len() + ops@.len() <= usize::MAX,
    ensures
        documents::records_wf(f.records),
        is_flush_of(documents::records_view(base), wal::ops_view(ops@), f),
{
    let ghost start = documents::records_view(base);
    let ghost all = wal::ops_view(ops@);
    let ids = touched_ids(&ops);
    let ghost set = touched(all);
    let ghost items = ids.items();
    let count: usize = ids.len();
    let mut rest = base;
    let mut docs: SortedMap<Id, Document> = SortedMap::new();
    let mut i: usize = 0;
    proof {
        ids.lemma_sorted();
        assert(items.take(0).to_set() =~= Set::empty());
        assert(documents::records_view(rest) =~= start.remove_keys(items.take(0).to_set()));
        assert(documents::docs_view(docs) =~= documents::live(start).restrict(items.take(0).to_set()));
        lemma_len_bound(items, all);
    }
    while i < count
        invariant
            i <= count,
            count == items.len(),
            items == ids.items(),
            documents::records_wf(rest),
            documents::docs_wf(docs),
            rest.keys().len() <= base.keys().len(),
            documents::records_view(rest) == start.remove_keys(items.take(i as int).to_set()),
            documents::docs_view(docs) == documents::live(start).restrict(items.take(i as int).to_set()),
            sorted::keys_sorted::<Id>(items),
        decreases count - i,
    {
        let id = ids.item_at(i);
        let ghost before = documents::records_view(rest);
        let ghost had = documents::docs_view(docs);
        let ghost was = items.take(i as int).to_set();
        let ghost now = items.take(i + 1).to_set();
        proof {
            lemma_take_next(items, i as int);
        }
        match rest.remove(id) {
            Some(DocRecord::Present(document)) => {
                let ghost d = document@;
                docs.insert(copy_id(id), document);
                proof {
                    assert(documents::docs_view(docs) =~= had.insert(id@, d));
                    assert(before.dom().contains(id@) && before[id@] == Some(d));
                    assert(start.dom().contains(id@) && start[id@] == Some(d));
                    assert(documents::docs_view(docs) =~= documents::live(start).restrict(now));
                }
            },
            Some(DocRecord::Deleted) => {
                assert(before.dom().contains(id@) && before[id@] is None);
                assert(documents::docs_view(docs) =~= documents::live(start).restrict(now));
            },
            None => {
                assert(!before.dom().contains(id@));
                assert(documents::docs_view(docs) =~= documents::live(start).restrict(now));
            },
        }
        assert(documents::records_view(rest) =~= before.remove(id@));
        assert(documents::records_view(rest) =~= start.remove_keys(now));
        i = i + 1;
    }
    proof {
        assert(items.take(i as int) =~= items);
        assert(items.to_set() == set);
    }
    apply_ops(&mut docs, ops);
    let ghost after = documents::docs_view(docs);
    let left: usize = count_live(&rest);
    let mut records: SortedMap<Id, DocRecord> = SortedMap::new();
    let mut written: usize = 0;
    let mut k: usize = 0;
    proof {
        assert(items.take(0).to_set() =~= Set::empty());
        assert(documents::docs_view(docs) =~= after.remove_keys(items.take(0).to_set()));
        assert(documents::records_view(records) =~= flushed(start, all).restrict(items.take(0).to_set()));
    }
    while k < count
        invariant
            k <= count,
            count == items.len(),
            items == ids.items(),
            documents::docs_wf(docs),
            documents::records_wf(records),
            sorted::keys_sorted::<Id>(items),
            items.to_set() == touched(all),
            after == documents::applied_all(documents::live(start).restrict(touched(all)), all),
            documents::docs_view(docs) == after.remove_keys(items.take(k as int).to_set()),
            documents::records_view(records) == flushed(start, all).restrict(items.take(k as int).to_set()),
        decreases count - k,
    {
        let id = ids.item_at(k);
        let ghost before = documents::docs_view(docs);
        let ghost had = documents::records_view(records);
        let ghost now = items.take(k + 1).to_set();
        proof {
            lemma_take_next(items, k as int);
            assert(items.contains(items[k as int]));
            assert(touched(all).contains(id@));
        }
        let record = match docs.remove(id) {
            Some(document) => DocRecord::Present(document),
            None => DocRecord::Deleted,
        };
        let ghost r = doc::record_view(record);
        assert(r == documents::at(before, id@));
        assert(r == documents::at(after, id@));
        records.insert(copy_id(id), record);
        proof {
            assert(documents::docs_view(docs) =~= before.remove(id@));
            assert(documents::docs_view(docs) =~= after.remove_keys(now));
            assert(documents::records_view(records) =~= had.insert(id@, r));
            assert(documents::records_view(records) =~= flushed(start, all).restrict(now));
        }
        k = k + 1;
    }
    assert(items.take(k as int) =~= items);
    assert(documents::records_view(records) =~= flushed(start, all));
    let fresh: usize = count_live(&records);
    proof {
        let new = documents::records_view(records);
        let x = documents::live(documents::records_view(rest)).dom();
        let y = documents::live(new).dom();
        let whole = documents::live(documents::over(new, start)).dom();
        assert(whole =~= x + y);
        vstd::set_lib::lemma_set_disjoint_lens(x, y);
        assert(new.dom() =~= items.to_set());
        lemma_keys_bound(records, items);
    }
    Flush { records, row_count: (left + fresh) as u64 }
}

/// No more documents are touched than there are operations.
proof fn lemma_len_bound(items: Seq<IdView>, ops: Seq<OpView>)
    requires
        sorted::keys_sorted::<Id>(items),
        items.to_set() == touched(ops),
    ensures
        items.len() <= ops.len(),
{
    let named = ops.map_values(|op: OpView| wal::id_of_op(op));
    assert forall|x: IdView| items.to_set().contains(x) implies named.to_set().contains(x) by {
        let i = choose|i: int| 0 <= i < ops.len() && wal::id_of_op(#[trigger] ops[i]) == x;
        assert(named[i] == x);
    }
    assert(items.no_duplicates()) by {
        assert forall|i: int, j: int| 0 <= i < j < items.len() implies items[i] != items[j] by {
            assert(sorted::key_lt::<Id>(items[i], items[j]));
            <Id as Key>::lemma_total(items[i], items[j]);
        }
    }
    items.unique_seq_to_set();
    vstd::seq_lib::seq_to_set_is_finite(named);
    vstd::set_lib::lemma_len_subset(items.to_set(), named.to_set());
    named.lemma_cardinality_of_set();
}

proof fn lemma_keys_bound(m: SortedMap<Id, DocRecord>, items: Seq<IdView>)
    requires
        m.wf(),
        documents::records_view(m).dom() == items.to_set(),
    ensures
        m.keys().len() <= items.len(),
{
    let keys = m.keys();
    assert(keys.no_duplicates()) by {
        assert forall|i: int, j: int| 0 <= i < j < keys.len() implies keys[i] != keys[j] by {
            assert(sorted::key_lt::<Id>(keys[i], keys[j]));
            <Id as Key>::lemma_total(keys[i], keys[j]);
        }
    }
    assert forall|x: IdView| keys.to_set().contains(x) implies items.to_set().contains(x) by {
        let i = keys.index_of(x);
        m.lemma_position(i);
        assert(documents::records_view(m).dom().contains(x));
    }
    keys.unique_seq_to_set();
    vstd::seq_lib::seq_to_set_is_finite(items);
    vstd::set_lib::lemma_len_subset(keys.to_set(), items.to_set());
    items.lemma_cardinality_of_set();
}

proof fn lemma_take_next(items: Seq<IdView>, i: int)
    requires
        sorted::keys_sorted::<Id>(items),
        0 <= i < items.len(),
    ensures
        items.take(i + 1).to_set() == items.take(i).to_set().insert(items[i]),
        !items.take(i).to_set().contains(items[i]),
{
    let a = items.take(i + 1);
    let b = items.take(i);
    assert forall|x: IdView| a.to_set().contains(x) <==> b.to_set().insert(items[i]).contains(x) by {
        if a.contains(x) {
            let j = a.index_of(x);
            if j < i {
                assert(b[j] == x);
            }
        }
        if b.contains(x) {
            assert(a[b.index_of(x)] == x);
        }
        assert(a[i] == items[i]);
    }
    assert(a.to_set() =~= b.to_set().insert(items[i]));
    if b.contains(items[i]) {
        let j = b.index_of(items[i]);
        assert(items[j] == items[i]);
        assert(sorted::key_lt::<Id>(items[j], items[i]));
        <Id as Key>::lemma_total(items[j], items[i]);
    }
}

/// A table of documents as it was built.
#[derive(Debug)]
pub struct BuiltSst {
    pub bytes: Vec<u8>,
    pub row_count: u64,
    pub min_id: Option<Id>,
    pub max_id: Option<Id>,
}

/// The entries of a table of documents.
pub open spec fn doc_entries(rows: Seq<(IdView, Seq<u8>)>) -> Seq<(Seq<u8>, Seq<u8>)> {
    Seq::new(rows.len(), |i: int| (doc::id_bytes(rows[i].0), rows[i].1))
}

/// Keys strictly increase.
pub open spec fn rows_sorted(rows: Seq<(IdView, Seq<u8>)>) -> bool {
    forall|i: int, j: int|
        0 <= i < j < rows.len() ==> value::id_order((#[trigger] rows[i]).0, (#[trigger] rows[j]).0)
            == Order::Less
}

pub open spec fn optional_id(id: Option<Id>) -> Option<IdView> {
    match id {
        None => None,
        Some(id) => Some(id@),
    }
}

/// A table holds these rows, in key order.
pub open spec fn is_built(built: BuiltSst, rows: Seq<(IdView, Seq<u8>)>) -> bool {
    let es = doc_entries(rows);
    &&& rows_sorted(rows)
    &&& writer::keys_short(es)
    &&& writer::is_table_of(built.bytes@, es)
    &&& built.row_count == rows.len()
    &&& optional_id(built.min_id) == (if rows.len() == 0 {
        None
    } else {
        Some(rows[0].0)
    })
    &&& optional_id(built.max_id) == (if rows.len() == 0 {
        None
    } else {
        Some(rows.last().0)
    })
}

/// Writes a table of documents, given by key with their stored records.
pub fn build_doc_sst(rows: &[(Id, Vec<u8>)]) -> (r: Result<BuiltSst, Error>)
    ensures
        ({
            let view = documents::rows_view(rows@);
            let es = doc_entries(view);
            &&& r is Ok ==> is_built(r->Ok_0, view)
            &&& r is Err ==> {
                ||| !rows_sorted(view) && r->Err_0 is Corrupt
                ||| (!writer::keys_short(es) || view.len() > u32::MAX) && r->Err_0 is InvalidWrite
            }
        }),
{
    let ghost view = documents::rows_view(rows@);
    let ghost es = doc_entries(view);
    let mut entries: Vec<Entry> = Vec::new();
    let count: usize = rows.len();
    let mut i: usize = 0;
    assert(block::entries_view(entries@) =~= es.take(0));
    while i < count
        invariant
            i <= count,
            count == rows@.len(),
            view == documents::rows_view(rows@),
            es == doc_entries(view),
            block::entries_view(entries@) == es.take(i as int),
            forall|j: int| 0 <= j < view.len() ==> doc::is_id((#[trigger] view[j]).0),
        decreases count - i,
    {
        let ghost before = block::entries_view(entries@);
        let key = encode_id(&rows[i].0);
        let value = to_vec(rows[i].1.as_slice());
        let ghost e = (key@, value@);
        entries.push((key, value));
        proof {
            assert(view[i as int] == (rows@[i as int].0@, rows@[i as int].1@));
            assert(block::entries_view(entries@) =~= before.push(e));
            assert(es.take(i + 1) =~= es.take(i as int).push(es[i as int]));
        }
        i = i + 1;
    }
    assert(es.take(i as int) =~= es);
    proof {
        lemma_entries_sorted(view);
    }
    match write_table(entries.as_slice()) {
        Err(e) => Err(e),
        Ok(bytes) => {
            if count == 0 {
                Ok(BuiltSst { bytes, row_count: 0, min_id: None, max_id: None })
            } else {
                Ok(
                    BuiltSst {
                        bytes,
                        row_count: count as u64,
                        min_id: Some(copy_id(&rows[0].0)),
                        max_id: Some(copy_id(&rows[count - 1].0)),
                    },
                )
            }
        },
    }
}

/// Rows in key order give entries in key order, and the other way round.
proof fn lemma_entries_sorted(rows: Seq<(IdView, Seq<u8>)>)
    requires
        forall|i: int| 0 <= i < rows.len() ==> doc::is_id((#[trigger] rows[i]).0),
    ensures
        rows_sorted(rows) <==> writer::keys_sorted(doc_entries(rows)),
{
    let es = doc_entries(rows);
    assert forall|i: int, j: int| 0 <= i < j < rows.len() implies (value::id_order(
        (#[trigger] rows[i]).0,
        (#[trigger] rows[j]).0,
    ) == Order::Less) == crate::order::lex_lt(es[i].0, es[j].0) by {
        doc::law_id_bytes_keep_order(rows[i].0, rows[j].0);
        crate::order::lemma_lex_total(es[i].0, es[j].0);
    }
    if rows_sorted(rows) {
        assert forall|i: int, j: int| 0 <= i < j < es.len() implies crate::order::lex_lt(
            #[trigger] es[i].0,
            #[trigger] es[j].0,
        ) by {
            assert(value::id_order(rows[i].0, rows[j].0) == Order::Less);
        }
    }
    if writer::keys_sorted(es) {
        assert forall|i: int, j: int| 0 <= i < j < rows.len() implies value::id_order(
            (#[trigger] rows[i]).0,
            (#[trigger] rows[j]).0,
        ) == Order::Less by {
            assert(crate::order::lex_lt(es[i].0, es[j].0));
        }
    }
}

/// The key of the table that a flush writes.
pub open spec fn flush_name(ns: Seq<char>, generation: nat, seq: nat) -> Seq<char> {
    namespace::namespace_key(ns, "/index/g/"@) + strings::decimal(generation) + "/doc/flush-"@ + strings::decimal(seq)
        + ".sst"@
}

/// The key of the table that a flush writes.
pub fn flush_key(ns: &str, generation: u64, seq: u64) -> (key: String)
    ensures
        key@ == flush_name(ns@, generation as nat, seq as nat),
{
    let mut key = "namespaces/".to_owned();
    key.append(ns);
    key.append("/index/g/");
    push_decimal(&mut key, generation);
    key.append("/doc/flush-");
    push_decimal(&mut key, seq);
    key.append(".sst");
    key
}

/// The key of the table that a compaction writes.
pub open spec fn compacted_name(ns: Seq<char>, generation: nat) -> Seq<char> {
    namespace::namespace_key(ns, "/index/g/"@) + strings::decimal(generation) + "/doc/compacted.sst"@
}

/// The key of the table that a compaction writes.
pub fn compacted_key(ns: &str, generation: u64) -> (key: String)
    ensures
        key@ == compacted_name(ns@, generation as nat),
{
    let mut key = "namespaces/".to_owned();
    key.append(ns);
    key.append("/index/g/");
    push_decimal(&mut key, generation);
    key.append("/doc/compacted.sst");
    key
}

/// How many bytes tables have together.
pub open spec fn total_size(metas: Seq<SstMeta>) -> nat
    decreases metas.len(),
{
    if metas.len() == 0 {
        0
    } else {
        total_size(metas.drop_last()) + metas.last().size_bytes as nat
    }
}

/// How many bytes tables have together, if that can be told.
pub fn total_size_bytes(metas: &Vec<SstMeta>) -> (r: Option<u64>)
    ensures
        match r {
            Some(n) => n == total_size(metas@),
            None => total_size(metas@) > u64::MAX,
        },
{
    let mut sum: u64 = 0;
    let mut i: usize = 0;
    assert(metas@.take(0) =~= Seq::empty());
    while i < metas.len()
        invariant
            i <= metas@.len(),
            sum == total_size(metas@.take(i as int)),
        decreases metas@.len() - i,
    {
        assert(metas@.take(i + 1).drop_last() =~= metas@.take(i as int));
        match sum.checked_add(metas[i].size_bytes) {
            Some(next) => {
                sum = next;
            },
            None => {
                proof {
                    lemma_total_grows(metas@, i + 1);
                }
                return None;
            },
        }
        i = i + 1;
    }
    assert(metas@.take(i as int) =~= metas@);
    Some(sum)
}

proof fn lemma_total_grows(metas: Seq<SstMeta>, n: int)
    requires
        0 <= n <= metas.len(),
    ensures
        total_size(metas.take(n)) <= total_size(metas),
    decreases metas.len() - n,
{
    if n == metas.len() {
        assert(metas.take(n) =~= metas);
    } else {
        assert(metas.take(n + 1).drop_last() =~= metas.take(n));
        lemma_total_grows(metas, n + 1);
    }
}

/// The fields of a manifest that indexing leaves alone.
pub open spec fn same_but_tables(a: NamespaceManifest, b: NamespaceManifest) -> bool {
    &&& a.format_version == b.format_version
    &&& a.namespace == b.namespace
    &&& a.schema == b.schema
    &&& a.wal_commit_cursor == b.wal_commit_cursor
    &&& a.attr_ssts == b.attr_ssts
    &&& a.text_ssts == b.text_ssts
    &&& a.vector_indexes == b.vector_indexes
    &&& a.vector_index_generations == b.vector_index_generations
    &&& a.branch_parent == b.branch_parent
    &&& a.created_at_ms == b.created_at_ms
}

/// A table's entry in the manifest.
pub open spec fn describes(meta: SstMeta, key: Seq<char>, built: BuiltSst) -> bool {
    &&& meta.key@ == key
    &&& meta.size_bytes == built.bytes@.len()
    &&& meta.row_count == built.row_count
    &&& meta.min_id == built.min_id
    &&& meta.max_id == built.max_id
}

/// The manifest after a flush: the new table comes first, and the log is indexed up
/// to the position that was flushed, with all its bytes up to there.
pub open spec fn is_flushed(
    manifest: NamespaceManifest,
    generation: u64,
    commit: WalCursor,
    wal_bytes: u64,
    built: BuiltSst,
    row_count: u64,
    timestamp_ms: u64,
    r: NamespaceManifest,
) -> bool {
    &&& same_but_tables(r, manifest)
    &&& r.indexed_wal_bytes == wal_bytes
    &&& r.generation == generation
    &&& r.updated_at_ms == timestamp_ms
    &&& r.indexed_cursor == Some(commit)
    &&& r.doc_ssts@.len() == manifest.doc_ssts@.len() + 1
    &&& describes(
        r.doc_ssts@[0],
        flush_name(manifest.namespace@, generation as nat, commit.seq as nat),
        built,
    )
    &&& r.doc_ssts@.skip(1) == manifest.doc_ssts@
    &&& r.approx_row_count == row_count
    &&& r.approx_logical_bytes == total_size(r.doc_ssts@)
}

/// The manifest after a flush.
pub fn flushed_manifest(
    manifest: NamespaceManifest,
    generation: u64,
    commit: WalCursor,
    wal_bytes: u64,
    built: BuiltSst,
    row_count: u64,
    timestamp_ms: u64,
) -> (r: NamespaceManifest)
    requires
        total_size(manifest.doc_ssts@) + built.bytes@.len() <= u64::MAX,
        manifest.doc_ssts@.len() < usize::MAX,
    ensures
        is_flushed(manifest, generation, commit, wal_bytes, built, row_count, timestamp_ms, r),
{
    let mut m = manifest;
    let key = flush_key(m.namespace.as_str(), generation, commit.seq);
    let meta = SstMeta {
        key,
        size_bytes: built.bytes.len() as u64,
        row_count: built.row_count,
        min_id: built.min_id,
        max_id: built.max_id,
    };
    m.doc_ssts.insert(0, meta);
    proof {
        assert(m.doc_ssts@.skip(1) =~= manifest.doc_ssts@);
        assert(m.doc_ssts@ =~= seq![meta] + manifest.doc_ssts@);
        lemma_total_first(meta, manifest.doc_ssts@);
    }
    m.approx_logical_bytes = match total_size_bytes(&m.doc_ssts) {
        Some(n) => n,
        None => 0,
    };
    m.generation = generation;
    m.updated_at_ms = timestamp_ms;
    m.indexed_cursor = Some(commit);
    m.indexed_wal_bytes = wal_bytes;
    m.approx_row_count = row_count;
    m
}

proof fn lemma_total_first(meta: SstMeta, rest: Seq<SstMeta>)
    ensures
        total_size(seq![meta] + rest) == meta.size_bytes + total_size(rest),
    decreases rest.len(),
{
    let all = seq![meta] + rest;
    if rest.len() == 0 {
        assert(all.drop_last() =~= rest);
        assert(total_size(all.drop_last()) == 0);
        assert(all.last() == meta);
    } else {
        lemma_total_first(meta, rest.drop_last());
        assert(all.drop_last() =~= seq![meta] + rest.drop_last());
        assert(all.last() == rest.last());
    }
}

/// Whether there is more than one table to merge.
pub fn needs_compaction(manifest: &NamespaceManifest) -> (b: bool)
    ensures
        b == (manifest.doc_ssts@.len() > 1),
{
    manifest.doc_ssts.len() > 1
}

/// The manifest after a compaction: the merged table alone.
pub fn compacted_manifest(
    manifest: NamespaceManifest,
    generation: u64,
    built: BuiltSst,
    timestamp_ms: u64,
) -> (r: NamespaceManifest)
    ensures
        same_but_tables(r, manifest),
        r.generation == generation,
        r.updated_at_ms == timestamp_ms,
        r.indexed_cursor == manifest.indexed_cursor,
        r.indexed_wal_bytes == manifest.indexed_wal_bytes,
        r.doc_ssts@.len() == 1,
        describes(r.doc_ssts@[0], compacted_name(manifest.namespace@, generation as nat), built),
        r.approx_row_count == built.row_count,
        r.approx_logical_bytes == built.bytes@.len(),
{
    let mut m = manifest;
    let key = compacted_key(m.namespace.as_str(), generation);
    let size: u64 = built.bytes.len() as u64;
    let row_count: u64 = built.row_count;
    let mut tables: Vec<SstMeta> = Vec::new();
    tables.push(
        SstMeta {
            key,
            size_bytes: size,
            row_count,
            min_id: built.min_id,
            max_id: built.max_id,
        },
    );
    m.doc_ssts = tables;
    m.generation = generation;
    m.updated_at_ms = timestamp_ms;
    m.approx_row_count = row_count;
    m.approx_logical_bytes = size;
    m
}

/// A document that no operation is about is not touched.
proof fn lemma_about_untouched(ops: Seq<OpView>, id: IdView)
    requires
        !touched(ops).contains(id),
    ensures
        documents::ops_about(ops, id) == Seq::<OpView>::empty(),
    decreases ops.len(),
{
    if ops.len() > 0 {
        let rest = ops.drop_last();
        assert(wal::id_of_op(ops[ops.len() - 1]) != id);
        assert(!touched(rest).contains(id)) by {
            if touched(rest).contains(id) {
                let i = choose|i: int| 0 <= i < rest.len() && wal::id_of_op(#[trigger] rest[i]) == id;
                assert(ops[i] == rest[i]);
            }
        }
        lemma_about_untouched(rest, id);
    }
}

/// A flush changes nothing that readers see: the tables with the flushed records
/// on top hold what the tables and the log together held before.
pub proof fn law_flush_keeps_what_readers_see(base: Records, ops: Seq<OpView>)
    ensures
        documents::live(documents::over(flushed(base, ops), base)) == documents::applied_all(documents::live(base), ops),
{
    let part = documents::live(base).restrict(touched(ops));
    let a = documents::live(documents::over(flushed(base, ops), base));
    let b = documents::applied_all(documents::live(base), ops);
    assert forall|id: IdView| #[trigger] documents::at(a, id) == documents::at(b, id) by {
        documents::law_documents_are_independent(documents::live(base), documents::live(base), ops, id);
        if touched(ops).contains(id) {
            assert(documents::at(part, id) == documents::at(documents::live(base), id));
            documents::law_documents_are_independent(part, documents::live(base), ops, id);
        } else {
            lemma_about_untouched(ops, id);
            assert(documents::at(b, id) == documents::at(documents::live(base), id));
        }
    }
    documents::lemma_same_docs(a, b);
}

// ---------------------------------------------------------------------------
// A whole flush
// ---------------------------------------------------------------------------

/// A way to store records takes every record.
pub open spec fn can_store<E: Fn(&DocRecord) -> Result<Vec<u8>, Error>>(encode: E) -> bool {
    forall|r: &DocRecord| #[trigger] call_requires(encode, (r,))
}

/// These are the bytes of a record.
pub open spec fn stores<E: Fn(&DocRecord) -> Result<Vec<u8>, Error>>(
    encode: E,
    record: Option<DocumentView>,
    bytes: Seq<u8>,
) -> bool {
    exists|r: DocRecord, v: Vec<u8>| #[trigger]
        call_ensures(encode, (&r,), Ok::<Vec<u8>, Error>(v)) && doc::record_view(r) == record && v@
            == bytes
}

/// The rows of a table, in key order: one for each record, with its bytes.
pub open spec fn stores_all<E: Fn(&DocRecord) -> Result<Vec<u8>, Error>>(
    encode: E,
    records: Records,
    rows: Seq<(IdView, Seq<u8>)>,
) -> bool {
    &&& rows_sorted(rows)
    &&& forall|i: int| 0 <= i < rows.len() ==> doc::is_id((#[trigger] rows[i]).0)
    &&& forall|i: int|
        0 <= i < rows.len() ==> records.dom().contains((#[trigger] rows[i]).0) && stores(
            encode,
            records[rows[i].0],
            rows[i].1,
        )
    &&& forall|id: IdView| #[trigger]
        records.dom().contains(id) ==> exists|i: int| 0 <= i < rows.len() && (#[trigger] rows[i]).0 == id
}

/// One of the records cannot be stored, for this reason.
pub open spec fn refuses_one<E: Fn(&DocRecord) -> Result<Vec<u8>, Error>>(
    encode: E,
    records: Records,
    e: Error,
) -> bool {
    exists|id: IdView, r: DocRecord|
        #![trigger records.dom().contains(id), doc::record_view(r)]
        records.dom().contains(id) && doc::record_view(r) == records[id] && call_ensures(
            encode,
            (&r,),
            Err::<Vec<u8>, Error>(e),
        )
}

/// What a flush leaves to be stored: a table under its key, and the manifest that
/// names it.
#[derive(Debug)]
pub struct FlushOutput {
    pub key: String,
    pub bytes: Vec<u8>,
    pub manifest: NamespaceManifest,
}

/// What a flush starts from: the manifest with the generation that its pointer has, the
/// committed position of the log with the bytes up to it, and the time.
#[derive(Debug)]
pub struct FlushInput {
    pub manifest: NamespaceManifest,
    pub pointer_generation: u64,
    pub commit: WalCursor,
    pub wal_bytes: u64,
    pub timestamp_ms: u64,
}

/// The table and the manifest are those of a flush of operations over what the tables
/// hold.
pub open spec fn is_flush_output<E: Fn(&DocRecord) -> Result<Vec<u8>, Error>>(
    input: FlushInput,
    base: Records,
    ops: Seq<OpView>,
    encode: E,
    out: FlushOutput,
) -> bool {
    let generation = (input.pointer_generation + 1) as u64;
    &&& out.key@ == flush_name(input.manifest.namespace@, generation as nat, input.commit.seq as nat)
    &&& out.manifest.approx_row_count == documents::live(
        documents::over(flushed(base, ops), base),
    ).dom().len()
    &&& exists|built: BuiltSst, rows: Seq<(IdView, Seq<u8>)>| #[trigger]
        is_built(built, rows) && built.bytes@ == out.bytes@ && stores_all(
            encode,
            flushed(base, ops),
            rows,
        ) && is_flushed(
            input.manifest,
            generation,
            input.commit,
            input.wal_bytes,
            built,
            out.manifest.approx_row_count,
            input.timestamp_ms,
            out.manifest,
        )
}

/// The table cannot be written: it has a key that is too long or too many rows, or the
/// tables would be too large together.
pub open spec fn flush_is_too_large<E: Fn(&DocRecord) -> Result<Vec<u8>, Error>>(
    input: FlushInput,
    records: Records,
    encode: E,
    e: Error,
) -> bool {
    ||| e is InvalidWrite && exists|rows: Seq<(IdView, Seq<u8>)>| #[trigger]
        stores_all(encode, records, rows) && (!writer::keys_short(doc_entries(rows)) || rows.len()
            > u32::MAX)
    ||| e is Corrupt && exists|built: BuiltSst, rows: Seq<(IdView, Seq<u8>)>| #[trigger]
        is_built(built, rows) && stores_all(encode, records, rows) && total_size(
            input.manifest.doc_ssts@,
        ) + built.bytes@.len() > u64::MAX
}

/// Records as the rows of a table.
fn stored_rows<E: Fn(&DocRecord) -> Result<Vec<u8>, Error>>(
    records: SortedMap<Id, DocRecord>,
    encode: E,
) -> (r: Result<Vec<(Id, Vec<u8>)>, Error>)
    requires
        can_store(encode),
        records.wf(),
    ensures
        match r {
            Ok(rows) => stores_all(
                encode,
                documents::records_view(records),
                documents::rows_view(rows@),
            ),
            Err(e) => refuses_one(encode, documents::records_view(records), e),
        },
{
    let ghost view = documents::records_view(records);
    let mut rows: Vec<(Id, Vec<u8>)> = Vec::new();
    let mut i: usize = 0;
    while i < records.len()
        invariant
            i <= records.keys().len(),
            records.keys().len() == records.values().len(),
            records.wf(),
            can_store(encode),
            view == documents::records_view(records),
            rows@.len() == i,
            forall|j: int| 0 <= j < i ==> (#[trigger] rows@[j]).0@ == records.keys()[j],
            forall|j: int|
                0 <= j < i ==> stores(encode, view[records.keys()[j]], (#[trigger] rows@[j]).1@),
        decreases records.keys().len() - i,
    {
        let record = records.value_at(i);
        proof {
            records.lemma_position(i as int);
            assert(doc::record_view(*record) == view[records.keys()[i as int]]);
        }
        match encode(record) {
            Err(e) => {
                assert(view.dom().contains(records.keys()[i as int]));
                return Err(e);
            },
            Ok(bytes) => {
                assert(call_ensures(encode, (record,), Ok::<Vec<u8>, Error>(bytes)));
                assert(stores(encode, view[records.keys()[i as int]], bytes@));
                rows.push((copy_id(records.key_at(i)), bytes));
            },
        }
        i = i + 1;
    }
    proof {
        let rv = documents::rows_view(rows@);
        assert forall|a: int, b: int| 0 <= a < b < rv.len() implies value::id_order(
            (#[trigger] rv[a]).0,
            (#[trigger] rv[b]).0,
        ) == Order::Less by {
            assert(rows@[a].0@ == records.keys()[a] && rows@[b].0@ == records.keys()[b]);
            assert(sorted::key_lt::<Id>(records.keys()[a], records.keys()[b]));
        }
        assert forall|j: int| 0 <= j < rv.len() implies doc::is_id((#[trigger] rv[j]).0) && view.dom().contains(
            rv[j].0,
        ) && stores(encode, view[rv[j].0], rv[j].1) by {
            assert(rv[j] == (rows@[j].0@, rows@[j].1@));
            records.lemma_position(j);
        }
        assert forall|id: IdView| #[trigger] view.dom().contains(id) implies exists|j: int|
            0 <= j < rv.len() && (#[trigger] rv[j]).0 == id by {
            let j = records.keys().index_of(id);
            assert(records.keys().contains(id));
            assert(rv[j] == (rows@[j].0@, rows@[j].1@));
        }
    }
    Ok(rows)
}

/// Works out a whole flush: the table of what the log changes, to be stored under its
/// key, and the manifest to publish after it. `None` where the tables hold all of the
/// log already.
pub fn flush<E: Fn(&DocRecord) -> Result<Vec<u8>, Error>>(
    input: FlushInput,
    base: SortedMap<Id, DocRecord>,
    ops: Vec<WalOp>,
    encode: E,
) -> (r: Result<Option<FlushOutput>, Error>)
    requires
        can_store(encode),
        documents::records_wf(base),
        wal::ops_wf(ops@),
        base.keys().len() + ops@.len() <= usize::MAX,
        input.pointer_generation < u64::MAX,
        input.manifest.doc_ssts@.len() < usize::MAX,
    ensures
        ({
            let records = documents::records_view(base);
            let operations = wal::ops_view(ops@);
            let needed = has_unindexed(input.manifest.indexed_cursor, input.commit);
            match r {
                Ok(None) => !needed,
                Ok(Some(out)) => needed && is_flush_output(input, records, operations, encode, out),
                Err(e) => needed && (refuses_one(encode, flushed(records, operations), e)
                    || flush_is_too_large(input, flushed(records, operations), encode, e)),
            }
        }),
{
    let ghost all = flushed(documents::records_view(base), wal::ops_view(ops@));
    if !needs_flush(input.manifest.indexed_cursor, input.commit) {
        return Ok(None);
    }
    let f = flush_records(base, ops);
    let row_count: u64 = f.row_count;
    let rows = match stored_rows(f.records, encode) {
        Ok(rows) => rows,
        Err(e) => {
            return Err(e);
        },
    };
    let ghost view = documents::rows_view(rows@);
    let built = match build_doc_sst(rows.as_slice()) {
        Ok(built) => built,
        Err(e) => {
            assert(stores_all(encode, all, view));
            return Err(e);
        },
    };
    assert(is_built(built, view));
    let fits: bool = match total_size_bytes(&input.manifest.doc_ssts) {
        Some(total) => total <= u64::MAX - built.bytes.len() as u64,
        None => false,
    };
    if !fits {
        return Err(corrupt("document tables are too large"));
    }
    let generation: u64 = input.pointer_generation + 1;
    let key = flush_key(input.manifest.namespace.as_str(), generation, input.commit.seq);
    let bytes = to_vec(built.bytes.as_slice());
    let manifest = flushed_manifest(
        input.manifest,
        generation,
        input.commit,
        input.wal_bytes,
        built,
        row_count,
        input.timestamp_ms,
    );
    Ok(Some(FlushOutput { key, bytes, manifest }))
}

/// A way to read records gives back what a way to store them was given.
pub open spec fn reads_back<
    E: Fn(&DocRecord) -> Result<Vec<u8>, Error>,
    D: Fn(&Vec<u8>) -> Result<DocRecord, Error>,
>(encode: E, decode: D) -> bool {
    forall|r: DocRecord, v: Vec<u8>, w: Vec<u8>, s: DocRecord| #[trigger]
        call_ensures(encode, (&r,), Ok::<Vec<u8>, Error>(v)) && #[trigger] call_ensures(
            decode,
            (&w,),
            Ok::<DocRecord, Error>(s),
        ) && v@ == w@ ==> doc::record_view(s) == doc::record_view(r)
}

/// The rows of a stored table, if its bytes are one.
pub open spec fn rows_of_table(data: Seq<u8>) -> Option<Seq<(IdView, Seq<u8>)>> {
    match reader::table_index(data) {
        None => None,
        Some(index) => match reader::blocks_entries(data, index) {
            None => None,
            Some(es) => documents::keyed(es),
        },
    }
}

/// The records of a list are the rows of a table, read one by one.
pub open spec fn reads_as<D: Fn(&Vec<u8>) -> Result<DocRecord, Error>>(
    decode: D,
    rows: Seq<(IdView, Seq<u8>)>,
    entries: Seq<(Id, DocRecord)>,
) -> bool {
    &&& entries.len() == rows.len()
    &&& forall|i: int|
        0 <= i < rows.len() ==> (#[trigger] entries[i]).0@ == rows[i].0 && exists|w: Vec<u8>|
            w@ == rows[i].1 && #[trigger] call_ensures(
                decode,
                (&w,),
                Ok::<DocRecord, Error>(entries[i].1),
            )
}

proof fn lemma_rows_read_back(rows: Seq<(IdView, Seq<u8>)>)
    requires
        forall|i: int| 0 <= i < rows.len() ==> doc::is_id((#[trigger] rows[i]).0),
    ensures
        documents::keyed(doc_entries(rows)) == Some(rows),
    decreases rows.len(),
{
    let es = doc_entries(rows);
    if rows.len() == 0 {
        assert(rows =~= Seq::empty());
    } else {
        let front = rows.drop_last();
        assert forall|i: int| 0 <= i < front.len() implies doc::is_id((#[trigger] front[i]).0) by {
            assert(front[i] == rows[i]);
        }
        lemma_rows_read_back(front);
        assert(es.drop_last() =~= doc_entries(front));
        doc::law_id_round_trips(rows[rows.len() - 1].0);
        assert(front.push(rows.last()) =~= rows);
    }
}

proof fn lemma_read_records<
    E: Fn(&DocRecord) -> Result<Vec<u8>, Error>,
    D: Fn(&Vec<u8>) -> Result<DocRecord, Error>,
>(
    encode: E,
    decode: D,
    records: Records,
    rows: Seq<(IdView, Seq<u8>)>,
    entries: Seq<(Id, DocRecord)>,
    n: int,
)
    requires
        reads_back(encode, decode),
        stores_all(encode, records, rows),
        reads_as(decode, rows, entries),
        0 <= n <= rows.len(),
    ensures
        ({
            let got = documents::first_records(entries.take(n));
            forall|id: IdView| #[trigger]
                got.dom().contains(id) <==> exists|i: int| 0 <= i < n && (#[trigger] rows[i]).0 == id
        }),
        ({
            let got = documents::first_records(entries.take(n));
            forall|id: IdView| #[trigger] got.dom().contains(id) ==> got[id] == records[id]
        }),
    decreases n,
{
    let got = documents::first_records(entries.take(n));
    if n > 0 {
        lemma_read_records(encode, decode, records, rows, entries, n - 1);
        assert(entries.take(n).drop_last() =~= entries.take(n - 1));
        assert(entries.take(n).last() == entries[n - 1]);
        let before = documents::first_records(entries.take(n - 1));
        let row = rows[n - 1];
        assert(entries[n - 1].0@ == row.0);
        let w = choose|w: Vec<u8>|
            w@ == row.1 && #[trigger] call_ensures(
                decode,
                (&w,),
                Ok::<DocRecord, Error>(entries[n - 1].1),
            );
        assert(stores(encode, records[row.0], row.1));
        let (r, v) = choose|r: DocRecord, v: Vec<u8>| #[trigger]
            call_ensures(encode, (&r,), Ok::<Vec<u8>, Error>(v)) && doc::record_view(r)
                == records[row.0] && v@ == row.1;
        assert(doc::record_view(entries[n - 1].1) == records[row.0]);
        assert(!before.dom().contains(row.0)) by {
            if before.dom().contains(row.0) {
                let i = choose|i: int| 0 <= i < n - 1 && (#[trigger] rows[i]).0 == row.0;
                assert(value::id_order(rows[i].0, rows[n - 1].0) == Order::Less);
                value::lemma_ids_total(rows[i].0, rows[n - 1].0);
            }
        }
        assert forall|id: IdView| #[trigger] got.dom().contains(id) <==> exists|i: int|
            0 <= i < n && (#[trigger] rows[i]).0 == id by {
            if got.dom().contains(id) && id != row.0 {
                assert(before.dom().contains(id));
                let i = choose|i: int| 0 <= i < n - 1 && (#[trigger] rows[i]).0 == id;
                assert(rows[i].0 == id);
            }
            if id == row.0 {
                assert(rows[n - 1].0 == id);
            } else if exists|i: int| 0 <= i < n && (#[trigger] rows[i]).0 == id {
                let i = choose|i: int| 0 <= i < n && (#[trigger] rows[i]).0 == id;
                assert(i < n - 1);
                assert(before.dom().contains(id));
            }
        }
        assert forall|id: IdView| #[trigger] got.dom().contains(id) implies got[id]
            == records[id] by {
            if id != row.0 {
                assert(before.dom().contains(id));
            }
        }
    }
}

/// A whole flush, through what is stored: the table reads back, and with its records in
/// front of those of the older tables, readers see the documents that the tables and
/// the log together gave before. The manifest names the new table first, counts those
/// documents, and stands at the committed position with no byte of the log left to
/// index. A second flush finds nothing to do.
pub proof fn law_flush_settles<
    E: Fn(&DocRecord) -> Result<Vec<u8>, Error>,
    D: Fn(&Vec<u8>) -> Result<DocRecord, Error>,
>(
    input: FlushInput,
    older: Seq<(Id, DocRecord)>,
    ops: Seq<OpView>,
    encode: E,
    decode: D,
    out: FlushOutput,
)
    requires
        has_unindexed(input.manifest.indexed_cursor, input.commit),
        input.pointer_generation < u64::MAX,
        is_flush_output(input, documents::first_records(older), ops, encode, out),
        reads_back(encode, decode),
    ensures
        ({
            let seen = documents::applied_all(
                documents::live(documents::first_records(older)),
                ops,
            );
            let after = out.manifest;
            &&& rows_of_table(out.bytes@) is Some
            &&& forall|newer: Seq<(Id, DocRecord)>| #[trigger]
                reads_as(decode, rows_of_table(out.bytes@)->Some_0, newer) ==> documents::applied_all(
                    documents::live(documents::first_records(newer + older)),
                    Seq::empty(),
                ) == seen
            &&& after.indexed_cursor == Some(input.commit)
            &&& after.generation == input.pointer_generation + 1
            &&& after.doc_ssts@.len() == input.manifest.doc_ssts@.len() + 1
            &&& after.doc_ssts@[0].key@ == out.key@
            &&& after.doc_ssts@[0].size_bytes == out.bytes@.len()
            &&& after.doc_ssts@.skip(1) == input.manifest.doc_ssts@
            &&& after.approx_row_count == seen.dom().len()
            &&& backpressure::unindexed(after, input.wal_bytes) == Some(0nat)
            &&& !has_unindexed(after.indexed_cursor, input.commit)
            &&& documents::overlay_start(after.indexed_cursor) > input.commit.seq
        }),
{
    let base = documents::first_records(older);
    let records = flushed(base, ops);
    law_flush_keeps_what_readers_see(base, ops);
    let (built, rows) = choose|built: BuiltSst, rows: Seq<(IdView, Seq<u8>)>| #[trigger]
        is_built(built, rows) && built.bytes@ == out.bytes@ && stores_all(encode, records, rows)
            && is_flushed(
            input.manifest,
            (input.pointer_generation + 1) as u64,
            input.commit,
            input.wal_bytes,
            built,
            out.manifest.approx_row_count,
            input.timestamp_ms,
            out.manifest,
        );
    lemma_rows_read_back(rows);
    assert(rows_of_table(out.bytes@) == Some(rows));
    assert forall|newer: Seq<(Id, DocRecord)>| #[trigger] reads_as(decode, rows, newer) implies documents::applied_all(
        documents::live(documents::first_records(newer + older)),
        Seq::empty(),
    ) == documents::applied_all(documents::live(base), ops) by {
        lemma_read_records(encode, decode, records, rows, newer, rows.len() as int);
        assert(newer.take(rows.len() as int) =~= newer);
        assert(documents::first_records(newer) =~= records);
        documents::law_newer_tables_win(newer, older);
    }
}

/// The records that a compaction writes: the documents, without deletions.
pub open spec fn compacted(base: Records) -> Records {
    documents::live(base).map_values(|d: crate::value::DocumentView| Some(d))
}

/// A compaction changes nothing that readers see.
pub proof fn law_compaction_keeps_what_readers_see(base: Records)
    ensures
        documents::live(compacted(base)) == documents::live(base),
{
    assert(documents::live(compacted(base)) =~= documents::live(base));
}

/// A flush writes a record for the documents that the log is about and no other, and each
/// says what the document is once all operations of the log were applied to what readers
/// saw: the document, or that there is none.
pub proof fn law_flush_writes_what_the_log_is_about(base: Records, ops: Seq<OpView>, id: IdView)
    ensures
        flushed(base, ops).dom().contains(id) <==> exists|i: int|
            0 <= i < ops.len() && wal::id_of_op(#[trigger] ops[i]) == id,
        flushed(base, ops).dom().contains(id) ==> flushed(base, ops)[id] == (
        if documents::applied_all(documents::live(base), ops).dom().contains(id) {
            Some(documents::applied_all(documents::live(base), ops)[id])
        } else {
            None
        }),
{
    let part = documents::live(base).restrict(touched(ops));
    if touched(ops).contains(id) {
        assert(documents::at(part, id) == documents::at(documents::live(base), id));
        documents::law_documents_are_independent(part, documents::live(base), ops, id);
        documents::law_documents_are_independent(
            documents::live(base),
            documents::live(base),
            ops,
            id,
        );
    }
}

/// A compaction writes each document that there is, as it is, and nothing for those that
/// were deleted.
pub proof fn law_compaction_drops_deletions_alone(base: Records, id: IdView)
    ensures
        compacted(base).dom().contains(id) <==> base.dom().contains(id) && base[id] is Some,
        compacted(base).dom().contains(id) ==> compacted(base)[id] == base[id],
{
}

/// The sizes of tables add up.
pub proof fn law_table_sizes_add_up(a: Seq<SstMeta>, b: Seq<SstMeta>, one: SstMeta)
    ensures
        total_size(a + b) == total_size(a) + total_size(b),
        total_size(seq![one]) == one.size_bytes,
    decreases b.len(),
{
    if b.len() == 0 {
        assert(a + b =~= a);
    } else {
        law_table_sizes_add_up(a, b.drop_last(), one);
        assert((a + b).drop_last() =~= a + b.drop_last());
    }
    assert(seq![one].drop_last() =~= Seq::empty());
    reveal_with_fuel(total_size, 2);
}

/// After a flush nothing of the log up to the flushed position waits, every table is still
/// there behind the new one, and the size grew by that of the new table.
pub proof fn law_flush_leaves_nothing_waiting(
    manifest: NamespaceManifest,
    generation: u64,
    commit: WalCursor,
    wal_bytes: u64,
    built: BuiltSst,
    row_count: u64,
    timestamp_ms: u64,
    r: NamespaceManifest,
    i: int,
)
    requires
        is_flushed(manifest, generation, commit, wal_bytes, built, row_count, timestamp_ms, r),
        0 <= i < manifest.doc_ssts@.len(),
    ensures
        !has_unindexed(r.indexed_cursor, commit),
        backpressure::unindexed(r, wal_bytes) == Some(0nat),
        r.doc_ssts@[i + 1] == manifest.doc_ssts@[i],
        r.doc_ssts@[0].size_bytes == built.bytes@.len(),
        r.approx_logical_bytes == total_size(manifest.doc_ssts@) + built.bytes@.len(),
        r.schema == manifest.schema,
        r.vector_indexes == manifest.vector_indexes,
{
    assert(r.doc_ssts@.skip(1)[i] == r.doc_ssts@[i + 1]);
    assert(r.doc_ssts@ =~= seq![r.doc_ssts@[0]] + r.doc_ssts@.skip(1));
    lemma_total_first(r.doc_ssts@[0], manifest.doc_ssts@);
}

/// The log waits exactly while it goes further than what is indexed: not at the position
/// that is indexed, but at every later one of the epoch.
pub proof fn law_later_positions_wait(at: WalCursor, later: u64, epoch: u64)
    requires
        at.seq < later,
    ensures
        !has_unindexed(Some(at), at),
        has_unindexed(Some(at), (WalCursor { epoch: at.epoch, seq: later })),
        !has_unindexed(Some(WalCursor { epoch: at.epoch, seq: later }), at),
        !has_unindexed(None, (WalCursor { epoch, seq: 0 })),
        has_unindexed(None, (WalCursor { epoch, seq: later })),
{
}

/// Tables of different flushes have different keys, whether it is another namespace,
/// another generation or another position.
pub proof fn law_flushes_write_tables_of_their_own(
    a: Seq<char>,
    g: nat,
    s: nat,
    b: Seq<char>,
    h: nat,
    t: nat,
)
    requires
        namespace::is_namespace_name(a),
        namespace::is_namespace_name(b),
        flush_name(a, g, s) == flush_name(b, h, t),
    ensures
        a == b,
        g == h,
        s == t,
{
    reveal_strlit("/index/g/");
    reveal_strlit("/doc/flush-");
    reveal_strlit(".sst");
    let mark = "/index/g/"@;
    let x1 = ".sst"@;
    let x = "/doc/flush-"@ + (strings::decimal(s) + x1);
    let y = "/doc/flush-"@ + (strings::decimal(t) + x1);
    let p = mark + (strings::decimal(g) + x);
    let q = mark + (strings::decimal(h) + y);
    assert(flush_name(a, g, s) =~= "namespaces/"@ + (a + p));
    assert(flush_name(b, h, t) =~= "namespaces/"@ + (b + q));
    namespace::lemma_behind("namespaces/"@, a + p, b + q);
    namespace::lemma_names_have_no_slash(a);
    namespace::lemma_names_have_no_slash(b);
    strings::lemma_same_split(a, p, b, q, '/');
    namespace::lemma_behind(mark, strings::decimal(g) + x, strings::decimal(h) + y);
    strings::lemma_same_number(g, x, h, y, '/');
    namespace::lemma_behind("/doc/flush-"@, strings::decimal(s) + x1, strings::decimal(t) + x1);
    strings::lemma_same_number(s, x1, t, x1, '.');
}

} // verus!
