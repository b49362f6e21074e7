//! Writing a text index.

use vstd::prelude::*;

use crate::rounding;
use crate::arithmetic;
use crate::arithmetic::Step;
use crate::documents;
use crate::error::Error;
use crate::order;
use crate::sorted;
use crate::sorted::SortedMap;
use crate::sst::block;
use crate::sst::block::Entry;
use crate::sst::writer;
use crate::sst::writer::write_table;
use crate::text;
use crate::text::index_data;
use crate::text::index_data::{
    build_index_data, posting_blocks, FieldStats, TermPosting, TextIndexData, POSTING_BLOCK_TARGET,
};
use crate::text::scoring;
use crate::text::scoring::{Bm25Params, TermQuery};
use crate::text::search::{PostingBlock, TextTermStats};
use crate::text::{field_stats_key, term_block_key, term_meta_key, TokenizerConfig};
use crate::value::{Document, Id, IdView};
use crate::vector;
use crate::vector::score_beats;

verus! {

/// What an index stores.
#[derive(Debug)]
pub enum TextRecord {
    /// The counts of a column.
    Field(FieldStats),
    /// What is known of a term of a column.
    Term(TextTermStats),
    /// Entries of a term of a column.
    Block(PostingBlock),
}

/// The best of what the first `n` entries contribute; zero at least.
pub open spec fn best_contribution<M: Fn(Step) -> u32>(
    calc: M,
    query: TermQuery,
    ps: Seq<index_data::PostingView>,
    n: int,
) -> u32
    decreases n,
{
    if n <= 0 {
        0
    } else {
        let before = best_contribution(calc, query, ps, n - 1);
        let s = scoring::rated(calc, query, ps[n - 1]);
        if vector::beats(s, before) {
            s
        } else {
            before
        }
    }
}

/// The best of the first `n` scores; zero at least.
pub open spec fn best_score(scores: Seq<u32>, n: int) -> u32
    decreases n,
{
    if n <= 0 {
        0
    } else {
        let before = best_score(scores, n - 1);
        if vector::beats(scores[n - 1], before) {
            scores[n - 1]
        } else {
            before
        }
    }
}

/// A query that has a term once, with the usual weights.
pub open spec fn plain_query(stats: FieldStats, doc_freq: int) -> TermQuery {
    TermQuery {
        params: scoring::default_params(),
        stats,
        doc_freq: doc_freq as u64,
        frequency: 1,
    }
}

/// A block of the entries of a term.
pub open spec fn chunk(ps: Seq<index_data::PostingView>, b: int) -> Seq<index_data::PostingView> {
    ps.subrange(
        b * POSTING_BLOCK_TARGET,
        if (b + 1) * POSTING_BLOCK_TARGET < ps.len() {
            (b + 1) * POSTING_BLOCK_TARGET
        } else {
            ps.len() as int
        },
    )
}

/// How many blocks the entries of a term take.
pub open spec fn block_count(ps: Seq<index_data::PostingView>) -> int {
    index_data::pieces(ps.len() as int, POSTING_BLOCK_TARGET as int)
}

/// The best of what a block of the entries of a term contributes.
pub open spec fn block_bound<M: Fn(Step) -> u32>(
    calc: M,
    stats: FieldStats,
    ps: Seq<index_data::PostingView>,
    b: int,
) -> u32 {
    best_contribution(
        calc,
        plain_query(stats, ps.len() as int),
        chunk(ps, b),
        chunk(ps, b).len() as int,
    )
}

/// What is known of a term.
pub open spec fn is_term_record<M: Fn(Step) -> u32>(
    calc: M,
    stats: FieldStats,
    ps: Seq<index_data::PostingView>,
    r: TextRecord,
) -> bool {
    r matches TextRecord::Term(t) && {
        &&& t.doc_freq == ps.len() as u64
        &&& t.block_count == block_count(ps) as u32
        &&& t.block_max_scores@.len() == block_count(ps)
        &&& forall|b: int|
            0 <= b < block_count(ps) ==> #[trigger] t.block_max_scores@[b] == block_bound(
                calc,
                stats,
                ps,
                b,
            )
        &&& t.max_score == best_score(t.block_max_scores@, block_count(ps))
    }
}

/// A block of the entries of a term.
pub open spec fn is_block_record<M: Fn(Step) -> u32>(
    calc: M,
    stats: FieldStats,
    ps: Seq<index_data::PostingView>,
    b: int,
    r: TextRecord,
) -> bool {
    r matches TextRecord::Block(block) && block.max_score == block_bound(calc, stats, ps, b)
        && index_data::postings_view(block.postings@) == chunk(ps, b)
}

/// The record of a column, under its key.
pub open spec fn is_field_entry(
    data: TextIndexData,
    column: Seq<char>,
    key: Seq<u8>,
    r: TextRecord,
) -> bool {
    &&& data.field_stats.map().dom().contains(column)
    &&& key == text::field_key(column)
    &&& r == TextRecord::Field(data.field_stats.map()[column])
}

/// The record of a term, under its key.
pub open spec fn is_term_entry<M: Fn(Step) -> u32>(
    calc: M,
    data: TextIndexData,
    column: Seq<char>,
    term: Seq<char>,
    key: Seq<u8>,
    r: TextRecord,
) -> bool {
    &&& data.postings.map().dom().contains((column, term))
    &&& key == text::term_key(column, term)
    &&& is_term_record(
        calc,
        index_data::stats_in(data, column),
        index_data::entries_in(data, column, term),
        r,
    )
}

/// The record of a block, under its key.
pub open spec fn is_block_entry<M: Fn(Step) -> u32>(
    calc: M,
    data: TextIndexData,
    column: Seq<char>,
    term: Seq<char>,
    b: int,
    key: Seq<u8>,
    r: TextRecord,
) -> bool {
    &&& data.postings.map().dom().contains((column, term))
    &&& 0 <= b < block_count(index_data::entries_in(data, column, term))
    &&& key == text::block_key(column, term, b as u32)
    &&& is_block_record(
        calc,
        index_data::stats_in(data, column),
        index_data::entries_in(data, column, term),
        b,
        r,
    )
}

/// A record of the index, under its key.
pub open spec fn is_entry<M: Fn(Step) -> u32>(
    calc: M,
    data: TextIndexData,
    key: Seq<u8>,
    r: TextRecord,
) -> bool {
    ||| exists|c: Seq<char>| #[trigger] is_field_entry(data, c, key, r)
    ||| exists|c: Seq<char>, t: Seq<char>| #[trigger] is_term_entry(calc, data, c, t, key, r)
    ||| exists|c: Seq<char>, t: Seq<char>, b: int| #[trigger]
        is_block_entry(calc, data, c, t, b, key, r)
}

/// A key has a record.
pub open spec fn has_key(records: Seq<(Vec<u8>, TextRecord)>, key: Seq<u8>) -> bool {
    exists|i: int| 0 <= i < records.len() && (#[trigger] records[i]).0@ == key
}

/// The records of the first `n` terms are listed.
pub open spec fn terms_listed(
    data: TextIndexData,
    records: Seq<(Vec<u8>, TextRecord)>,
    n: int,
) -> bool {
    forall|i: int|
        0 <= i < n ==> #[trigger] has_key(
            records,
            text::term_key(data.postings.keys()[i].0, data.postings.keys()[i].1),
        ) && blocks_listed(
            data,
            records,
            i,
            block_count(
                index_data::entries_in(
                    data,
                    data.postings.keys()[i].0,
                    data.postings.keys()[i].1,
                ),
            ),
        )
}

/// The first `n` blocks of a term are listed.
pub open spec fn blocks_listed(
    data: TextIndexData,
    records: Seq<(Vec<u8>, TextRecord)>,
    i: int,
    n: int,
) -> bool {
    forall|b: int|
        0 <= b < n ==> has_key(
            records,
            #[trigger] text::block_key(
                data.postings.keys()[i].0,
                data.postings.keys()[i].1,
                b as u32,
            ),
        )
}

/// The records of the first `n` columns are listed.
pub open spec fn fields_listed(
    data: TextIndexData,
    records: Seq<(Vec<u8>, TextRecord)>,
    n: int,
) -> bool {
    forall|i: int|
        0 <= i < n ==> #[trigger] has_key(records, text::field_key(data.field_stats.keys()[i]))
}

/// Every record belongs to the index.
pub open spec fn all_entries<M: Fn(Step) -> u32>(
    calc: M,
    data: TextIndexData,
    records: Seq<(Vec<u8>, TextRecord)>,
) -> bool {
    forall|i: int|
        0 <= i < records.len() ==> is_entry(
            calc,
            data,
            (#[trigger] records[i]).0@,
            records[i].1,
        )
}

/// Records are those of the index: no others, and none is left out.
pub open spec fn lists_index<M: Fn(Step) -> u32>(
    calc: M,
    data: TextIndexData,
    records: Seq<(Vec<u8>, TextRecord)>,
) -> bool {
    &&& all_entries(calc, data, records)
    &&& fields_listed(data, records, data.field_stats.keys().len() as int)
    &&& terms_listed(data, records, data.postings.keys().len() as int)
}

proof fn lemma_key_stays(
    records: Seq<(Vec<u8>, TextRecord)>,
    record: (Vec<u8>, TextRecord),
    key: Seq<u8>,
)
    requires
        has_key(records, key),
    ensures
        has_key(records.push(record), key),
{
    let i = choose|i: int| 0 <= i < records.len() && (#[trigger] records[i]).0@ == key;
    assert(records.push(record)[i].0@ == key);
}

/// What is listed stays listed.
proof fn lemma_listed_stays(
    data: TextIndexData,
    records: Seq<(Vec<u8>, TextRecord)>,
    record: (Vec<u8>, TextRecord),
    f: int,
    t: int,
)
    requires
        fields_listed(data, records, f),
        terms_listed(data, records, t),
    ensures
        fields_listed(data, records.push(record), f),
        terms_listed(data, records.push(record), t),
        has_key(records.push(record), record.0@),
{
    let next = records.push(record);
    let keys = data.postings.keys();
    assert(next[records.len() as int] == record);
    assert forall|i: int| 0 <= i < f implies #[trigger] has_key(
        next,
        text::field_key(data.field_stats.keys()[i]),
    ) by {
        lemma_key_stays(records, record, text::field_key(data.field_stats.keys()[i]));
    }
    assert forall|i: int| 0 <= i < t implies #[trigger] has_key(
        next,
        text::term_key(keys[i].0, keys[i].1),
    ) && blocks_listed(
        data,
        next,
        i,
        block_count(index_data::entries_in(data, keys[i].0, keys[i].1)),
    ) by {
        assert(has_key(records, text::term_key(keys[i].0, keys[i].1)));
        lemma_key_stays(records, record, text::term_key(keys[i].0, keys[i].1));
        let n = block_count(index_data::entries_in(data, keys[i].0, keys[i].1));
        lemma_blocks_stay(data, records, record, i, n);
    }
}

proof fn lemma_blocks_stay(
    data: TextIndexData,
    records: Seq<(Vec<u8>, TextRecord)>,
    record: (Vec<u8>, TextRecord),
    i: int,
    n: int,
)
    requires
        blocks_listed(data, records, i, n),
    ensures
        blocks_listed(data, records.push(record), i, n),
{
    let keys = data.postings.keys();
    assert forall|b: int| 0 <= b < n implies has_key(
        records.push(record),
        #[trigger] text::block_key(keys[i].0, keys[i].1, b as u32),
    ) by {
        lemma_key_stays(records, record, text::block_key(keys[i].0, keys[i].1, b as u32));
    }
}

proof fn lemma_entry_stays<M: Fn(Step) -> u32>(
    calc: M,
    data: TextIndexData,
    records: Seq<(Vec<u8>, TextRecord)>,
    record: (Vec<u8>, TextRecord),
)
    requires
        all_entries(calc, data, records),
        is_entry(calc, data, record.0@, record.1),
    ensures
        all_entries(calc, data, records.push(record)),
{
    let next = records.push(record);
    assert forall|i: int| 0 <= i < next.len() implies is_entry(
        calc,
        data,
        (#[trigger] next[i]).0@,
        next[i].1,
    ) by {
        if i < records.len() {
            assert(next[i] == records[i]);
        }
    }
}

/// The best of what the entries of a block contribute.
fn bound_of<M: Copy + Fn(Step) -> u32>(
    query: TermQuery,
    postings: &Vec<TermPosting>,
    calc: M,
) -> (best: u32)
    requires
        arithmetic::is_arithmetic(calc),
    ensures
        best == best_contribution(
            calc,
            query,
            index_data::postings_view(postings@),
            postings@.len() as int,
        ),
{
    let scorer = query.scorer(calc);
    let mut best: u32 = 0;
    let mut i: usize = 0;
    while i < postings.len()
        invariant
            i <= postings@.len(),
            arithmetic::is_arithmetic(calc),
            scorer == scoring::query_scorer(calc, query),
            best == best_contribution(
                calc,
                query,
                index_data::postings_view(postings@),
                i as int,
            ),
        decreases postings@.len() - i,
    {
        let p = &postings[i];
        assert(index_data::postings_view(postings@)[i as int] == index_data::posting_view(*p));
        let s: u32 = match scorer {
            Some(scorer) => scorer.score(p.term_frequency, p.doc_len, calc),
            None => 0,
        };
        if score_beats(s, best) {
            best = s;
        }
        i = i + 1;
    }
    best
}

fn best_of(scores: &Vec<u32>) -> (best: u32)
    ensures
        best == best_score(scores@, scores@.len() as int),
{
    let mut best: u32 = 0;
    let mut i: usize = 0;
    while i < scores.len()
        invariant
            i <= scores@.len(),
            best == best_score(scores@, i as int),
        decreases scores@.len() - i,
    {
        if score_beats(scores[i], best) {
            best = scores[i];
        }
        i = i + 1;
    }
    best
}

/// Lists the records of the term at a position of the order.
#[verifier::spinoff_prover]
fn list_term<M: Copy + Fn(Step) -> u32>(
    records: &mut Vec<(Vec<u8>, TextRecord)>,
    data: &TextIndexData,
    t: usize,
    calc: M,
)
    requires
        arithmetic::is_arithmetic(calc),
        data.wf(),
        t < data.postings.keys().len(),
        all_entries(calc, *data, old(records)@),
        fields_listed(*data, old(records)@, data.field_stats.keys().len() as int),
        terms_listed(*data, old(records)@, t as int),
    ensures
        all_entries(calc, *data, final(records)@),
        fields_listed(*data, final(records)@, data.field_stats.keys().len() as int),
        terms_listed(*data, final(records)@, t + 1),
{
    let ghost fields = data.field_stats.keys().len() as int;
    let ghost keys = data.postings.keys();
    let key = data.postings.key_at(t);
    let postings = data.postings.value_at(t);
    let ghost ps = index_data::postings_view(postings@);
    let ghost col = keys[t as int].0;
    let ghost term = keys[t as int].1;
    proof {
        data.postings.lemma_position(t as int);
        assert(index_data::entries_in(*data, col, term) == ps);
    }
    let stats: FieldStats = match data.field_stats.get(key.column.as_str()) {
        Some(stats) => *stats,
        None => FieldStats { doc_count: 0, total_doc_len: 0 },
    };
    let query = TermQuery {
        params: Bm25Params::default(),
        stats,
        doc_freq: postings.len() as u64,
        frequency: 1,
    };
    let blocks = posting_blocks(postings);
    let ghost views = index_data::blocks_view(blocks@);
    let n = blocks.len();
    let mut bounds: Vec<u32> = Vec::new();
    let mut b: usize = 0;
    while b < n
        invariant
            b <= n,
            n == blocks@.len(),
            views == index_data::blocks_view(blocks@),
            index_data::is_cut_into(ps, POSTING_BLOCK_TARGET as int, views),
            arithmetic::is_arithmetic(calc),
            query == plain_query(stats, ps.len() as int),
            bounds@.len() == b,
            forall|j: int| 0 <= j < b ==> #[trigger] bounds@[j] == block_bound(calc, stats, ps, j),
        decreases n - b,
    {
        assert(views[b as int] == chunk(ps, b as int));
        let bound: u32 = bound_of(query, &blocks[b], calc);
        bounds.push(bound);
        b = b + 1;
    }
    let best: u32 = best_of(&bounds);
    let meta = TextRecord::Term(
        TextTermStats {
            doc_freq: postings.len() as u64,
            block_count: n as u32,
            max_score: best,
            block_max_scores: copied(&bounds),
        },
    );
    let meta_key = term_meta_key(key.column.as_str(), key.term.as_str());
    let ghost entry = (meta_key, meta);
    proof {
        assert(is_term_record(calc, stats, ps, meta));
        assert(is_term_entry(calc, *data, col, term, meta_key@, meta));
        assert(is_entry(calc, *data, entry.0@, entry.1));
        lemma_entry_stays(calc, *data, records@, entry);
        lemma_listed_stays(*data, records@, entry, fields, t as int);
    }
    records.push((meta_key, meta));
    let mut rest = crate::sorting::reversed(blocks);
    let ghost given = blocks@;
    let mut c: usize = 0;
    while c < n
        invariant
            c <= n,
            n == given.len(),
            views == index_data::blocks_view(given),
            index_data::is_cut_into(ps, POSTING_BLOCK_TARGET as int, views),
            rest@.len() == n - c,
            forall|k: int| 0 <= k < rest@.len() ==> #[trigger] rest@[k] == given[n - 1 - k],
            bounds@.len() == n,
            forall|j: int| 0 <= j < n ==> #[trigger] bounds@[j] == block_bound(calc, stats, ps, j),
            keys == data.postings.keys(),
            fields == data.field_stats.keys().len(),
            t < keys.len(),
            key@ == (col, term),
            keys[t as int] == (col, term),
            data.postings.map().dom().contains((col, term)),
            index_data::entries_in(*data, col, term) == ps,
            index_data::stats_in(*data, col) == stats,
            all_entries(calc, *data, records@),
            fields_listed(*data, records@, fields),
            terms_listed(*data, records@, t as int),
            has_key(records@, text::term_key(col, term)),
            blocks_listed(*data, records@, t as int, c as int),
        decreases n - c,
    {
        assert(rest@[rest@.len() - 1] == given[c as int]);
        assert(views[c as int] == chunk(ps, c as int));
        if let Some(block) = rest.pop() {
            let r = TextRecord::Block(PostingBlock { max_score: bounds[c], postings: block });
            let k = term_block_key(key.column.as_str(), key.term.as_str(), c as u32);
            let ghost e = (k, r);
            proof {
                assert(is_block_record(calc, stats, ps, c as int, r));
                assert(is_block_entry(calc, *data, col, term, c as int, k@, r));
                assert(is_entry(calc, *data, e.0@, e.1));
                lemma_entry_stays(calc, *data, records@, e);
                lemma_listed_stays(*data, records@, e, fields, t as int);
                lemma_key_stays(records@, e, text::term_key(col, term));
                lemma_blocks_stay(*data, records@, e, t as int, c as int);
            }
            records.push((k, r));
        }
        c = c + 1;
    }
    assert forall|i: int| 0 <= i < t + 1 implies #[trigger] has_key(
        records@,
        text::term_key(data.postings.keys()[i].0, data.postings.keys()[i].1),
    ) && blocks_listed(
        *data,
        records@,
        i,
        block_count(
            index_data::entries_in(
                *data,
                data.postings.keys()[i].0,
                data.postings.keys()[i].1,
            ),
        ),
    ) by {
        if i < t {
            assert(terms_listed(*data, records@, t as int));
        } else {
            assert(data.postings.keys()[i] == (col, term));
            assert(n == block_count(ps));
        }
    }
    assert(terms_listed(*data, records@, t + 1));
}

fn copied(v: &Vec<u32>) -> (r: Vec<u32>)
    ensures
        r@ == v@,
{
    let mut r: Vec<u32> = Vec::new();
    let mut i: usize = 0;
    while i < v.len()
        invariant
            i <= v@.len(),
            r@ == v@.take(i as int),
        decreases v@.len() - i,
    {
        r.push(v[i]);
        assert(v@.take(i + 1) =~= v@.take(i as int).push(v@[i as int]));
        i = i + 1;
    }
    assert(v@.take(i as int) =~= v@);
    r
}

/// Lists the records of an index.
fn list_records<M: Copy + Fn(Step) -> u32>(data: &TextIndexData, calc: M) -> (records: Vec<
    (Vec<u8>, TextRecord),
>)
    requires
        arithmetic::is_arithmetic(calc),
        data.wf(),
    ensures
        lists_index(calc, *data, records@),
{
    let mut records: Vec<(Vec<u8>, TextRecord)> = Vec::new();
    let n = data.field_stats.len();
    let mut f: usize = 0;
    while f < n
        invariant
            f <= n,
            n == data.field_stats.keys().len(),
            data.wf(),
            all_entries(calc, *data, records@),
            fields_listed(*data, records@, f as int),
        decreases n - f,
    {
        let column = data.field_stats.key_at(f);
        let stats: FieldStats = *data.field_stats.value_at(f);
        let ghost col = data.field_stats.keys()[f as int];
        proof {
            data.field_stats.lemma_position(f as int);
        }
        let key = field_stats_key(column.as_str());
        let r = TextRecord::Field(stats);
        let ghost e = (key, r);
        proof {
            assert(is_field_entry(*data, col, key@, r));
            assert(is_entry(calc, *data, e.0@, e.1));
            lemma_entry_stays(calc, *data, records@, e);
            lemma_listed_stays(*data, records@, e, f as int, 0);
        }
        let ghost before = records@;
        records.push((key, r));
        assert(records@ == before.push(e));
        f = f + 1;
    }
    let m = data.postings.len();
    let mut t: usize = 0;
    while t < m
        invariant
            t <= m,
            m == data.postings.keys().len(),
            arithmetic::is_arithmetic(calc),
            data.wf(),
            all_entries(calc, *data, records@),
            fields_listed(*data, records@, data.field_stats.keys().len() as int),
            terms_listed(*data, records@, t as int),
        decreases m - t,
    {
        list_term(&mut records, data, t, calc);
        t = t + 1;
    }
    records
}

/// Bytes are a stored form of a record.
pub open spec fn is_stored_form<E: Fn(&TextRecord) -> Result<Vec<u8>, Error>>(
    encode: E,
    r: TextRecord,
    bytes: Vec<u8>,
) -> bool {
    call_ensures(encode, (&r,), Ok::<Vec<u8>, Error>(bytes))
}

/// Entries are the stored forms of records.
pub open spec fn stores_records<E: Fn(&TextRecord) -> Result<Vec<u8>, Error>>(
    encode: E,
    records: Seq<(Vec<u8>, TextRecord)>,
    entries: Map<Seq<u8>, Vec<u8>>,
) -> bool {
    &&& forall|i: int| 0 <= i < records.len() ==> entries.dom().contains((#[trigger] records[i]).0@)
    &&& forall|key: Seq<u8>|
        entries.dom().contains(key) ==> stores_one(encode, records, key, #[trigger] entries[key])
}

/// An entry is the stored form of one of the records with its key.
pub open spec fn stores_one<E: Fn(&TextRecord) -> Result<Vec<u8>, Error>>(
    encode: E,
    records: Seq<(Vec<u8>, TextRecord)>,
    key: Seq<u8>,
    bytes: Vec<u8>,
) -> bool {
    exists|i: int|
        0 <= i < records.len() && (#[trigger] records[i]).0@ == key && is_stored_form(
            encode,
            records[i].1,
            bytes,
        )
}

/// One of the records has no stored form.
pub open spec fn cannot_store<E: Fn(&TextRecord) -> Result<Vec<u8>, Error>>(
    encode: E,
    records: Seq<(Vec<u8>, TextRecord)>,
    e: Error,
) -> bool {
    exists|i: int|
        0 <= i < records.len() && call_ensures(
            encode,
            (&(#[trigger] records[i]).1,),
            Err::<Vec<u8>, Error>(e),
        )
}

/// The records can be handed to a function that stores them.
pub open spec fn can_store<E: Fn(&TextRecord) -> Result<Vec<u8>, Error>>(encode: E) -> bool {
    forall|r: &TextRecord| #[trigger] call_requires(encode, (r,))
}

fn store_records<E: Copy + Fn(&TextRecord) -> Result<Vec<u8>, Error>>(
    records: Vec<(Vec<u8>, TextRecord)>,
    encode: E,
) -> (r: Result<SortedMap<Vec<u8>, Vec<u8>>, Error>)
    requires
        can_store(encode),
    ensures
        match r {
            Ok(entries) => entries.wf() && stores_records(encode, records@, entries.map()),
            Err(e) => cannot_store(encode, records@, e),
        },
{
    let ghost given = records@;
    let n = records.len();
    let mut rest = crate::sorting::reversed(records);
    let mut entries: SortedMap<Vec<u8>, Vec<u8>> = SortedMap::new();
    let mut i: usize = 0;
    while i < n
        invariant
            i <= n,
            n == given.len(),
            given == records@,
            can_store(encode),
            rest@.len() == n - i,
            forall|k: int| 0 <= k < rest@.len() ==> #[trigger] rest@[k] == given[n - 1 - k],
            entries.wf(),
            forall|k: int| 0 <= k < i ==> entries.map().dom().contains((#[trigger] given[k]).0@),
            forall|key: Seq<u8>|
                entries.map().dom().contains(key) ==> stores_one(
                    encode,
                    given,
                    key,
                    #[trigger] entries.map()[key],
                ),
        decreases n - i,
    {
        assert(rest@[rest@.len() - 1] == given[i as int]);
        if let Some((key, record)) = rest.pop() {
            let bytes = match encode(&record) {
                Ok(bytes) => bytes,
                Err(e) => {
                    assert(given[i as int].1 == record);
                    assert(cannot_store(encode, given, e));
                    return Err(e);
                },
            };
            let ghost before = entries.map();
            let ghost k = key@;
            assert(is_stored_form(encode, given[i as int].1, bytes));
            assert(stores_one(encode, given, k, bytes));
            entries.insert(key, bytes);
            assert forall|x: Seq<u8>| entries.map().dom().contains(x) implies stores_one(
                encode,
                given,
                x,
                #[trigger] entries.map()[x],
            ) by {
                if x != k {
                    assert(before.dom().contains(x));
                    assert(entries.map()[x] == before[x]);
                }
            }
        }
        i = i + 1;
    }
    Ok(entries)
}

/// A built text index.
#[derive(Debug)]
pub struct BuiltTextSst {
    pub bytes: Vec<u8>,
    pub entry_count: u64,
}

/// The entries of a map of bytes, in key order.
pub open spec fn map_entries(m: SortedMap<Vec<u8>, Vec<u8>>) -> Seq<(Seq<u8>, Seq<u8>)> {
    Seq::new(m.keys().len(), |i: int| (m.keys()[i], m.values()[i]@))
}

/// Writes entries in the order of their keys.
fn write_entries(entries: SortedMap<Vec<u8>, Vec<u8>>) -> (r: Result<
    BuiltTextSst,
    Error,
>)
    requires
        entries.wf(),
    ensures
        ({
            let es = map_entries(entries);
            match r {
                Ok(built) => writer::is_table_of(built.bytes@, es)
                    && writer::keys_sorted(es) && built.entry_count == es.len(),
                Err(e) => e is InvalidWrite && (!writer::keys_short(es) || es.len()
                    > u32::MAX),
            }
        }),
{
    let ghost es = map_entries(entries);
    let ghost keys = entries.keys();
    let ghost vals = entries.values();
    let n = entries.len();
    assert(writer::keys_sorted(es)) by {
        assert forall|i: int, j: int| 0 <= i < j < es.len() implies crate::order::lex_lt(
            #[trigger] es[i].0,
            #[trigger] es[j].0,
        ) by {
            assert(crate::sorted::key_lt::<Vec<u8>>(keys[i], keys[j]));
            crate::order::lemma_lex_total(keys[i], keys[j]);
        }
    }
    let list: Vec<Entry> = entries.into_entries();
    assert(block::entries_view(list@) =~= es);
    match write_table(list.as_slice()) {
        Ok(bytes) => Ok(BuiltTextSst { bytes, entry_count: n as u64 }),
        Err(e) => Err(e),
    }
}

/// Data is that of documents.
pub open spec fn is_data_of(
    data: TextIndexData,
    ids: Seq<IdView>,
    docs: documents::Docs,
) -> bool {
    &&& data.wf()
    &&& forall|c: Seq<char>, t: Seq<char>| #[trigger]
        index_data::entries_in(data, c, t) == index_data::term_entries(
            ids,
            docs,
            c,
            t,
            text::default_config(),
            ids.len() as int,
        )
    &&& forall|c: Seq<char>| #[trigger]
        index_data::stats_in(data, c) == index_data::field_totals(
            ids,
            docs,
            c,
            text::default_config(),
            ids.len() as int,
        )
}

/// A table holds the stored forms of the records of some data.
pub open spec fn is_index_of<
    M: Fn(Step) -> u32,
    E: Fn(&TextRecord) -> Result<Vec<u8>, Error>,
>(
    calc: M,
    encode: E,
    data: TextIndexData,
    records: Seq<(Vec<u8>, TextRecord)>,
    entries: SortedMap<Vec<u8>, Vec<u8>>,
    built: BuiltTextSst,
) -> bool {
    &&& lists_index(calc, data, records)
    &&& entries.wf()
    &&& stores_records(encode, records, entries.map())
    &&& writer::keys_sorted(map_entries(entries))
    &&& writer::is_table_of(built.bytes@, map_entries(entries))
    &&& built.entry_count == map_entries(entries).len()
}

/// A table is the index of some data.
pub open spec fn indexes<M: Fn(Step) -> u32, E: Fn(&TextRecord) -> Result<Vec<u8>, Error>>(
    calc: M,
    encode: E,
    data: TextIndexData,
    built: BuiltTextSst,
) -> bool {
    exists|records: Seq<(Vec<u8>, TextRecord)>, entries: SortedMap<Vec<u8>, Vec<u8>>| #[trigger]
        is_index_of(calc, encode, data, records, entries, built)
}

/// A record of some data has no stored form, or the entries do not fit a table.
pub open spec fn cannot_index<
    M: Fn(Step) -> u32,
    E: Fn(&TextRecord) -> Result<Vec<u8>, Error>,
>(calc: M, encode: E, data: TextIndexData, e: Error) -> bool {
    ||| exists|records: Seq<(Vec<u8>, TextRecord)>| #[trigger]
        lists_index(calc, data, records) && cannot_store(encode, records, e)
    ||| e is InvalidWrite && exists|
        records: Seq<(Vec<u8>, TextRecord)>,
        entries: SortedMap<Vec<u8>, Vec<u8>>,
    | #[trigger]
        lists_index(calc, data, records) && #[trigger] stores_records(
            encode,
            records,
            entries.map(),
        ) && (!writer::keys_short(map_entries(entries)) || map_entries(entries).len() > u32::MAX)
}

/// What building an index of documents gives.
pub open spec fn builds<M: Fn(Step) -> u32, E: Fn(&TextRecord) -> Result<Vec<u8>, Error>>(
    calc: M,
    encode: E,
    data: TextIndexData,
    r: Result<Option<BuiltTextSst>, Error>,
) -> bool {
    if data.field_stats.keys().len() == 0 {
        r is Ok && r->Ok_0 is None
    } else {
        match r {
            Ok(None) => false,
            Ok(Some(built)) => indexes(calc, encode, data, built),
            Err(e) => cannot_index(calc, encode, data, e),
        }
    }
}

/// What building an index of documents gives.
pub open spec fn builds_from<
    M: Fn(Step) -> u32,
    E: Fn(&TextRecord) -> Result<Vec<u8>, Error>,
>(
    calc: M,
    encode: E,
    ids: Seq<IdView>,
    docs: documents::Docs,
    r: Result<Option<BuiltTextSst>, Error>,
) -> bool {
    exists|data: TextIndexData| #[trigger]
        is_data_of(data, ids, docs) && builds(calc, encode, data, r)
}

/// Builds the text index of documents; there is none if no document has text.
pub fn build_text_sst<
    M: Copy + Fn(Step) -> u32,
    E: Copy + Fn(&TextRecord) -> Result<Vec<u8>, Error>,
>(docs: &SortedMap<Id, Document>, calc: M, encode: E) -> (r: Result<Option<BuiltTextSst>, Error>)
    requires
        documents::docs_wf(*docs),
        arithmetic::is_arithmetic(calc),
        can_store(encode),
    ensures
        builds_from(calc, encode, docs.keys(), documents::docs_view(*docs), r),
{
    let data = build_index_data(docs, TokenizerConfig::default());
    assert(is_data_of(data, docs.keys(), documents::docs_view(*docs)));
    if data.field_stats.len() == 0 {
        let r: Result<Option<BuiltTextSst>, Error> = Ok(None);
        assert(builds(calc, encode, data, r));
        return r;
    }
    let records = list_records(&data, calc);
    let ghost listed = records@;
    let entries = match store_records(records, encode) {
        Ok(entries) => entries,
        Err(e) => {
            let r: Result<Option<BuiltTextSst>, Error> = Err(e);
            assert(lists_index(calc, data, listed) && cannot_store(encode, listed, e));
            assert(builds(calc, encode, data, r));
            return r;
        },
    };
    let ghost stored = entries;
    let r: Result<Option<BuiltTextSst>, Error> = match write_entries(entries) {
        Ok(built) => {
            assert(is_index_of(calc, encode, data, listed, stored, built));
            Ok(Some(built))
        },
        Err(e) => {
            assert(lists_index(calc, data, listed) && stores_records(
                encode,
                listed,
                stored.map(),
            ));
            Err(e)
        },
    };
    assert(builds(calc, encode, data, r));
    r
}

/// No entry of a block contributes more than the bound of the block, and none of a list more
/// than its best; the best is zero or what one of them contributes.
pub proof fn law_bounds_are_the_best_contributions<M: Fn(Step) -> u32>(
    calc: M,
    query: TermQuery,
    ps: Seq<index_data::PostingView>,
    n: int,
    i: int,
)
    requires
        0 <= i < n <= ps.len(),
        forall|k: int|
            0 <= k < n ==> rounding::is_number(scoring::rated(calc, query, #[trigger] ps[k])),
    ensures
        rounding::is_number(best_contribution(calc, query, ps, n)),
        rounding::number(best_contribution(calc, query, ps, n)) >= 0real,
        rounding::number(scoring::rated(calc, query, ps[i])) <= rounding::number(
            best_contribution(calc, query, ps, n),
        ),
        best_contribution(calc, query, ps, n) == 0 || exists|k: int|
            0 <= k < n && best_contribution(calc, query, ps, n) == scoring::rated(
                calc,
                query,
                #[trigger] ps[k],
            ),
    decreases n,
{
    rounding::lemma_zeros(0);
    let before = best_contribution(calc, query, ps, n - 1);
    if n > 1 {
        law_bounds_are_the_best_contributions(
            calc,
            query,
            ps,
            n - 1,
            if i < n - 1 {
                i
            } else {
                0
            },
        );
    } else {
        assert(before == 0);
    }
    let last = scoring::rated(calc, query, ps[n - 1]);
    assert(rounding::is_number(last));
    rounding::law_higher_score_is_higher_number(last, before);
}

/// The best of some scores is no lower than any of them, and is zero or one of them.
pub proof fn law_best_score_is_the_highest(scores: Seq<u32>, n: int, i: int)
    requires
        0 <= i < n <= scores.len(),
        forall|k: int| 0 <= k < n ==> rounding::is_number(#[trigger] scores[k]),
    ensures
        rounding::is_number(best_score(scores, n)),
        rounding::number(best_score(scores, n)) >= 0real,
        rounding::number(scores[i]) <= rounding::number(best_score(scores, n)),
        best_score(scores, n) == 0 || exists|k: int|
            0 <= k < n && best_score(scores, n) == #[trigger] scores[k],
    decreases n,
{
    rounding::lemma_zeros(0);
    let before = best_score(scores, n - 1);
    if n > 1 {
        law_best_score_is_the_highest(
            scores,
            n - 1,
            if i < n - 1 {
                i
            } else {
                0
            },
        );
    } else {
        assert(before == 0);
    }
    assert(rounding::is_number(scores[n - 1]));
    rounding::law_higher_score_is_higher_number(scores[n - 1], before);
}

/// Every entry of a term is in one of its blocks, and the blocks hold them in order.
pub proof fn law_blocks_share_out_the_entries(ps: Seq<index_data::PostingView>, i: int)
    requires
        0 <= i < ps.len(),
    ensures
        ({
            let size = POSTING_BLOCK_TARGET as int;
            let b = i / size;
            &&& 0 <= b < block_count(ps)
            &&& i % size < chunk(ps, b).len()
            &&& chunk(ps, b)[i % size] == ps[i]
            &&& chunk(ps, b).len() <= size
            &&& b + 1 < block_count(ps) ==> chunk(ps, b).len() == size
        }),
{
}

} // verus!
