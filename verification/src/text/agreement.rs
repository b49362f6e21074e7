//! Why searching the index of documents finds what scoring the documents finds.

use vstd::prelude::*;
use vstd::utf8::encode_utf8;

use crate::arithmetic::Step;
use crate::documents;
use crate::error::Error;
use crate::sorted::SortedMap;
use crate::sst::reader;
use crate::sst::reader::SstReader;
use crate::sst::writer;
use crate::text;
use crate::text::index_data;
use crate::text::index_data::{FieldStats, TextIndexData};
use crate::text::scoring;
use crate::text::scoring::{Bm25Params};
use crate::text::search;
use crate::text::search::{PostingBlock, TextTermStats};
use crate::text::table;
use crate::text::table::{BuiltTextSst, TextRecord};
use crate::text::TermFrequency;
use crate::value::IdView;

verus! {

/// Reading a stored record gives it back.
pub open spec fn reads_back<
    E: Fn(&TextRecord) -> Result<Vec<u8>, Error>,
    F: Fn(&Vec<u8>) -> Result<FieldStats, Error>,
    T: Fn(&Vec<u8>) -> Result<TextTermStats, Error>,
    B: Fn(&Vec<u8>) -> Result<PostingBlock, Error>,
>(encode: E, decode_field: F, decode_term: T, decode_block: B) -> bool {
    forall|r: TextRecord, bytes: Vec<u8>| #[trigger]
        table::is_stored_form(encode, r, bytes) ==> match r {
            TextRecord::Field(x) => search::decoded(decode_field, bytes@) == Ok::<
                FieldStats,
                Error,
            >(x),
            TextRecord::Term(x) => search::decoded(decode_term, bytes@) == Ok::<
                TextTermStats,
                Error,
            >(x),
            TextRecord::Block(x) => search::decoded(decode_block, bytes@) == Ok::<
                PostingBlock,
                Error,
            >(x),
        }
}

/// A text whose length fits the keys of the index.
pub open spec fn is_short(s: Seq<char>) -> bool {
    encode_utf8(s).len() <= u32::MAX
}

/// The names of columns and terms, and the numbers of blocks, fit the keys of the
/// index.
pub open spec fn data_fits(data: TextIndexData) -> bool {
    &&& forall|c: Seq<char>| #[trigger]
        data.field_stats.map().dom().contains(c) ==> is_short(c)
    &&& forall|c: Seq<char>, t: Seq<char>| #[trigger]
        data.postings.map().dom().contains((c, t)) ==> is_short(c) && is_short(t)
            && table::block_count(index_data::entries_in(data, c, t)) <= u32::MAX
}

/// A table is open for reading.
pub open spec fn is_open(reader: SstReader, built: BuiltTextSst) -> bool {
    reader.data() == built.bytes@ && reader::table_index(built.bytes@) == Some(reader.index())
}

/// Keys of different kinds differ, and a key belongs to one column, term and block.
proof fn lemma_keys(c: Seq<char>, t: Seq<char>, b: u32, d: Seq<char>, u: Seq<char>, e: u32)
    requires
        is_short(c),
        is_short(d),
        is_short(t),
        is_short(u),
    ensures
        text::field_key(c) != text::term_key(d, u),
        text::field_key(c) != text::block_key(d, u, e),
        text::term_key(c, t) != text::block_key(d, u, e),
        text::field_key(c) == text::field_key(d) ==> c == d,
        text::term_key(c, t) == text::term_key(d, u) ==> c == d && t == u,
        text::block_key(c, t, b) == text::block_key(d, u, e) ==> c == d && t == u && b == e,
{
    assert(text::field_key(c)[0] == text::KEY_KIND_FIELD_STATS);
    assert(text::term_key(c, t)[0] == text::KEY_KIND_TERM_META);
    assert(text::term_key(d, u)[0] == text::KEY_KIND_TERM_META);
    assert(text::block_key(d, u, e)[0] == text::KEY_KIND_TERM_BLOCK);
    if text::field_key(c) == text::field_key(d) {
        text::lemma_field_keys(c, d);
    }
    if text::term_key(c, t) == text::term_key(d, u) {
        text::lemma_term_keys(c, t, d, u);
    }
    if text::block_key(c, t, b) == text::block_key(d, u, e) {
        text::law_block_keys_are_distinct(c, t, b, d, u, e);
    }
}

/// A lookup in the table finds the entry of a key.
proof fn lemma_lookup<M: Fn(Step) -> u32, E: Fn(&TextRecord) -> Result<Vec<u8>, Error>>(
    calc: M,
    encode: E,
    data: TextIndexData,
    records: Seq<(Vec<u8>, TextRecord)>,
    entries: SortedMap<Vec<u8>, Vec<u8>>,
    built: BuiltTextSst,
    reader: SstReader,
    key: Seq<u8>,
)
    requires
        table::is_index_of(calc, encode, data, records, entries, built),
        is_open(reader, built),
    ensures
        reader::table_get(reader.data(), reader.index(), key) == Some(
            if entries.map().dom().contains(key) {
                Some(entries.map()[key]@)
            } else {
                None
            },
        ),
{
    let es = table::map_entries(entries);
    if entries.map().dom().contains(key) {
        let i = entries.keys().index_of(key);
        entries.lemma_position(i);
        assert(es[i].0 == key && es[i].1 == entries.map()[key]@);
        writer::law_get_finds_what_was_written(reader.data(), es, reader.index(), i);
    } else {
        assert forall|i: int| 0 <= i < es.len() implies #[trigger] es[i].0 != key by {
            entries.lemma_position(i);
        }
        writer::law_get_misses_what_was_not_written(reader.data(), es, reader.index(), key);
    }
}

/// A key that the table has belongs to a record of the index.
proof fn lemma_entry<M: Fn(Step) -> u32, E: Fn(&TextRecord) -> Result<Vec<u8>, Error>>(
    calc: M,
    encode: E,
    data: TextIndexData,
    records: Seq<(Vec<u8>, TextRecord)>,
    entries: SortedMap<Vec<u8>, Vec<u8>>,
    built: BuiltTextSst,
    key: Seq<u8>,
) -> (r: TextRecord)
    requires
        table::is_index_of(calc, encode, data, records, entries, built),
        entries.map().dom().contains(key),
    ensures
        table::is_stored_form(encode, r, entries.map()[key]),
        table::is_entry(calc, data, key, r),
{
    let bytes = entries.map()[key];
    assert(table::stores_one(encode, records, key, bytes));
    let i = choose|i: int|
        0 <= i < records.len() && (#[trigger] records[i]).0@ == key && table::is_stored_form(
            encode,
            records[i].1,
            bytes,
        );
    assert(table::is_entry(calc, data, records[i].0@, records[i].1));
    records[i].1
}

proof fn lemma_has_entry<E: Fn(&TextRecord) -> Result<Vec<u8>, Error>>(
    encode: E,
    records: Seq<(Vec<u8>, TextRecord)>,
    entries: SortedMap<Vec<u8>, Vec<u8>>,
    key: Seq<u8>,
)
    requires
        table::stores_records(encode, records, entries.map()),
        table::has_key(records, key),
    ensures
        entries.map().dom().contains(key),
{
    let i = choose|i: int| 0 <= i < records.len() && (#[trigger] records[i]).0@ == key;
    assert(entries.map().dom().contains(records[i].0@));
}

/// The counts of a column are found.
proof fn lemma_field_found<
    M: Fn(Step) -> u32,
    E: Fn(&TextRecord) -> Result<Vec<u8>, Error>,
    F: Fn(&Vec<u8>) -> Result<FieldStats, Error>,
    T: Fn(&Vec<u8>) -> Result<TextTermStats, Error>,
    B: Fn(&Vec<u8>) -> Result<PostingBlock, Error>,
>(
    calc: M,
    encode: E,
    decode_field: F,
    decode_term: T,
    decode_block: B,
    data: TextIndexData,
    records: Seq<(Vec<u8>, TextRecord)>,
    entries: SortedMap<Vec<u8>, Vec<u8>>,
    built: BuiltTextSst,
    reader: SstReader,
    column: Seq<char>,
)
    requires
        data.wf(),
        data_fits(data),
        is_short(column),
        table::is_index_of(calc, encode, data, records, entries, built),
        is_open(reader, built),
        reads_back(encode, decode_field, decode_term, decode_block),
    ensures
        search::record_at(reader, text::field_key(column), decode_field) == (
        if data.field_stats.map().dom().contains(column) {
            search::Lookup::Found(data.field_stats.map()[column])
        } else {
            search::Lookup::Missing
        }),
{
    let key = text::field_key(column);
    lemma_lookup(calc, encode, data, records, entries, built, reader, key);
    if data.field_stats.map().dom().contains(column) {
        let i = data.field_stats.keys().index_of(column);
        assert(table::has_key(records, text::field_key(data.field_stats.keys()[i])));
        lemma_has_entry(encode, records, entries, key);
    }
    if entries.map().dom().contains(key) {
        let r = lemma_entry(calc, encode, data, records, entries, built, key);
        if exists|c: Seq<char>| #[trigger] table::is_field_entry(data, c, key, r) {
            let c = choose|c: Seq<char>| #[trigger] table::is_field_entry(data, c, key, r);
            lemma_keys(column, column, 0, c, c, 0);
        } else if exists|c: Seq<char>, t: Seq<char>| #[trigger]
            table::is_term_entry(calc, data, c, t, key, r) {
            let (c, t) = choose|c: Seq<char>, t: Seq<char>| #[trigger]
                table::is_term_entry(calc, data, c, t, key, r);
            lemma_keys(column, column, 0, c, t, 0);
        } else {
            let (c, t, b) = choose|c: Seq<char>, t: Seq<char>, b: int| #[trigger]
                table::is_block_entry(calc, data, c, t, b, key, r);
            lemma_keys(column, column, 0, c, t, b as u32);
        }
    }
}

/// What is known of a term is found.
proof fn lemma_term_found<
    M: Fn(Step) -> u32,
    E: Fn(&TextRecord) -> Result<Vec<u8>, Error>,
    F: Fn(&Vec<u8>) -> Result<FieldStats, Error>,
    T: Fn(&Vec<u8>) -> Result<TextTermStats, Error>,
    B: Fn(&Vec<u8>) -> Result<PostingBlock, Error>,
>(
    calc: M,
    encode: E,
    decode_field: F,
    decode_term: T,
    decode_block: B,
    data: TextIndexData,
    records: Seq<(Vec<u8>, TextRecord)>,
    entries: SortedMap<Vec<u8>, Vec<u8>>,
    built: BuiltTextSst,
    reader: SstReader,
    column: Seq<char>,
    term: Seq<char>,
)
    requires
        data.wf(),
        data_fits(data),
        is_short(column),
        is_short(term),
        table::is_index_of(calc, encode, data, records, entries, built),
        is_open(reader, built),
        reads_back(encode, decode_field, decode_term, decode_block),
    ensures
        ({
            let found = search::record_at(reader, text::term_key(column, term), decode_term);
            let ps = index_data::entries_in(data, column, term);
            if data.postings.map().dom().contains((column, term)) {
                &&& found is Found
                &&& found->Found_0.doc_freq == ps.len() as u64
                &&& found->Found_0.block_count == table::block_count(ps)
            } else {
                found is Missing
            }
        }),
{
    let key = text::term_key(column, term);
    lemma_lookup(calc, encode, data, records, entries, built, reader, key);
    if data.postings.map().dom().contains((column, term)) {
        let i = data.postings.keys().index_of((column, term));
        assert(table::has_key(
            records,
            text::term_key(data.postings.keys()[i].0, data.postings.keys()[i].1),
        ));
        lemma_has_entry(encode, records, entries, key);
    }
    if entries.map().dom().contains(key) {
        let r = lemma_entry(calc, encode, data, records, entries, built, key);
        if exists|c: Seq<char>| #[trigger] table::is_field_entry(data, c, key, r) {
            let c = choose|c: Seq<char>| #[trigger] table::is_field_entry(data, c, key, r);
            lemma_keys(c, c, 0, column, term, 0);
        } else if exists|c: Seq<char>, t: Seq<char>| #[trigger]
            table::is_term_entry(calc, data, c, t, key, r) {
            let (c, t) = choose|c: Seq<char>, t: Seq<char>| #[trigger]
                table::is_term_entry(calc, data, c, t, key, r);
            lemma_keys(column, term, 0, c, t, 0);
        } else {
            let (c, t, b) = choose|c: Seq<char>, t: Seq<char>, b: int| #[trigger]
                table::is_block_entry(calc, data, c, t, b, key, r);
            lemma_keys(column, term, 0, c, t, b as u32);
        }
    }
}

/// A block of the entries of a term is found.
proof fn lemma_block_found<
    M: Fn(Step) -> u32,
    E: Fn(&TextRecord) -> Result<Vec<u8>, Error>,
    F: Fn(&Vec<u8>) -> Result<FieldStats, Error>,
    T: Fn(&Vec<u8>) -> Result<TextTermStats, Error>,
    B: Fn(&Vec<u8>) -> Result<PostingBlock, Error>,
>(
    calc: M,
    encode: E,
    decode_field: F,
    decode_term: T,
    decode_block: B,
    data: TextIndexData,
    records: Seq<(Vec<u8>, TextRecord)>,
    entries: SortedMap<Vec<u8>, Vec<u8>>,
    built: BuiltTextSst,
    reader: SstReader,
    column: Seq<char>,
    term: Seq<char>,
    b: int,
)
    requires
        data.wf(),
        data_fits(data),
        data.postings.map().dom().contains((column, term)),
        0 <= b < table::block_count(index_data::entries_in(data, column, term)),
        table::is_index_of(calc, encode, data, records, entries, built),
        is_open(reader, built),
        reads_back(encode, decode_field, decode_term, decode_block),
    ensures
        ({
            let found = search::block_at(reader, column, term, b, decode_block);
            found is Ok && index_data::postings_view(found->Ok_0.postings@) == table::chunk(
                index_data::entries_in(data, column, term),
                b,
            )
        }),
{
    let key = text::block_key(column, term, b as u32);
    let n = table::block_count(index_data::entries_in(data, column, term));
    lemma_lookup(calc, encode, data, records, entries, built, reader, key);
    let i = data.postings.keys().index_of((column, term));
    assert(table::has_key(
        records,
        text::term_key(data.postings.keys()[i].0, data.postings.keys()[i].1),
    ));
    assert(table::blocks_listed(data, records, i, n));
    assert(table::has_key(
        records,
        text::block_key(data.postings.keys()[i].0, data.postings.keys()[i].1, b as u32),
    ));
    lemma_has_entry(encode, records, entries, key);
    let r = lemma_entry(calc, encode, data, records, entries, built, key);
    if exists|c: Seq<char>| #[trigger] table::is_field_entry(data, c, key, r) {
        let c = choose|c: Seq<char>| #[trigger] table::is_field_entry(data, c, key, r);
        lemma_keys(c, c, 0, column, term, b as u32);
    } else if exists|c: Seq<char>, t: Seq<char>| #[trigger]
        table::is_term_entry(calc, data, c, t, key, r) {
        let (c, t) = choose|c: Seq<char>, t: Seq<char>| #[trigger]
            table::is_term_entry(calc, data, c, t, key, r);
        lemma_keys(c, t, 0, column, term, b as u32);
    } else {
        let (c, t, e) = choose|c: Seq<char>, t: Seq<char>, e: int| #[trigger]
            table::is_block_entry(calc, data, c, t, e, key, r);
        lemma_keys(column, term, b as u32, c, t, e as u32);
        assert(e <= u32::MAX && b <= u32::MAX);
        assert(e == b);
    }
}

/// Where the first `n` blocks end.
spec fn blocks_end(ps: Seq<index_data::PostingView>, n: int) -> int {
    if n * index_data::POSTING_BLOCK_TARGET < ps.len() {
        n * index_data::POSTING_BLOCK_TARGET
    } else {
        ps.len() as int
    }
}

/// The first `n` blocks of a term hold the first of its entries.
proof fn lemma_blocks_join<
    M: Fn(Step) -> u32,
    E: Fn(&TextRecord) -> Result<Vec<u8>, Error>,
    F: Fn(&Vec<u8>) -> Result<FieldStats, Error>,
    T: Fn(&Vec<u8>) -> Result<TextTermStats, Error>,
    B: Fn(&Vec<u8>) -> Result<PostingBlock, Error>,
>(
    calc: M,
    encode: E,
    decode_field: F,
    decode_term: T,
    decode_block: B,
    data: TextIndexData,
    records: Seq<(Vec<u8>, TextRecord)>,
    entries: SortedMap<Vec<u8>, Vec<u8>>,
    built: BuiltTextSst,
    reader: SstReader,
    column: Seq<char>,
    term: Seq<char>,
    n: int,
)
    requires
        data.wf(),
        data_fits(data),
        data.postings.map().dom().contains((column, term)),
        0 <= n <= table::block_count(index_data::entries_in(data, column, term)),
        table::is_index_of(calc, encode, data, records, entries, built),
        is_open(reader, built),
        reads_back(encode, decode_field, decode_term, decode_block),
    ensures
        search::entries_upto(reader, column, term, n, decode_block) == Ok::<
            Seq<index_data::PostingView>,
            search::Failure,
        >(
            index_data::entries_in(data, column, term).take(
                blocks_end(index_data::entries_in(data, column, term), n),
            ),
        ),
    decreases n,
{
    let ps = index_data::entries_in(data, column, term);
    if n == 0 {
        assert(ps.take(0) =~= Seq::empty());
    } else {
        lemma_blocks_join(
            calc,
            encode,
            decode_field,
            decode_term,
            decode_block,
            data,
            records,
            entries,
            built,
            reader,
            column,
            term,
            n - 1,
        );
        lemma_block_found(
            calc,
            encode,
            decode_field,
            decode_term,
            decode_block,
            data,
            records,
            entries,
            built,
            reader,
            column,
            term,
            n - 1,
        );
        assert(ps.take(blocks_end(ps, n - 1)) + table::chunk(ps, n - 1) =~= ps.take(
            blocks_end(ps, n),
        ));
    }
}

/// The entries of a term are found.
proof fn lemma_listing_found<
    M: Fn(Step) -> u32,
    E: Fn(&TextRecord) -> Result<Vec<u8>, Error>,
    F: Fn(&Vec<u8>) -> Result<FieldStats, Error>,
    T: Fn(&Vec<u8>) -> Result<TextTermStats, Error>,
    B: Fn(&Vec<u8>) -> Result<PostingBlock, Error>,
>(
    calc: M,
    encode: E,
    decode_field: F,
    decode_term: T,
    decode_block: B,
    data: TextIndexData,
    records: Seq<(Vec<u8>, TextRecord)>,
    entries: SortedMap<Vec<u8>, Vec<u8>>,
    built: BuiltTextSst,
    reader: SstReader,
    column: Seq<char>,
    term: Seq<char>,
)
    requires
        data.wf(),
        data_fits(data),
        is_short(column),
        is_short(term),
        table::is_index_of(calc, encode, data, records, entries, built),
        is_open(reader, built),
        reads_back(encode, decode_field, decode_term, decode_block),
    ensures
        ({
            let ps = index_data::entries_in(data, column, term);
            search::term_listing(reader, column, term, decode_term, decode_block) == Ok::<
                (u64, Seq<index_data::PostingView>),
                search::Failure,
            >((ps.len() as u64, ps))
        }),
{
    let ps = index_data::entries_in(data, column, term);
    lemma_term_found(
        calc,
        encode,
        decode_field,
        decode_term,
        decode_block,
        data,
        records,
        entries,
        built,
        reader,
        column,
        term,
    );
    if data.postings.map().dom().contains((column, term)) {
        lemma_blocks_join(
            calc,
            encode,
            decode_field,
            decode_term,
            decode_block,
            data,
            records,
            entries,
            built,
            reader,
            column,
            term,
            table::block_count(ps),
        );
        assert(ps.take(blocks_end(ps, table::block_count(ps))) =~= ps);
    }
}

/// Searching the index of documents adds up, for every document, what scoring the
/// documents adds up: no entry of a term is lost, doubled or moved on its way
/// through the table.
pub proof fn law_index_scores_like_documents<
    M: Fn(Step) -> u32,
    E: Fn(&TextRecord) -> Result<Vec<u8>, Error>,
    F: Fn(&Vec<u8>) -> Result<FieldStats, Error>,
    T: Fn(&Vec<u8>) -> Result<TextTermStats, Error>,
    B: Fn(&Vec<u8>) -> Result<PostingBlock, Error>,
>(
    calc: M,
    params: Bm25Params,
    encode: E,
    decode_field: F,
    decode_term: T,
    decode_block: B,
    ids: Seq<IdView>,
    docs: documents::Docs,
    data: TextIndexData,
    built: BuiltTextSst,
    reader: SstReader,
    column: Seq<char>,
    terms: Seq<TermFrequency>,
    n: int,
)
    requires
        table::is_data_of(data, ids, docs),
        data_fits(data),
        table::indexes(calc, encode, data, built),
        is_open(reader, built),
        reads_back(encode, decode_field, decode_term, decode_block),
        is_short(column),
        forall|i: int| 0 <= i < terms.len() ==> is_short((#[trigger] terms[i]).term@),
        0 <= n <= terms.len(),
    ensures
        ({
            let stats = index_data::field_totals(
                ids,
                docs,
                column,
                text::default_config(),
                ids.len() as int,
            );
            let found = search::record_at(reader, text::field_key(column), decode_field);
            &&& stats.doc_count > 0 ==> found == search::Lookup::Found(stats)
            &&& stats.doc_count == 0 ==> found is Missing
            &&& search::index_scores(
                calc,
                params,
                stats,
                reader,
                column,
                terms,
                decode_term,
                decode_block,
                n,
            ) == Ok::<Map<IdView, u32>, search::Failure>(
                scoring::document_scores(calc, params, ids, docs, column, terms, n),
            )
        }),
    decreases n,
{
    let (records, entries) = choose|
        records: Seq<(Vec<u8>, TextRecord)>,
        entries: SortedMap<Vec<u8>, Vec<u8>>,
    | #[trigger] table::is_index_of(calc, encode, data, records, entries, built);
    lemma_field_found(
        calc,
        encode,
        decode_field,
        decode_term,
        decode_block,
        data,
        records,
        entries,
        built,
        reader,
        column,
    );
    let config = text::default_config();
    assert(index_data::stats_in(data, column) == index_data::field_totals(
        ids,
        docs,
        column,
        config,
        ids.len() as int,
    ));
    if n > 0 {
        law_index_scores_like_documents(
            calc,
            params,
            encode,
            decode_field,
            decode_term,
            decode_block,
            ids,
            docs,
            data,
            built,
            reader,
            column,
            terms,
            n - 1,
        );
        let term = terms[n - 1].term@;
        lemma_listing_found(
            calc,
            encode,
            decode_field,
            decode_term,
            decode_block,
            data,
            records,
            entries,
            built,
            reader,
            column,
            term,
        );
        assert(index_data::entries_in(data, column, term) == index_data::term_entries(
            ids,
            docs,
            column,
            term,
            config,
            ids.len() as int,
        ));
        let ps = index_data::entries_in(data, column, term);
        if data.postings.map().dom().contains((column, term)) {
            let list = data.postings.map()[(column, term)];
            assert(ps.len() == list@.len());
            assert(list.len() == list@.len());
            assert(ps.len() <= u64::MAX);
        }
    }
}

} // verus!
