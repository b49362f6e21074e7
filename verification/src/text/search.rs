//! Searching a text index.

use vstd::prelude::*;

use crate::phrase::say;
use crate::arithmetic;
use crate::arithmetic::Step;
use crate::error::Error;
use crate::sorted::SortedMap;
use crate::sst::reader;
use crate::sst::reader::SstReader;
use crate::text;
use crate::text::index_data;
use crate::text::index_data::{FieldStats, TermPosting};
use crate::text::scoring;
use crate::text::scoring::{hits_from_scores, post_entries, Bm25Params, TermQuery, TextHit};
use crate::text::{
    analyze_text, field_stats_key, term_block_key, term_meta_key, TermFrequency, TokenizerConfig,
};
use crate::value::{Id, IdView};

verus! {

/// What is known of a term of a column: how many documents have it, and the best
/// score, over all and by block.
#[derive(Debug)]
pub struct TextTermStats {
    pub doc_freq: u64,
    pub block_count: u32,
    pub max_score: u32,
    pub block_max_scores: Vec<u32>,
}

/// A block of the entries of a term, and the best score among them.
#[derive(Debug)]
pub struct PostingBlock {
    pub max_score: u32,
    pub postings: Vec<TermPosting>,
}

// ---------------------------------------------------------------------------
// Reading
// ---------------------------------------------------------------------------

/// Why a record cannot be had.
pub ghost enum Failure {
    /// The table is damaged, or a record is missing that has to be there.
    Damaged,
    /// The stored form cannot be read.
    Unreadable(Error),
}

/// What a lookup finds.
pub ghost enum Lookup<V> {
    Failed(Failure),
    Missing,
    Found(V),
}

/// The error for a failure.
pub open spec fn is_error_of(f: Failure, e: Error) -> bool {
    match f {
        Failure::Damaged => e is Corrupt,
        Failure::Unreadable(x) => e == x,
    }
}

/// The function reads the same bytes in one way.
pub open spec fn is_decoder<V, D: Fn(&Vec<u8>) -> Result<V, Error>>(decode: D) -> bool {
    &&& forall|bytes: &Vec<u8>| #[trigger] call_requires(decode, (bytes,))
    &&& forall|a: &Vec<u8>, b: &Vec<u8>, x: Result<V, Error>, y: Result<V, Error>|
        a@ == b@ && #[trigger] call_ensures(decode, (a,), x) && #[trigger] call_ensures(
            decode,
            (b,),
            y,
        ) ==> x == y
}

/// `r` is what some bytes are read as.
pub open spec fn reads_as<V, D: Fn(&Vec<u8>) -> Result<V, Error>>(
    decode: D,
    bytes: Seq<u8>,
    r: Result<V, Error>,
) -> bool {
    exists|b: &Vec<u8>| b@ == bytes && #[trigger] call_ensures(decode, (b,), r)
}

/// What some bytes are read as.
pub open spec fn decoded<V, D: Fn(&Vec<u8>) -> Result<V, Error>>(
    decode: D,
    bytes: Seq<u8>,
) -> Result<V, Error> {
    choose|r: Result<V, Error>| reads_as(decode, bytes, r)
}

/// The record under a key of the table.
pub open spec fn record_at<V, D: Fn(&Vec<u8>) -> Result<V, Error>>(
    reader: SstReader,
    key: Seq<u8>,
    decode: D,
) -> Lookup<V> {
    match reader::table_get(reader.data(), reader.index(), key) {
        None => Lookup::Failed(Failure::Damaged),
        Some(None) => Lookup::Missing,
        Some(Some(bytes)) => match decoded(decode, bytes) {
            Ok(v) => Lookup::Found(v),
            Err(e) => Lookup::Failed(Failure::Unreadable(e)),
        },
    }
}

/// A result is what a lookup finds.
pub open spec fn is_found<V>(found: Lookup<V>, r: Result<Option<V>, Error>) -> bool {
    match found {
        Lookup::Failed(f) => r is Err && is_error_of(f, r->Err_0),
        Lookup::Missing => r is Ok && r->Ok_0 is None,
        Lookup::Found(v) => r is Ok && r->Ok_0 == Some(v),
    }
}

pub(crate) fn read_record<V, D: Copy + Fn(&Vec<u8>) -> Result<V, Error>>(
    reader: &SstReader,
    key: &Vec<u8>,
    decode: D,
) -> (r: Result<Option<V>, Error>)
    requires
        is_decoder(decode),
    ensures
        is_found(record_at(*reader, key@, decode), r),
{
    let found = match reader.get(key.as_slice()) {
        Ok(found) => found,
        Err(e) => return Err(e),
    };
    match found {
        None => Ok(None),
        Some(bytes) => {
            let r = decode(&bytes);
            proof {
                assert(call_ensures(decode, (&bytes,), r));
                assert(reads_as(decode, bytes@, r));
                let x = decoded(decode, bytes@);
                assert(reads_as(decode, bytes@, x));
            }
            match r {
                Ok(v) => Ok(Some(v)),
                Err(e) => Err(e),
            }
        },
    }
}

/// What is known of a term of a column.
pub fn term_stats<T: Copy + Fn(&Vec<u8>) -> Result<TextTermStats, Error>>(
    reader: &SstReader,
    column: &str,
    term: &str,
    decode: T,
) -> (r: Result<Option<TextTermStats>, Error>)
    requires
        is_decoder(decode),
    ensures
        is_found(record_at(*reader, text::term_key(column@, term@), decode), r),
{
    let key = term_meta_key(column, term);
    read_record(reader, &key, decode)
}

/// A block of the entries of a term; it has to be there.
pub open spec fn block_at<B: Fn(&Vec<u8>) -> Result<PostingBlock, Error>>(
    reader: SstReader,
    column: Seq<char>,
    term: Seq<char>,
    block: int,
    decode: B,
) -> Result<PostingBlock, Failure> {
    match record_at(reader, text::block_key(column, term, block as u32), decode) {
        Lookup::Failed(f) => Err(f),
        Lookup::Missing => Err(Failure::Damaged),
        Lookup::Found(b) => Ok(b),
    }
}

/// Reads a block of the entries of a term.
pub fn read_posting_block<B: Copy + Fn(&Vec<u8>) -> Result<PostingBlock, Error>>(
    reader: &SstReader,
    column: &str,
    term: &str,
    block_id: u32,
    decode: B,
) -> (r: Result<PostingBlock, Error>)
    requires
        is_decoder(decode),
    ensures
        match block_at(*reader, column@, term@, block_id as int, decode) {
            Ok(b) => r is Ok && r->Ok_0 == b,
            Err(f) => r is Err && is_error_of(f, r->Err_0),
        },
{
    let key = term_block_key(column, term, block_id);
    match read_record(reader, &key, decode) {
        Ok(Some(block)) => Ok(block),
        Ok(None) => Err(
            Error::Corrupt(
                say("missing text posting block ").number(block_id as u64).and(" for ").and(
                    column,
                ).and(":").and(term).done(),
            ),
        ),
        Err(e) => Err(e),
    }
}

/// The entries in the first `n` blocks of a term.
pub open spec fn entries_upto<B: Fn(&Vec<u8>) -> Result<PostingBlock, Error>>(
    reader: SstReader,
    column: Seq<char>,
    term: Seq<char>,
    n: int,
    decode: B,
) -> Result<Seq<index_data::PostingView>, Failure>
    decreases n,
{
    if n <= 0 {
        Ok(Seq::empty())
    } else {
        match entries_upto(reader, column, term, n - 1, decode) {
            Err(f) => Err(f),
            Ok(front) => match block_at(reader, column, term, n - 1, decode) {
                Err(f) => Err(f),
                Ok(b) => Ok(front + index_data::postings_view(b.postings@)),
            },
        }
    }
}

/// How many documents have a term, and its entries.
pub open spec fn term_listing<
    T: Fn(&Vec<u8>) -> Result<TextTermStats, Error>,
    B: Fn(&Vec<u8>) -> Result<PostingBlock, Error>,
>(
    reader: SstReader,
    column: Seq<char>,
    term: Seq<char>,
    decode_term: T,
    decode_block: B,
) -> Result<(u64, Seq<index_data::PostingView>), Failure> {
    match record_at(reader, text::term_key(column, term), decode_term) {
        Lookup::Failed(f) => Err(f),
        Lookup::Missing => Ok((0, Seq::empty())),
        Lookup::Found(stats) => match entries_upto(
            reader,
            column,
            term,
            stats.block_count as int,
            decode_block,
        ) {
            Err(f) => Err(f),
            Ok(ps) => Ok((stats.doc_freq, ps)),
        },
    }
}

fn append(list: &mut Vec<TermPosting>, more: Vec<TermPosting>)
    ensures
        index_data::postings_view(final(list)@) == index_data::postings_view(old(list)@)
            + index_data::postings_view(more@),
{
    let ghost before = list@;
    let mut more = more;
    let ghost given = more@;
    list.append(&mut more);
    assert(index_data::postings_view(list@) =~= index_data::postings_view(before)
        + index_data::postings_view(given));
}

fn read_listing<
    T: Copy + Fn(&Vec<u8>) -> Result<TextTermStats, Error>,
    B: Copy + Fn(&Vec<u8>) -> Result<PostingBlock, Error>,
>(reader: &SstReader, column: &str, term: &str, decode_term: T, decode_block: B) -> (r: Result<
    (u64, Vec<TermPosting>),
    Error,
>)
    requires
        is_decoder(decode_term),
        is_decoder(decode_block),
    ensures
        match term_listing(*reader, column@, term@, decode_term, decode_block) {
            Ok((doc_freq, ps)) => r is Ok && r->Ok_0.0 == doc_freq && index_data::postings_view(
                r->Ok_0.1@,
            ) == ps,
            Err(f) => r is Err && is_error_of(f, r->Err_0),
        },
{
    let stats = match term_stats(reader, column, term, decode_term) {
        Ok(Some(stats)) => stats,
        Ok(None) => {
            let none: Vec<TermPosting> = Vec::new();
            assert(index_data::postings_view(none@) =~= Seq::empty());
            return Ok((0, none));
        },
        Err(e) => return Err(e),
    };
    let mut postings: Vec<TermPosting> = Vec::new();
    let mut b: u32 = 0;
    assert(index_data::postings_view(postings@) =~= Seq::empty());
    while b < stats.block_count
        invariant
            b <= stats.block_count,
            is_decoder(decode_block),
            record_at(*reader, text::term_key(column@, term@), decode_term)
                == Lookup::Found(stats),
            entries_upto(*reader, column@, term@, b as int, decode_block) == Ok::<
                Seq<index_data::PostingView>,
                Failure,
            >(index_data::postings_view(postings@)),
        decreases stats.block_count - b,
    {
        let block = match read_posting_block(reader, column, term, b, decode_block) {
            Ok(block) => block,
            Err(e) => {
                proof {
                    let f = block_at(*reader, column@, term@, b as int, decode_block)->Err_0;
                    lemma_entries_fail(
                        *reader,
                        column@,
                        term@,
                        b + 1,
                        stats.block_count as int,
                        decode_block,
                    );
                }
                return Err(e);
            },
        };
        append(&mut postings, block.postings);
        b = b + 1;
    }
    Ok((stats.doc_freq, postings))
}

proof fn lemma_entries_fail<B: Fn(&Vec<u8>) -> Result<PostingBlock, Error>>(
    reader: SstReader,
    column: Seq<char>,
    term: Seq<char>,
    n: int,
    m: int,
    decode: B,
)
    requires
        0 <= n <= m,
        entries_upto(reader, column, term, n, decode) is Err,
    ensures
        entries_upto(reader, column, term, m, decode) == entries_upto(
            reader,
            column,
            term,
            n,
            decode,
        ),
    decreases m - n,
{
    if n < m {
        lemma_entries_fail(reader, column, term, n, m - 1, decode);
    }
}

// ---------------------------------------------------------------------------
// Searching all of it
// ---------------------------------------------------------------------------

/// The scores once the first `n` terms of a query are added.
pub open spec fn index_scores<
    M: Fn(Step) -> u32,
    T: Fn(&Vec<u8>) -> Result<TextTermStats, Error>,
    B: Fn(&Vec<u8>) -> Result<PostingBlock, Error>,
>(
    calc: M,
    params: Bm25Params,
    stats: FieldStats,
    reader: SstReader,
    column: Seq<char>,
    terms: Seq<TermFrequency>,
    decode_term: T,
    decode_block: B,
    n: int,
) -> Result<Map<IdView, u32>, Failure>
    decreases n,
{
    if n <= 0 {
        Ok(Map::empty())
    } else {
        match index_scores(
            calc,
            params,
            stats,
            reader,
            column,
            terms,
            decode_term,
            decode_block,
            n - 1,
        ) {
            Err(f) => Err(f),
            Ok(before) => match term_listing(
                reader,
                column,
                terms[n - 1].term@,
                decode_term,
                decode_block,
            ) {
                Err(f) => Err(f),
                Ok((doc_freq, ps)) => if doc_freq == 0 {
                    Ok(before)
                } else {
                    Ok(
                        scoring::posted(
                            calc,
                            before,
                            TermQuery { params, stats, doc_freq, frequency: terms[n - 1].frequency },
                            ps,
                            ps.len() as int,
                        ),
                    )
                },
            },
        }
    }
}

proof fn lemma_scores_fail<
    M: Fn(Step) -> u32,
    T: Fn(&Vec<u8>) -> Result<TextTermStats, Error>,
    B: Fn(&Vec<u8>) -> Result<PostingBlock, Error>,
>(
    calc: M,
    params: Bm25Params,
    stats: FieldStats,
    reader: SstReader,
    column: Seq<char>,
    terms: Seq<TermFrequency>,
    decode_term: T,
    decode_block: B,
    n: int,
    m: int,
)
    requires
        0 <= n <= m,
        index_scores(
            calc,
            params,
            stats,
            reader,
            column,
            terms,
            decode_term,
            decode_block,
            n,
        ) is Err,
    ensures
        index_scores(calc, params, stats, reader, column, terms, decode_term, decode_block, m)
            == index_scores(
            calc,
            params,
            stats,
            reader,
            column,
            terms,
            decode_term,
            decode_block,
            n,
        ),
    decreases m - n,
{
    if n < m {
        lemma_scores_fail(
            calc,
            params,
            stats,
            reader,
            column,
            terms,
            decode_term,
            decode_block,
            n,
            m - 1,
        );
    }
}

/// What the terms of a query find in an index.
pub open spec fn finds_indexed<
    M: Fn(Step) -> u32,
    F: Fn(&Vec<u8>) -> Result<FieldStats, Error>,
    T: Fn(&Vec<u8>) -> Result<TextTermStats, Error>,
    B: Fn(&Vec<u8>) -> Result<PostingBlock, Error>,
>(
    calc: M,
    params: Bm25Params,
    reader: SstReader,
    column: Seq<char>,
    terms: Seq<TermFrequency>,
    decode_field: F,
    decode_term: T,
    decode_block: B,
    r: Result<Vec<TextHit>, Error>,
) -> bool {
    if terms.len() == 0 {
        r is Ok && r->Ok_0@.len() == 0
    } else {
        match record_at(reader, text::field_key(column), decode_field) {
            Lookup::Failed(f) => r is Err && is_error_of(f, r->Err_0),
            Lookup::Missing => r is Ok && r->Ok_0@.len() == 0,
            Lookup::Found(stats) => if stats.doc_count == 0 || stats.total_doc_len == 0 {
                r is Ok && r->Ok_0@.len() == 0
            } else {
                match index_scores(
                    calc,
                    params,
                    stats,
                    reader,
                    column,
                    terms,
                    decode_term,
                    decode_block,
                    terms.len() as int,
                ) {
                    Err(f) => r is Err && is_error_of(f, r->Err_0),
                    Ok(scores) => r is Ok && scoring::ranks_scores(r->Ok_0@, scores),
                }
            },
        }
    }
}

/// What a text finds in an index.
pub open spec fn answers_in_index<
    M: Fn(Step) -> u32,
    F: Fn(&Vec<u8>) -> Result<FieldStats, Error>,
    T: Fn(&Vec<u8>) -> Result<TextTermStats, Error>,
    B: Fn(&Vec<u8>) -> Result<PostingBlock, Error>,
>(
    calc: M,
    params: Bm25Params,
    reader: SstReader,
    column: Seq<char>,
    query: Seq<char>,
    decode_field: F,
    decode_term: T,
    decode_block: B,
    r: Result<Vec<TextHit>, Error>,
) -> bool {
    exists|terms: Seq<TermFrequency>| #[trigger]
        text::counts_terms(text::tokens_of(query, text::default_config()), terms) && finds_indexed(
            calc,
            params,
            reader,
            column,
            terms,
            decode_field,
            decode_term,
            decode_block,
            r,
        )
}

/// Scores every document of an index that has a term of the query.
pub fn search_sst<
    M: Copy + Fn(Step) -> u32,
    F: Copy + Fn(&Vec<u8>) -> Result<FieldStats, Error>,
    T: Copy + Fn(&Vec<u8>) -> Result<TextTermStats, Error>,
    B: Copy + Fn(&Vec<u8>) -> Result<PostingBlock, Error>,
>(
    reader: &SstReader,
    column: &str,
    query: &str,
    params: Bm25Params,
    calc: M,
    decode_field: F,
    decode_term: T,
    decode_block: B,
) -> (r: Result<Vec<TextHit>, Error>)
    requires
        arithmetic::is_arithmetic(calc),
        is_decoder(decode_field),
        is_decoder(decode_term),
        is_decoder(decode_block),
    ensures
        !scoring::params_ok(params) ==> r is Err && r->Err_0 is InvalidQuery
            && r->Err_0->InvalidQuery_0@ == scoring::params_complaint(params),
        scoring::params_ok(params) ==> answers_in_index(
            calc,
            params,
            *reader,
            column@,
            query@,
            decode_field,
            decode_term,
            decode_block,
            r,
        ),
{
    let params = match params.validate() {
        Ok(p) => p,
        Err(e) => return Err(e),
    };
    let analyzed = analyze_text(query, TokenizerConfig::default());
    let terms = analyzed.terms;
    assert(text::counts_terms(text::tokens_of(query@, text::default_config()), terms@));
    let r = search_terms(
        reader,
        column,
        &terms,
        params,
        calc,
        decode_field,
        decode_term,
        decode_block,
    );
    r
}

fn add_terms<
    M: Copy + Fn(Step) -> u32,
    T: Copy + Fn(&Vec<u8>) -> Result<TextTermStats, Error>,
    B: Copy + Fn(&Vec<u8>) -> Result<PostingBlock, Error>,
>(
    reader: &SstReader,
    column: &str,
    terms: &Vec<TermFrequency>,
    params: Bm25Params,
    stats: FieldStats,
    calc: M,
    decode_term: T,
    decode_block: B,
) -> (r: Result<SortedMap<Id, u32>, Error>)
    requires
        arithmetic::is_arithmetic(calc),
        is_decoder(decode_term),
        is_decoder(decode_block),
    ensures
        match index_scores(
            calc,
            params,
            stats,
            *reader,
            column@,
            terms@,
            decode_term,
            decode_block,
            terms@.len() as int,
        ) {
            Err(f) => r is Err && is_error_of(f, r->Err_0),
            Ok(scores) => r is Ok && r->Ok_0.wf() && r->Ok_0.map() == scores,
        },
{
    let mut scores: SortedMap<Id, u32> = SortedMap::new();
    let mut i: usize = 0;
    while i < terms.len()
        invariant
            i <= terms@.len(),
            arithmetic::is_arithmetic(calc),
            is_decoder(decode_term),
            is_decoder(decode_block),
            scores.wf(),
            index_scores(
                calc,
                params,
                stats,
                *reader,
                column@,
                terms@,
                decode_term,
                decode_block,
                i as int,
            ) == Ok::<Map<IdView, u32>, Failure>(scores.map()),
        decreases terms@.len() - i,
    {
        let term = &terms[i];
        let (doc_freq, postings) = match read_listing(
            reader,
            column,
            term.term.as_str(),
            decode_term,
            decode_block,
        ) {
            Ok(listing) => listing,
            Err(e) => {
                proof {
                    lemma_scores_fail(
                        calc,
                        params,
                        stats,
                        *reader,
                        column@,
                        terms@,
                        decode_term,
                        decode_block,
                        i + 1,
                        terms@.len() as int,
                    );
                }
                return Err(e);
            },
        };
        if doc_freq != 0 {
            let query = TermQuery { params, stats, doc_freq, frequency: term.frequency };
            post_entries(&mut scores, query, &postings, calc);
        }
        i = i + 1;
    }
    Ok(scores)
}

pub(crate) fn search_terms<
    M: Copy + Fn(Step) -> u32,
    F: Copy + Fn(&Vec<u8>) -> Result<FieldStats, Error>,
    T: Copy + Fn(&Vec<u8>) -> Result<TextTermStats, Error>,
    B: Copy + Fn(&Vec<u8>) -> Result<PostingBlock, Error>,
>(
    reader: &SstReader,
    column: &str,
    terms: &Vec<TermFrequency>,
    params: Bm25Params,
    calc: M,
    decode_field: F,
    decode_term: T,
    decode_block: B,
) -> (r: Result<Vec<TextHit>, Error>)
    requires
        arithmetic::is_arithmetic(calc),
        is_decoder(decode_field),
        is_decoder(decode_term),
        is_decoder(decode_block),
    ensures
        finds_indexed(
            calc,
            params,
            *reader,
            column@,
            terms@,
            decode_field,
            decode_term,
            decode_block,
            r,
        ),
{
    if terms.len() == 0 {
        return Ok(Vec::new());
    }
    let key = field_stats_key(column);
    let stats: FieldStats = match read_record(reader, &key, decode_field) {
        Ok(Some(stats)) => stats,
        Ok(None) => return Ok(Vec::new()),
        Err(e) => return Err(e),
    };
    if stats.doc_count == 0 || stats.total_doc_len == 0 {
        return Ok(Vec::new());
    }
    match add_terms(reader, column, terms, params, stats, calc, decode_term, decode_block) {
        Ok(scores) => Ok(hits_from_scores(scores)),
        Err(e) => Err(e),
    }
}

} // verus!
