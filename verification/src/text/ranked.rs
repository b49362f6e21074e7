//! Searching a text index for the best documents only.
//!
//! Blocks of entries that cannot bring a document among the best are left unread.

use vstd::prelude::*;

use crate::rounding;
use crate::phrase::say;
use crate::arithmetic;
use crate::arithmetic::{compute, Step, NEGATIVE_ZERO};
use crate::error::Error;
use crate::order::Order;
use crate::sorted::SortedMap;
use crate::sorting;
use crate::sorting::{sort, Comparison, Ranking};
use crate::sst::reader::SstReader;
use crate::strings;
use crate::strings::compare_text;
use crate::text;
use crate::text::index_data;
use crate::text::index_data::{FieldStats, TermPosting, SCORE_BATCH_TARGET};
use crate::text::scoring;
use crate::text::scoring::{
    contribute, hits_from_scores, is_at_most_zero, query_term_frequency_weight, Bm25Params,
    TermQuery, TextHit,
};
use crate::text::search;
use crate::text::search::{
    read_posting_block, read_record, search_terms, term_stats, PostingBlock, TextTermStats,
};
use crate::text::top_k;
use crate::text::top_k::{total_place_of, TopKTracker};
use crate::text::{analyze_text, field_stats_key, TermFrequency, TokenizerConfig};
use crate::textmap;
use crate::value::{copy_id, Id, IdView};
use crate::vector;
use crate::vector::numbers;
use crate::vector::score_beats;

verus! {

/// How much of an index a search has looked at.
#[derive(Clone, Copy, Debug, PartialEq, Eq, Structural)]
pub struct TextSearchStats {
    pub blocks_read: u64,
    pub blocks_skipped: u64,
    pub score_batches: u64,
    pub postings_scored: u64,
}

impl Default for TextSearchStats {
    fn default() -> (s: TextSearchStats)
        ensures
            s == no_work(),
    {
        TextSearchStats { blocks_read: 0, blocks_skipped: 0, score_batches: 0, postings_scored: 0 }
    }
}

pub open spec fn no_work() -> TextSearchStats {
    TextSearchStats { blocks_read: 0, blocks_skipped: 0, score_batches: 0, postings_scored: 0 }
}

/// The best documents, and how much of the index was looked at for them.
#[derive(Debug)]
pub struct TextSearchOutcome {
    pub hits: Vec<TextHit>,
    pub stats: TextSearchStats,
}

/// A term of a query that the index has: the bounds on what it contributes, over
/// all documents and by block.
#[derive(Debug)]
pub struct QueryTerm {
    pub term: String,
    pub frequency: u32,
    pub doc_freq: u64,
    pub global_max_score: u32,
    pub block_max_scores: Vec<u32>,
}

/// What such a term stands for.
pub struct QueryTermView {
    pub term: Seq<char>,
    pub frequency: u32,
    pub doc_freq: u64,
    pub global_max_score: u32,
    pub block_max_scores: Seq<u32>,
}

pub open spec fn query_term_view(q: QueryTerm) -> QueryTermView {
    QueryTermView {
        term: q.term@,
        frequency: q.frequency,
        doc_freq: q.doc_freq,
        global_max_score: q.global_max_score,
        block_max_scores: q.block_max_scores@,
    }
}

pub open spec fn query_terms_view(qs: Seq<QueryTerm>) -> Seq<QueryTermView> {
    Seq::new(qs.len(), |i: int| query_term_view(qs[i]))
}

/// What a score counts for where the query has the term so many times.
pub open spec fn weighed<M: Fn(Step) -> u32>(
    calc: M,
    params: Bm25Params,
    frequency: u32,
    score: u32,
) -> u32 {
    arithmetic::answer(
        calc,
        Step::Mul(score, scoring::query_weight(calc, params.k3, frequency)),
    )
}

/// What is left of a total without one of its parts; zero at least.
pub open spec fn rest_of<M: Fn(Step) -> u32>(calc: M, total: u32, part: u32) -> u32 {
    let rest = arithmetic::answer(calc, Step::Sub(total, part));
    if vector::beats(rest, 0) {
        rest
    } else {
        0
    }
}

fn rest<M: Copy + Fn(Step) -> u32>(total: u32, part: u32, calc: M) -> (r: u32)
    requires
        arithmetic::is_arithmetic(calc),
    ensures
        r == rest_of(calc, total, part),
{
    let rest: u32 = compute(calc, Step::Sub(total, part));
    if score_beats(rest, 0) {
        rest
    } else {
        0
    }
}

/// A term of the query with its bounds.
pub open spec fn bounded_term<M: Fn(Step) -> u32>(
    calc: M,
    params: Bm25Params,
    t: TermFrequency,
    stats: TextTermStats,
) -> QueryTermView {
    QueryTermView {
        term: t.term@,
        frequency: t.frequency,
        doc_freq: stats.doc_freq,
        global_max_score: weighed(calc, params, t.frequency, stats.max_score),
        block_max_scores: Seq::new(
            stats.block_max_scores@.len(),
            |i: int| weighed(calc, params, t.frequency, stats.block_max_scores@[i]),
        ),
    }
}

/// Those of the first `n` terms that the index has, with their bounds.
pub open spec fn known_terms<
    M: Fn(Step) -> u32,
    T: Fn(&Vec<u8>) -> Result<TextTermStats, Error>,
>(
    calc: M,
    params: Bm25Params,
    reader: SstReader,
    column: Seq<char>,
    terms: Seq<TermFrequency>,
    decode_term: T,
    n: int,
) -> Result<Seq<QueryTermView>, search::Failure>
    decreases n,
{
    if n <= 0 {
        Ok(Seq::empty())
    } else {
        match known_terms(calc, params, reader, column, terms, decode_term, n - 1) {
            Err(f) => Err(f),
            Ok(front) => match search::record_at(
                reader,
                text::term_key(column, terms[n - 1].term@),
                decode_term,
            ) {
                search::Lookup::Failed(f) => Err(f),
                search::Lookup::Missing => Ok(front),
                search::Lookup::Found(stats) => if stats.block_count
                    != stats.block_max_scores@.len() {
                    Err(search::Failure::Damaged)
                } else {
                    Ok(front.push(bounded_term(calc, params, terms[n - 1], stats)))
                },
            },
        }
    }
}

proof fn lemma_known_fail<
    M: Fn(Step) -> u32,
    T: Fn(&Vec<u8>) -> Result<TextTermStats, Error>,
>(
    calc: M,
    params: Bm25Params,
    reader: SstReader,
    column: Seq<char>,
    terms: Seq<TermFrequency>,
    decode_term: T,
    n: int,
    m: int,
)
    requires
        0 <= n <= m,
        known_terms(calc, params, reader, column, terms, decode_term, n) is Err,
    ensures
        known_terms(calc, params, reader, column, terms, decode_term, m) == known_terms(
            calc,
            params,
            reader,
            column,
            terms,
            decode_term,
            n,
        ),
    decreases m - n,
{
    if n < m {
        lemma_known_fail(calc, params, reader, column, terms, decode_term, n, m - 1);
    }
}

fn read_terms<
    M: Copy + Fn(Step) -> u32,
    T: Copy + Fn(&Vec<u8>) -> Result<TextTermStats, Error>,
>(
    reader: &SstReader,
    column: &str,
    terms: &Vec<TermFrequency>,
    params: Bm25Params,
    calc: M,
    decode_term: T,
) -> (r: Result<Vec<QueryTerm>, Error>)
    requires
        arithmetic::is_arithmetic(calc),
        search::is_decoder(decode_term),
    ensures
        match known_terms(
            calc,
            params,
            *reader,
            column@,
            terms@,
            decode_term,
            terms@.len() as int,
        ) {
            Ok(qs) => r is Ok && query_terms_view(r->Ok_0@) == qs,
            Err(f) => r is Err && search::is_error_of(f, r->Err_0),
        },
{
    let mut qs: Vec<QueryTerm> = Vec::new();
    let mut i: usize = 0;
    assert(query_terms_view(qs@) =~= Seq::empty());
    while i < terms.len()
        invariant
            i <= terms@.len(),
            arithmetic::is_arithmetic(calc),
            search::is_decoder(decode_term),
            known_terms(calc, params, *reader, column@, terms@, decode_term, i as int) == Ok::<
                Seq<QueryTermView>,
                search::Failure,
            >(query_terms_view(qs@)),
        decreases terms@.len() - i,
    {
        let t = &terms[i];
        proof {
            if known_terms(calc, params, *reader, column@, terms@, decode_term, i + 1) is Err {
                lemma_known_fail(
                    calc,
                    params,
                    *reader,
                    column@,
                    terms@,
                    decode_term,
                    i + 1,
                    terms@.len() as int,
                );
            }
        }
        match term_stats(reader, column, t.term.as_str(), decode_term) {
            Err(e) => return Err(e),
            Ok(None) => {},
            Ok(Some(stats)) => {
                if stats.block_count as usize != stats.block_max_scores.len() {
                    return Err(Error::Corrupt(
                            say("text term metadata for ").and(column).and(":").and(
                                t.term.as_str(),
                            ).and(" has ").number(stats.block_count as u64).and(
                                " blocks but ",
                            ).number(stats.block_max_scores.len() as u64).and(
                                " max scores",
                            ).done(),
                        ));
                }
                let weight: u32 = query_term_frequency_weight(t.frequency, params.k3, calc);
                let bound: u32 = compute(calc, Step::Mul(stats.max_score, weight));
                let mut bounds: Vec<u32> = Vec::new();
                let mut b: usize = 0;
                while b < stats.block_max_scores.len()
                    invariant
                        b <= stats.block_max_scores@.len(),
                        arithmetic::is_arithmetic(calc),
                        weight == scoring::query_weight(calc, params.k3, t.frequency),
                        bounds@.len() == b,
                        forall|k: int|
                            0 <= k < b ==> #[trigger] bounds@[k] == weighed(
                                calc,
                                params,
                                t.frequency,
                                stats.block_max_scores@[k],
                            ),
                    decreases stats.block_max_scores@.len() - b,
                {
                    let x: u32 = compute(calc, Step::Mul(stats.block_max_scores[b], weight));
                    bounds.push(x);
                    b = b + 1;
                }
                let ghost before = qs@;
                let q = QueryTerm {
                    term: t.term.clone(),
                    frequency: t.frequency,
                    doc_freq: stats.doc_freq,
                    global_max_score: bound,
                    block_max_scores: bounds,
                };
                assert(query_term_view(q).block_max_scores =~= bounded_term(
                    calc,
                    params,
                    *t,
                    stats,
                ).block_max_scores);
                qs.push(q);
                assert(query_terms_view(qs@) =~= query_terms_view(before).push(
                    query_term_view(q),
                ));
            },
        }
        i = i + 1;
    }
    Ok(qs)
}

// ---------------------------------------------------------------------------
// The order of the terms
// ---------------------------------------------------------------------------

/// The order of terms: the higher bound first, and of equal bounds the lower term.
pub struct BestTerm;

/// `a` may stand before `b`.
pub open spec fn term_precedes(a: QueryTerm, b: QueryTerm) -> bool {
    top_k::total_place(a.global_max_score) > top_k::total_place(b.global_max_score) || (
    top_k::total_place(a.global_max_score) == top_k::total_place(b.global_max_score)
        && strings::text_order(a.term@, b.term@) != Order::Greater)
}

impl Comparison<QueryTerm> for BestTerm {
    open spec fn ranks(&self, a: QueryTerm) -> bool {
        true
    }

    open spec fn precedes(&self, a: QueryTerm, b: QueryTerm) -> bool {
        term_precedes(a, b)
    }

    proof fn lemma_total(&self, a: QueryTerm, b: QueryTerm) {
        textmap::lemma_text_total(a.term@, b.term@);
        textmap::lemma_text_total(b.term@, a.term@);
    }

    fn in_order(&self, a: &QueryTerm, b: &QueryTerm) -> (r: bool) {
        let x: i64 = total_place_of(a.global_max_score);
        let y: i64 = total_place_of(b.global_max_score);
        x > y || (x == y && !matches!(
            compare_text(a.term.as_str(), b.term.as_str()),
            Order::Greater
        ))
    }
}

impl Ranking<QueryTerm> for BestTerm {
    proof fn lemma_transitive(&self, a: QueryTerm, b: QueryTerm, c: QueryTerm) {
        textmap::lemma_text_total(a.term@, b.term@);
        textmap::lemma_text_total(b.term@, c.term@);
        textmap::lemma_text_total(a.term@, c.term@);
        if strings::text_lt(a.term@, b.term@) && strings::text_lt(b.term@, c.term@) {
            textmap::lemma_text_transitive(a.term@, b.term@, c.term@);
        }
    }
}

/// The sum of the bounds of the first `n` terms.
pub open spec fn total_bound<M: Fn(Step) -> u32>(
    calc: M,
    qs: Seq<QueryTermView>,
    n: int,
) -> u32
    decreases n,
{
    if n <= 0 {
        arithmetic::NEGATIVE_ZERO
    } else {
        arithmetic::answer(
            calc,
            Step::Add(total_bound(calc, qs, n - 1), qs[n - 1].global_max_score),
        )
    }
}

// ---------------------------------------------------------------------------
// The search
// ---------------------------------------------------------------------------

/// How far a search has come.
pub ghost struct Progress {
    pub scores: Map<IdView, u32>,
    pub kept: Map<IdView, u32>,
    pub blocks_read: nat,
    pub blocks_skipped: nat,
    pub score_batches: nat,
    pub postings_scored: nat,
}

/// Nothing is done yet.
pub open spec fn started() -> Progress {
    Progress {
        scores: Map::empty(),
        kept: Map::empty(),
        blocks_read: 0,
        blocks_skipped: 0,
        score_batches: 0,
        postings_scored: 0,
    }
}

/// How a term of the query is scored.
pub open spec fn term_query(
    params: Bm25Params,
    stats: FieldStats,
    q: QueryTermView,
) -> TermQuery {
    TermQuery { params, stats, doc_freq: q.doc_freq, frequency: q.frequency }
}

/// The progress once the first `n` entries of a block are scored.
pub open spec fn scored_entries<M: Fn(Step) -> u32>(
    calc: M,
    k: nat,
    p: Progress,
    query: TermQuery,
    ps: Seq<index_data::PostingView>,
    n: int,
) -> Progress
    decreases n,
{
    if n <= 0 {
        p
    } else {
        let before = scored_entries(calc, k, p, query, ps, n - 1);
        let entry = ps[n - 1];
        let s = scoring::contribution(calc, query, entry);
        if scoring::at_most_zero(s) {
            before
        } else {
            let total = arithmetic::answer(
                calc,
                Step::Add(scoring::score_so_far(before.scores, entry.id), s),
            );
            Progress {
                scores: before.scores.insert(entry.id, total),
                kept: top_k::after_observing(before.kept, k, entry.id, total),
                postings_scored: before.postings_scored + 1,
                ..before
            }
        }
    }
}

/// A block cannot bring a document among the best.
pub open spec fn is_hopeless<M: Fn(Step) -> u32>(
    calc: M,
    k: nat,
    p: Progress,
    bound: u32,
    others: u32,
) -> bool {
    match top_k::threshold_of(p.kept, k) {
        None => false,
        Some(t) => vector::beats(t, arithmetic::answer(calc, Step::Add(bound, others))),
    }
}

/// The progress after the first `n` blocks of a term.
pub open spec fn scored_blocks<
    M: Fn(Step) -> u32,
    B: Fn(&Vec<u8>) -> Result<PostingBlock, Error>,
>(
    calc: M,
    k: nat,
    reader: SstReader,
    column: Seq<char>,
    decode_block: B,
    p: Progress,
    params: Bm25Params,
    stats: FieldStats,
    q: QueryTermView,
    others: u32,
    n: int,
) -> Result<Progress, search::Failure>
    decreases n,
{
    if n <= 0 {
        Ok(p)
    } else {
        match scored_blocks(
            calc,
            k,
            reader,
            column,
            decode_block,
            p,
            params,
            stats,
            q,
            others,
            n - 1,
        ) {
            Err(f) => Err(f),
            Ok(before) => if is_hopeless(calc, k, before, q.block_max_scores[n - 1], others) {
                Ok(Progress { blocks_skipped: before.blocks_skipped + 1, ..before })
            } else {
                match search::block_at(reader, column, q.term, n - 1, decode_block) {
                    Err(f) => Err(f),
                    Ok(block) => {
                        let ps = index_data::postings_view(block.postings@);
                        Ok(
                            scored_entries(
                                calc,
                                k,
                                Progress {
                                    blocks_read: before.blocks_read + 1,
                                    score_batches: (before.score_batches + index_data::pieces(
                                        ps.len() as int,
                                        SCORE_BATCH_TARGET as int,
                                    )) as nat,
                                    ..before
                                },
                                term_query(params, stats, q),
                                ps,
                                ps.len() as int,
                            ),
                        )
                    },
                }
            },
        }
    }
}

/// The progress after the first `n` terms.
pub open spec fn scored_terms<
    M: Fn(Step) -> u32,
    B: Fn(&Vec<u8>) -> Result<PostingBlock, Error>,
>(
    calc: M,
    k: nat,
    reader: SstReader,
    column: Seq<char>,
    decode_block: B,
    params: Bm25Params,
    stats: FieldStats,
    qs: Seq<QueryTermView>,
    n: int,
) -> Result<Progress, search::Failure>
    decreases n,
{
    if n <= 0 {
        Ok(started())
    } else {
        match scored_terms(calc, k, reader, column, decode_block, params, stats, qs, n - 1) {
            Err(f) => Err(f),
            Ok(before) => if scoring::query_scorer(calc, term_query(params, stats, qs[n - 1])) is None {
                Ok(before)
            } else {
                scored_blocks(
                    calc,
                    k,
                    reader,
                    column,
                    decode_block,
                    before,
                    params,
                    stats,
                    qs[n - 1],
                    rest_of(
                        calc,
                        total_bound(calc, qs, qs.len() as int),
                        qs[n - 1].global_max_score,
                    ),
                    qs[n - 1].block_max_scores.len() as int,
                )
            },
        }
    }
}

/// A counter of 64 bits that starts again behind its largest value.
pub open spec fn wrapped(n: nat) -> u64 {
    (n % 0x1_0000_0000_0000_0000) as u64
}

fn count(counter: u64, more: u64, Ghost(n): Ghost<nat>) -> (r: u64)
    requires
        counter == wrapped(n),
    ensures
        r == wrapped(n + more as nat),
{
    counter.wrapping_add(more)
}

/// The state of a search.
struct Search {
    scores: SortedMap<Id, u32>,
    top: TopKTracker,
    stats: TextSearchStats,
}

impl Search {
    /// The state stands for some progress.
    spec fn is_at(self, p: Progress, k: nat) -> bool {
        &&& self.scores.wf()
        &&& self.top.wf()
        &&& self.top.limit() == k
        &&& self.scores.map() == p.scores
        &&& self.top.kept() == p.kept
        &&& self.stats.blocks_read == wrapped(p.blocks_read)
        &&& self.stats.blocks_skipped == wrapped(p.blocks_skipped)
        &&& self.stats.score_batches == wrapped(p.score_batches)
        &&& self.stats.postings_scored == wrapped(p.postings_scored)
    }

    fn score_posting_batch<M: Copy + Fn(Step) -> u32>(
        &mut self,
        query: TermQuery,
        postings: &Vec<TermPosting>,
        calc: M,
        Ghost(k): Ghost<nat>,
        Ghost(start): Ghost<Progress>,
    )
        requires
            arithmetic::is_arithmetic(calc),
            old(self).is_at(start, k),
        ensures
            final(self).is_at(
                scored_entries(
                    calc,
                    k,
                    start,
                    query,
                    index_data::postings_view(postings@),
                    postings@.len() as int,
                ),
                k,
            ),
    {
        let ghost ps = index_data::postings_view(postings@);
        let scorer = query.scorer(calc);
        let weight: u32 = query_term_frequency_weight(query.frequency, query.params.k3, calc);
        let mut i: usize = 0;
        while i < postings.len()
            invariant
                i <= postings@.len(),
                ps == index_data::postings_view(postings@),
                arithmetic::is_arithmetic(calc),
                scorer == scoring::query_scorer(calc, query),
                weight == scoring::query_weight(calc, query.params.k3, query.frequency),
                self.is_at(scored_entries(calc, k, start, query, ps, i as int), k),
            decreases postings@.len() - i,
        {
            let ghost before = scored_entries(calc, k, start, query, ps, i as int);
            let p = &postings[i];
            let s: u32 = contribute(scorer, weight, p, calc, Ghost(query));
            if !is_at_most_zero(s) {
                let so_far: u32 = match self.scores.get(&p.id) {
                    Some(x) => *x,
                    None => 0,
                };
                let total: u32 = compute(calc, Step::Add(so_far, s));
                self.scores.insert(copy_id(&p.id), total);
                self.top.observe(copy_id(&p.id), total);
                self.stats.postings_scored = count(
                    self.stats.postings_scored,
                    1,
                    Ghost(before.postings_scored),
                );
            }
            i = i + 1;
        }
    }

    fn score_block<
        M: Copy + Fn(Step) -> u32,
        B: Copy + Fn(&Vec<u8>) -> Result<PostingBlock, Error>,
    >(
        &mut self,
        reader: &SstReader,
        column: &str,
        q: &QueryTerm,
        b: usize,
        others: u32,
        params: Bm25Params,
        stats: FieldStats,
        calc: M,
        decode_block: B,
        Ghost(k): Ghost<nat>,
        Ghost(start): Ghost<Progress>,
    ) -> (r: Result<(), Error>)
        requires
            arithmetic::is_arithmetic(calc),
            search::is_decoder(decode_block),
            b < q.block_max_scores@.len() <= u32::MAX,
            scored_blocks(
                calc,
                k,
                *reader,
                column@,
                decode_block,
                start,
                params,
                stats,
                query_term_view(*q),
                others,
                b as int,
            ) is Ok,
            old(self).is_at(
                scored_blocks(
                    calc,
                    k,
                    *reader,
                    column@,
                    decode_block,
                    start,
                    params,
                    stats,
                    query_term_view(*q),
                    others,
                    b as int,
                )->Ok_0,
                k,
            ),
        ensures
            match scored_blocks(
                calc,
                k,
                *reader,
                column@,
                decode_block,
                start,
                params,
                stats,
                query_term_view(*q),
                others,
                b + 1,
            ) {
                Ok(p) => r is Ok && final(self).is_at(p, k),
                Err(f) => r is Err && search::is_error_of(f, r->Err_0),
            },
    {
        let ghost before = scored_blocks(
            calc,
            k,
            *reader,
            column@,
            decode_block,
            start,
            params,
            stats,
            query_term_view(*q),
            others,
            b as int,
        )->Ok_0;
        if let Some(t) = self.top.threshold() {
            let reach: u32 = compute(calc, Step::Add(q.block_max_scores[b], others));
            if score_beats(t, reach) {
                self.stats.blocks_skipped = count(
                    self.stats.blocks_skipped,
                    1,
                    Ghost(before.blocks_skipped),
                );
                return Ok(());
            }
        }
        let block = match read_posting_block(
            reader,
            column,
            q.term.as_str(),
            b as u32,
            decode_block,
        ) {
            Ok(block) => block,
            Err(e) => return Err(e),
        };
        let n = block.postings.len();
        let batches: usize = n / SCORE_BATCH_TARGET + (if n % SCORE_BATCH_TARGET != 0 {
            1usize
        } else {
            0usize
        });
        self.stats.blocks_read = count(self.stats.blocks_read, 1, Ghost(before.blocks_read));
        self.stats.score_batches = count(
            self.stats.score_batches,
            batches as u64,
            Ghost(before.score_batches),
        );
        let query = TermQuery {
            params,
            stats,
            doc_freq: q.doc_freq,
            frequency: q.frequency,
        };
        let ghost mid = Progress {
            blocks_read: before.blocks_read + 1,
            score_batches: (before.score_batches + index_data::pieces(
                n as int,
                SCORE_BATCH_TARGET as int,
            )) as nat,
            ..before
        };
        assert(self.is_at(mid, k));
        self.score_posting_batch(query, &block.postings, calc, Ghost(k), Ghost(mid));
        Ok(())
    }
}

proof fn lemma_blocks_fail<
    M: Fn(Step) -> u32,
    B: Fn(&Vec<u8>) -> Result<PostingBlock, Error>,
>(
    calc: M,
    k: nat,
    reader: SstReader,
    column: Seq<char>,
    decode_block: B,
    p: Progress,
    params: Bm25Params,
    stats: FieldStats,
    q: QueryTermView,
    others: u32,
    n: int,
    m: int,
)
    requires
        0 <= n <= m,
        scored_blocks(calc, k, reader, column, decode_block, p, params, stats, q, others, n) is Err,
    ensures
        scored_blocks(calc, k, reader, column, decode_block, p, params, stats, q, others, m)
            == scored_blocks(
            calc,
            k,
            reader,
            column,
            decode_block,
            p,
            params,
            stats,
            q,
            others,
            n,
        ),
    decreases m - n,
{
    if n < m {
        lemma_blocks_fail(
            calc,
            k,
            reader,
            column,
            decode_block,
            p,
            params,
            stats,
            q,
            others,
            n,
            m - 1,
        );
    }
}

proof fn lemma_terms_fail<
    M: Fn(Step) -> u32,
    B: Fn(&Vec<u8>) -> Result<PostingBlock, Error>,
>(
    calc: M,
    k: nat,
    reader: SstReader,
    column: Seq<char>,
    decode_block: B,
    params: Bm25Params,
    stats: FieldStats,
    qs: Seq<QueryTermView>,
    n: int,
    m: int,
)
    requires
        0 <= n <= m,
        scored_terms(calc, k, reader, column, decode_block, params, stats, qs, n) is Err,
    ensures
        scored_terms(calc, k, reader, column, decode_block, params, stats, qs, m) == scored_terms(
            calc,
            k,
            reader,
            column,
            decode_block,
            params,
            stats,
            qs,
            n,
        ),
    decreases m - n,
{
    if n < m {
        lemma_terms_fail(
            calc,
            k,
            reader,
            column,
            decode_block,
            params,
            stats,
            qs,
            n,
            m - 1,
        );
    }
}

/// Scores terms, the one with the highest bound first.
#[verifier::rlimit(50)]
fn score_in_order<
    M: Copy + Fn(Step) -> u32,
    B: Copy + Fn(&Vec<u8>) -> Result<PostingBlock, Error>,
>(
    reader: &SstReader,
    column: &str,
    qs: &Vec<QueryTerm>,
    k: usize,
    params: Bm25Params,
    stats: FieldStats,
    calc: M,
    decode_block: B,
) -> (r: Result<(SortedMap<Id, u32>, TextSearchStats), Error>)
    requires
        arithmetic::is_arithmetic(calc),
        search::is_decoder(decode_block),
        forall|i: int|
            0 <= i < qs@.len() ==> (#[trigger] qs@[i]).block_max_scores@.len() <= u32::MAX,
    ensures
        match scored_terms(
            calc,
            k as nat,
            *reader,
            column@,
            decode_block,
            params,
            stats,
            query_terms_view(qs@),
            qs@.len() as int,
        ) {
            Ok(p) => r is Ok && r->Ok_0.0.wf() && r->Ok_0.0.map() == p.scores && is_work_of(
                p,
                r->Ok_0.1,
            ),
            Err(f) => r is Err && search::is_error_of(f, r->Err_0),
        },
{
    let ghost views = query_terms_view(qs@);
    let mut total: u32 = NEGATIVE_ZERO;
    let mut i: usize = 0;
    while i < qs.len()
        invariant
            i <= qs@.len(),
            views == query_terms_view(qs@),
            arithmetic::is_arithmetic(calc),
            total == total_bound(calc, views, i as int),
        decreases qs@.len() - i,
    {
        total = compute(calc, Step::Add(total, qs[i].global_max_score));
        i = i + 1;
    }
    let mut search = Search {
        scores: SortedMap::new(),
        top: TopKTracker::new(k),
        stats: TextSearchStats::default(),
    };
    assert(search.is_at(started(), k as nat));
    let mut t: usize = 0;
    while t < qs.len()
        invariant
            t <= qs@.len(),
            views == query_terms_view(qs@),
            arithmetic::is_arithmetic(calc),
            search::is_decoder(decode_block),
            forall|i: int|
                0 <= i < qs@.len() ==> (#[trigger] qs@[i]).block_max_scores@.len() <= u32::MAX,
            total == total_bound(calc, views, qs@.len() as int),
            scored_terms(
                calc,
                k as nat,
                *reader,
                column@,
                decode_block,
                params,
                stats,
                views,
                t as int,
            ) is Ok,
            search.is_at(
                scored_terms(
                    calc,
                    k as nat,
                    *reader,
                    column@,
                    decode_block,
                    params,
                    stats,
                    views,
                    t as int,
                )->Ok_0,
                k as nat,
            ),
        decreases qs@.len() - t,
    {
        let q = &qs[t];
        let ghost start = scored_terms(
            calc,
            k as nat,
            *reader,
            column@,
            decode_block,
            params,
            stats,
            views,
            t as int,
        )->Ok_0;
        assert(views[t as int] == query_term_view(*q));
        let others: u32 = rest(total, q.global_max_score, calc);
        let query = TermQuery { params, stats, doc_freq: q.doc_freq, frequency: q.frequency };
        assert(query == term_query(params, stats, views[t as int]));
        if query.scorer(calc).is_some() {
            let mut b: usize = 0;
            while b < q.block_max_scores.len()
                invariant
                    b <= q.block_max_scores@.len() <= u32::MAX,
                    t < qs@.len(),
                    *q == qs@[t as int],
                    scoring::query_scorer(calc, term_query(params, stats, views[t as int])) is Some,
                    views == query_terms_view(qs@),
                    views[t as int] == query_term_view(*q),
                    arithmetic::is_arithmetic(calc),
                    search::is_decoder(decode_block),
                    total == total_bound(calc, views, qs@.len() as int),
                    others == rest_of(calc, total, q.global_max_score),
                    scored_terms(
                        calc,
                        k as nat,
                        *reader,
                        column@,
                        decode_block,
                        params,
                        stats,
                        views,
                        t as int,
                    ) == Ok::<Progress, search::Failure>(start),
                    scored_blocks(
                        calc,
                        k as nat,
                        *reader,
                        column@,
                        decode_block,
                        start,
                        params,
                        stats,
                        query_term_view(*q),
                        others,
                        b as int,
                    ) is Ok,
                    search.is_at(
                        scored_blocks(
                            calc,
                            k as nat,
                            *reader,
                            column@,
                            decode_block,
                            start,
                            params,
                            stats,
                            query_term_view(*q),
                            others,
                            b as int,
                        )->Ok_0,
                        k as nat,
                    ),
                decreases q.block_max_scores@.len() - b,
            {
                let r = search.score_block(
                    reader,
                    column,
                    q,
                    b,
                    others,
                    params,
                    stats,
                    calc,
                    decode_block,
                    Ghost(k as nat),
                    Ghost(start),
                );
                if let Err(e) = r {
                    proof {
                        lemma_blocks_fail(
                            calc,
                            k as nat,
                            *reader,
                            column@,
                            decode_block,
                            start,
                            params,
                            stats,
                            query_term_view(*q),
                            others,
                            b + 1,
                            q.block_max_scores@.len() as int,
                        );
                        lemma_terms_fail(
                            calc,
                            k as nat,
                            *reader,
                            column@,
                            decode_block,
                            params,
                            stats,
                            views,
                            t + 1,
                            qs@.len() as int,
                        );
                    }
                    return Err(e);
                }
                b = b + 1;
            }
        }
        t = t + 1;
    }
    Ok((search.scores, search.stats))
}

/// Counters say how much was looked at.
pub open spec fn is_work_of(p: Progress, stats: TextSearchStats) -> bool {
    &&& stats.blocks_read == wrapped(p.blocks_read)
    &&& stats.blocks_skipped == wrapped(p.blocks_skipped)
    &&& stats.score_batches == wrapped(p.score_batches)
    &&& stats.postings_scored == wrapped(p.postings_scored)
}

/// Hits are the best `k` of some scores.
pub open spec fn are_best(hits: Seq<TextHit>, scores: Map<IdView, u32>, k: int) -> bool {
    exists|all: Seq<TextHit>| #[trigger]
        scoring::ranks_scores(all, scores) && hits == numbers::at_most(all, k)
}

/// Terms, put in order, lead to some hits.
pub open spec fn ordered_search<
    M: Fn(Step) -> u32,
    B: Fn(&Vec<u8>) -> Result<PostingBlock, Error>,
>(
    calc: M,
    k: usize,
    reader: SstReader,
    column: Seq<char>,
    decode_block: B,
    params: Bm25Params,
    stats: FieldStats,
    given: Seq<QueryTerm>,
    ordered: Seq<QueryTerm>,
    r: Result<TextSearchOutcome, Error>,
) -> bool {
    &&& sorting::is_sorted(ordered, BestTerm)
    &&& ordered.to_multiset() == given.to_multiset()
    &&& match scored_terms(
        calc,
        k as nat,
        reader,
        column,
        decode_block,
        params,
        stats,
        query_terms_view(ordered),
        ordered.len() as int,
    ) {
        Ok(p) => r is Ok && are_best(r->Ok_0.hits@, p.scores, k as int) && is_work_of(
            p,
            r->Ok_0.stats,
        ),
        Err(f) => r is Err && search::is_error_of(f, r->Err_0),
    }
}

/// There is an order of the known terms that leads to some hits.
pub open spec fn known_search<
    M: Fn(Step) -> u32,
    B: Fn(&Vec<u8>) -> Result<PostingBlock, Error>,
>(
    calc: M,
    k: usize,
    reader: SstReader,
    column: Seq<char>,
    decode_block: B,
    params: Bm25Params,
    stats: FieldStats,
    known: Seq<QueryTermView>,
    r: Result<TextSearchOutcome, Error>,
) -> bool {
    exists|given: Seq<QueryTerm>, ordered: Seq<QueryTerm>|
        query_terms_view(given) == known && #[trigger] ordered_search(
            calc,
            k,
            reader,
            column,
            decode_block,
            params,
            stats,
            given,
            ordered,
            r,
        )
}

/// Nothing is found, and nothing had to be looked at.
pub open spec fn finds_nothing(r: Result<TextSearchOutcome, Error>) -> bool {
    r is Ok && r->Ok_0.hits@.len() == 0 && r->Ok_0.stats == no_work()
}

/// What the terms of a query find, with blocks left unread.
pub open spec fn finds_best<
    M: Fn(Step) -> u32,
    F: Fn(&Vec<u8>) -> Result<FieldStats, Error>,
    T: Fn(&Vec<u8>) -> Result<TextTermStats, Error>,
    B: Fn(&Vec<u8>) -> Result<PostingBlock, Error>,
>(
    calc: M,
    k: usize,
    params: Bm25Params,
    reader: SstReader,
    column: Seq<char>,
    terms: Seq<TermFrequency>,
    decode_field: F,
    decode_term: T,
    decode_block: B,
    r: Result<TextSearchOutcome, Error>,
) -> bool {
    if terms.len() == 0 {
        finds_nothing(r)
    } else {
        match search::record_at(reader, text::field_key(column), decode_field) {
            search::Lookup::Failed(f) => r is Err && search::is_error_of(f, r->Err_0),
            search::Lookup::Missing => finds_nothing(r),
            search::Lookup::Found(stats) => if stats.doc_count == 0 || stats.total_doc_len == 0 {
                finds_nothing(r)
            } else {
                match known_terms(
                    calc,
                    params,
                    reader,
                    column,
                    terms,
                    decode_term,
                    terms.len() as int,
                ) {
                    Err(f) => r is Err && search::is_error_of(f, r->Err_0),
                    Ok(known) => if known.len() == 0 {
                        finds_nothing(r)
                    } else {
                        known_search(
                            calc,
                            k,
                            reader,
                            column,
                            decode_block,
                            params,
                            stats,
                            known,
                            r,
                        )
                    },
                }
            },
        }
    }
}

/// The first `k` of what a search of everything finds, with nothing counted.
pub open spec fn cuts_off<
    M: Fn(Step) -> u32,
    F: Fn(&Vec<u8>) -> Result<FieldStats, Error>,
    T: Fn(&Vec<u8>) -> Result<TextTermStats, Error>,
    B: Fn(&Vec<u8>) -> Result<PostingBlock, Error>,
>(
    calc: M,
    k: usize,
    params: Bm25Params,
    reader: SstReader,
    column: Seq<char>,
    terms: Seq<TermFrequency>,
    decode_field: F,
    decode_term: T,
    decode_block: B,
    all: Result<Vec<TextHit>, Error>,
    r: Result<TextSearchOutcome, Error>,
) -> bool {
    &&& search::finds_indexed(
        calc,
        params,
        reader,
        column,
        terms,
        decode_field,
        decode_term,
        decode_block,
        all,
    )
    &&& match all {
        Ok(hits) => r is Ok && r->Ok_0.hits@ == numbers::at_most(hits@, k as int) && r->Ok_0.stats
            == no_work(),
        Err(e) => r is Err && r->Err_0 == e,
    }
}

/// The first `k` of what a search of everything finds.
pub open spec fn finds_first<
    M: Fn(Step) -> u32,
    F: Fn(&Vec<u8>) -> Result<FieldStats, Error>,
    T: Fn(&Vec<u8>) -> Result<TextTermStats, Error>,
    B: Fn(&Vec<u8>) -> Result<PostingBlock, Error>,
>(
    calc: M,
    k: usize,
    params: Bm25Params,
    reader: SstReader,
    column: Seq<char>,
    terms: Seq<TermFrequency>,
    decode_field: F,
    decode_term: T,
    decode_block: B,
    r: Result<TextSearchOutcome, Error>,
) -> bool {
    exists|all: Result<Vec<TextHit>, Error>| #[trigger]
        cuts_off(
            calc,
            k,
            params,
            reader,
            column,
            terms,
            decode_field,
            decode_term,
            decode_block,
            all,
            r,
        )
}

/// What a text finds: with the usual weights, the stored bounds tell which blocks
/// matter; with others, everything is searched.
pub open spec fn answers_best<
    M: Fn(Step) -> u32,
    F: Fn(&Vec<u8>) -> Result<FieldStats, Error>,
    T: Fn(&Vec<u8>) -> Result<TextTermStats, Error>,
    B: Fn(&Vec<u8>) -> Result<PostingBlock, Error>,
>(
    calc: M,
    k: usize,
    params: Bm25Params,
    reader: SstReader,
    column: Seq<char>,
    query: Seq<char>,
    decode_field: F,
    decode_term: T,
    decode_block: B,
    r: Result<TextSearchOutcome, Error>,
) -> bool {
    exists|terms: Seq<TermFrequency>| #[trigger]
        text::counts_terms(text::tokens_of(query, text::default_config()), terms) && if params
            == scoring::default_params() {
            finds_best(
                calc,
                k,
                params,
                reader,
                column,
                terms,
                decode_field,
                decode_term,
                decode_block,
                r,
            )
        } else {
            finds_first(
                calc,
                k,
                params,
                reader,
                column,
                terms,
                decode_field,
                decode_term,
                decode_block,
                r,
            )
        }
}

fn at_most(hits: Vec<TextHit>, k: usize) -> (r: Vec<TextHit>)
    ensures
        r@ == numbers::at_most(hits@, k as int),
{
    let mut hits = hits;
    let ghost all = hits@;
    if hits.len() > k {
        hits.truncate(k);
        assert(hits@ =~= numbers::at_most(all, k as int));
    } else {
        assert(hits@ =~= numbers::at_most(all, k as int));
    }
    hits
}

fn nothing() -> (r: Result<TextSearchOutcome, Error>)
    ensures
        finds_nothing(r),
{
    Ok(TextSearchOutcome { hits: Vec::new(), stats: TextSearchStats::default() })
}

/// Finds the best `k` documents of an index.
pub fn search_sst_top_k<
    M: Copy + Fn(Step) -> u32,
    F: Copy + Fn(&Vec<u8>) -> Result<FieldStats, Error>,
    T: Copy + Fn(&Vec<u8>) -> Result<TextTermStats, Error>,
    B: Copy + Fn(&Vec<u8>) -> Result<PostingBlock, Error>,
>(
    reader: &SstReader,
    column: &str,
    query: &str,
    k: usize,
    params: Bm25Params,
    calc: M,
    decode_field: F,
    decode_term: T,
    decode_block: B,
) -> (r: Result<Vec<TextHit>, Error>)
    requires
        arithmetic::is_arithmetic(calc),
        search::is_decoder(decode_field),
        search::is_decoder(decode_term),
        search::is_decoder(decode_block),
    ensures
        !scoring::params_ok(params) ==> r is Err && r->Err_0 is InvalidQuery
            && r->Err_0->InvalidQuery_0@ == scoring::params_complaint(params),
        scoring::params_ok(params) && k == 0 ==> r is Ok && r->Ok_0@.len() == 0,
        scoring::params_ok(params) && k > 0 ==> gives_hits(
            calc,
            k,
            params,
            *reader,
            column@,
            query@,
            decode_field,
            decode_term,
            decode_block,
            r,
        ),
{
    let outcome = search_sst_top_k_with_stats(
        reader,
        column,
        query,
        k,
        params,
        calc,
        decode_field,
        decode_term,
        decode_block,
    );
    let ghost whole = outcome;
    match outcome {
        Ok(found) => {
            let r: Result<Vec<TextHit>, Error> = Ok(found.hits);
            assert(hits_of(whole, r));
            r
        },
        Err(e) => {
            let r: Result<Vec<TextHit>, Error> = Err(e);
            assert(hits_of(whole, r));
            r
        },
    }
}

/// Hits are those of an outcome.
pub open spec fn hits_of(
    outcome: Result<TextSearchOutcome, Error>,
    r: Result<Vec<TextHit>, Error>,
) -> bool {
    match outcome {
        Ok(found) => r is Ok && r->Ok_0 == found.hits,
        Err(e) => r is Err && r->Err_0 == e,
    }
}

/// Hits are those of an outcome that answers a text.
pub open spec fn gives_hits<
    M: Fn(Step) -> u32,
    F: Fn(&Vec<u8>) -> Result<FieldStats, Error>,
    T: Fn(&Vec<u8>) -> Result<TextTermStats, Error>,
    B: Fn(&Vec<u8>) -> Result<PostingBlock, Error>,
>(
    calc: M,
    k: usize,
    params: Bm25Params,
    reader: SstReader,
    column: Seq<char>,
    query: Seq<char>,
    decode_field: F,
    decode_term: T,
    decode_block: B,
    r: Result<Vec<TextHit>, Error>,
) -> bool {
    exists|outcome: Result<TextSearchOutcome, Error>| #[trigger]
        hits_of(outcome, r) && answers_best(
            calc,
            k,
            params,
            reader,
            column,
            query,
            decode_field,
            decode_term,
            decode_block,
            outcome,
        )
}

/// Finds the best `k` documents of an index, and says how much of it was looked
/// at.
pub fn search_sst_top_k_with_stats<
    M: Copy + Fn(Step) -> u32,
    F: Copy + Fn(&Vec<u8>) -> Result<FieldStats, Error>,
    T: Copy + Fn(&Vec<u8>) -> Result<TextTermStats, Error>,
    B: Copy + Fn(&Vec<u8>) -> Result<PostingBlock, Error>,
>(
    reader: &SstReader,
    column: &str,
    query: &str,
    k: usize,
    params: Bm25Params,
    calc: M,
    decode_field: F,
    decode_term: T,
    decode_block: B,
) -> (r: Result<TextSearchOutcome, Error>)
    requires
        arithmetic::is_arithmetic(calc),
        search::is_decoder(decode_field),
        search::is_decoder(decode_term),
        search::is_decoder(decode_block),
    ensures
        !scoring::params_ok(params) ==> r is Err && r->Err_0 is InvalidQuery
            && r->Err_0->InvalidQuery_0@ == scoring::params_complaint(params),
        scoring::params_ok(params) && k == 0 ==> finds_nothing(r),
        scoring::params_ok(params) && k > 0 ==> answers_best(
            calc,
            k,
            params,
            *reader,
            column@,
            query@,
            decode_field,
            decode_term,
            decode_block,
            r,
        ),
{
    let params = match params.validate() {
        Ok(p) => p,
        Err(e) => return Err(e),
    };
    if k == 0 {
        return nothing();
    }
    let analyzed = analyze_text(query, TokenizerConfig::default());
    let terms = analyzed.terms;
    assert(text::counts_terms(text::tokens_of(query@, text::default_config()), terms@));
    if params != Bm25Params::default() {
        let all = search_terms(
            reader,
            column,
            &terms,
            params,
            calc,
            decode_field,
            decode_term,
            decode_block,
        );
        let ghost found = all;
        let r: Result<TextSearchOutcome, Error> = match all {
            Ok(hits) => Ok(
                TextSearchOutcome { hits: at_most(hits, k), stats: TextSearchStats::default() },
            ),
            Err(e) => Err(e),
        };
        assert(cuts_off(
            calc,
            k,
            params,
            *reader,
            column@,
            terms@,
            decode_field,
            decode_term,
            decode_block,
            found,
            r,
        ));
        return r;
    }
    let r = search_best(
        reader,
        column,
        &terms,
        k,
        params,
        calc,
        decode_field,
        decode_term,
        decode_block,
    );
    r
}

fn search_best<
    M: Copy + Fn(Step) -> u32,
    F: Copy + Fn(&Vec<u8>) -> Result<FieldStats, Error>,
    T: Copy + Fn(&Vec<u8>) -> Result<TextTermStats, Error>,
    B: Copy + Fn(&Vec<u8>) -> Result<PostingBlock, Error>,
>(
    reader: &SstReader,
    column: &str,
    terms: &Vec<TermFrequency>,
    k: usize,
    params: Bm25Params,
    calc: M,
    decode_field: F,
    decode_term: T,
    decode_block: B,
) -> (r: Result<TextSearchOutcome, Error>)
    requires
        arithmetic::is_arithmetic(calc),
        search::is_decoder(decode_field),
        search::is_decoder(decode_term),
        search::is_decoder(decode_block),
    ensures
        finds_best(
            calc,
            k,
            params,
            *reader,
            column@,
            terms@,
            decode_field,
            decode_term,
            decode_block,
            r,
        ),
{
    if terms.len() == 0 {
        return nothing();
    }
    let key = field_stats_key(column);
    let stats: FieldStats = match read_record(reader, &key, decode_field) {
        Ok(Some(stats)) => stats,
        Ok(None) => return nothing(),
        Err(e) => return Err(e),
    };
    if stats.doc_count == 0 || stats.total_doc_len == 0 {
        return nothing();
    }
    let known = match read_terms(reader, column, terms, params, calc, decode_term) {
        Ok(known) => known,
        Err(e) => return Err(e),
    };
    if known.len() == 0 {
        return nothing();
    }
    let ghost given = known@;
    proof {
        lemma_bounds_fit(calc, params, *reader, column@, terms@, decode_term, terms@.len() as int);
        assert forall|i: int| 0 <= i < given.len() implies (
        #[trigger] given[i]).block_max_scores@.len() <= u32::MAX by {
            assert(query_terms_view(given)[i].block_max_scores == given[i].block_max_scores@);
        }
    }
    let ordered = sort(known, &BestTerm);
    proof {
        scoring::lemma_same_items(ordered@, given);
        assert forall|i: int| 0 <= i < ordered@.len() implies (
        #[trigger] ordered@[i]).block_max_scores@.len() <= u32::MAX by {
            assert(given.contains(ordered@[i]));
            let j = given.index_of(ordered@[i]);
            assert(given[j] == ordered@[i]);
        }
    }
    let found = score_in_order(
        reader,
        column,
        &ordered,
        k,
        params,
        stats,
        calc,
        decode_block,
    );
    let r: Result<TextSearchOutcome, Error> = match found {
        Ok((scores, work)) => {
            let ghost m = scores.map();
            let all = hits_from_scores(scores);
            let ghost ranked = all@;
            let hits = at_most(all, k);
            assert(scoring::ranks_scores(ranked, m));
            assert(are_best(hits@, m, k as int));
            Ok(TextSearchOutcome { hits, stats: work })
        },
        Err(e) => Err(e),
    };
    assert(ordered_search(
        calc,
        k,
        *reader,
        column@,
        decode_block,
        params,
        stats,
        given,
        ordered@,
        r,
    ));
    r
}

proof fn lemma_bounds_fit<
    M: Fn(Step) -> u32,
    T: Fn(&Vec<u8>) -> Result<TextTermStats, Error>,
>(
    calc: M,
    params: Bm25Params,
    reader: SstReader,
    column: Seq<char>,
    terms: Seq<TermFrequency>,
    decode_term: T,
    n: int,
)
    ensures
        match known_terms(calc, params, reader, column, terms, decode_term, n) {
            Ok(qs) => forall|i: int|
                0 <= i < qs.len() ==> (#[trigger] qs[i]).block_max_scores.len() <= u32::MAX,
            Err(_) => true,
        },
    decreases n,
{
    if n > 0 {
        lemma_bounds_fit(calc, params, reader, column, terms, decode_term, n - 1);
    }
}

/// Reading a block adds to the scores just what a search without bounds adds for the same
/// entries.
pub proof fn law_reading_a_block_adds_its_entries<M: Fn(Step) -> u32>(
    calc: M,
    k: nat,
    p: Progress,
    query: TermQuery,
    ps: Seq<index_data::PostingView>,
    n: int,
)
    requires
        0 <= n <= ps.len(),
        forall|i: int|
            0 <= i < n ==> rounding::is_number(scoring::contribution(calc, query, #[trigger] ps[i])),
    ensures
        scored_entries(calc, k, p, query, ps, n).scores == scoring::posted(
            calc,
            p.scores,
            query,
            ps,
            n,
        ),
        scored_entries(calc, k, p, query, ps, n).blocks_read == p.blocks_read,
        scored_entries(calc, k, p, query, ps, n).blocks_skipped == p.blocks_skipped,
    decreases n,
{
    if n > 0 {
        law_reading_a_block_adds_its_entries(calc, k, p, query, ps, n - 1);
        assert(rounding::is_number(scoring::contribution(calc, query, ps[n - 1])));
    }
}

/// Every block of a term is either read or skipped.
pub proof fn law_blocks_are_read_or_skipped<
    M: Fn(Step) -> u32,
    B: Fn(&Vec<u8>) -> Result<PostingBlock, Error>,
>(
    calc: M,
    k: nat,
    reader: SstReader,
    column: Seq<char>,
    decode_block: B,
    p: Progress,
    params: Bm25Params,
    stats: FieldStats,
    q: QueryTermView,
    others: u32,
    n: int,
)
    requires
        0 <= n,
    ensures
        scored_blocks(calc, k, reader, column, decode_block, p, params, stats, q, others, n) matches Ok(
            after,
        ) ==> after.blocks_read + after.blocks_skipped == p.blocks_read + p.blocks_skipped + n,
    decreases n,
{
    if n > 0 {
        law_blocks_are_read_or_skipped(
            calc,
            k,
            reader,
            column,
            decode_block,
            p,
            params,
            stats,
            q,
            others,
            n - 1,
        );
        let front = scored_blocks(
            calc,
            k,
            reader,
            column,
            decode_block,
            p,
            params,
            stats,
            q,
            others,
            n - 1,
        );
        if let Ok(before) = front {
            if let Ok(block) = search::block_at(reader, column, q.term, n - 1, decode_block) {
                let ps = index_data::postings_view(block.postings@);
                let from = Progress {
                    blocks_read: before.blocks_read + 1,
                    score_batches: (before.score_batches + index_data::pieces(
                        ps.len() as int,
                        SCORE_BATCH_TARGET as int,
                    )) as nat,
                    ..before
                };
                lemma_same_blocks(calc, k, from, term_query(params, stats, q), ps, ps.len() as int);
            }
        }
    }
}

proof fn lemma_same_blocks<M: Fn(Step) -> u32>(
    calc: M,
    k: nat,
    p: Progress,
    query: TermQuery,
    ps: Seq<index_data::PostingView>,
    n: int,
)
    ensures
        scored_entries(calc, k, p, query, ps, n).blocks_read == p.blocks_read,
        scored_entries(calc, k, p, query, ps, n).blocks_skipped == p.blocks_skipped,
    decreases n,
{
    if n > 0 {
        lemma_same_blocks(calc, k, p, query, ps, n - 1);
    }
}

/// A block is skipped only once as many documents are kept as asked for, and if none of its
/// entries can make up for the score to beat: with what the entry contributes, at most the
/// bound, and all that the other terms contribute, at most theirs, the total stays below.
pub proof fn law_skipped_blocks_bring_nothing<M: Fn(Step) -> u32>(
    calc: M,
    k: nat,
    p: Progress,
    bound: u32,
    others: u32,
    contributed: u32,
    rest: u32,
)
    requires
        rounding::rounds(calc),
        is_hopeless(calc, k, p, bound, others),
        rounding::is_number(bound),
        rounding::is_number(others),
        rounding::is_number(contributed),
        rounding::is_number(rest),
        rounding::number(contributed) <= rounding::number(bound),
        rounding::number(rest) <= rounding::number(others),
        vector::score_rank(arithmetic::answer(calc, Step::Add(contributed, rest))) is Some,
    ensures
        top_k::threshold_of(p.kept, k) matches Some(t) && vector::beats(
            t,
            arithmetic::answer(calc, Step::Add(contributed, rest)),
        ),
        p.kept.dom().len() >= k,
{
    let x = rounding::number(contributed) + rounding::number(rest);
    let y = rounding::number(bound) + rounding::number(others);
    assert(rounding::comes_to(Step::Add(contributed, rest), x));
    assert(rounding::comes_to(Step::Add(bound, others), y));
}

/// A bound counts as often as the query has the term, as the contributions do: what no entry
/// exceeds before, none exceeds after.
pub proof fn law_bounds_hold_for_the_query<M: Fn(Step) -> u32>(
    calc: M,
    query: TermQuery,
    entry: index_data::PostingView,
    bound: u32,
)
    requires
        rounding::rounds(calc),
        scoring::query_scorer(calc, query) is Some,
        rounding::is_number(bound),
        rounding::is_number(scoring::rated(calc, query, entry)),
        rounding::number(scoring::rated(calc, query, entry)) <= rounding::number(bound),
        rounding::is_number(scoring::query_weight(calc, query.params.k3, query.frequency)),
        rounding::number(scoring::query_weight(calc, query.params.k3, query.frequency)) >= 0real,
    ensures
        vector::score_place(scoring::contribution(calc, query, entry)) <= vector::score_place(
            weighed(calc, query.params, query.frequency, bound),
        ),
{
    let w = scoring::query_weight(calc, query.params.k3, query.frequency);
    let s = scoring::rated(calc, query, entry);
    let a = rounding::number(s);
    let b = rounding::number(bound);
    let c = rounding::number(w);
    assert(a * c <= b * c) by (nonlinear_arith)
        requires
            a <= b,
            c >= 0real,
    ;
    assert(rounding::comes_to(Step::Mul(s, w), a * c));
    assert(rounding::comes_to(Step::Mul(bound, w), b * c));
}

/// What the other terms contribute at most is the total less the part of the term itself,
/// and never below zero. This is told of a difference that needs no rounding.
pub proof fn law_rest_is_what_is_left<M: Fn(Step) -> u32>(calc: M, total: u32, part: u32)
    requires
        rounding::rounds(calc),
        rounding::is_number(total),
        rounding::is_number(part),
        rounding::has_bits(rounding::number(total) - rounding::number(part)),
    ensures
        rounding::number(total) >= rounding::number(part) ==> rounding::number(
            rest_of(calc, total, part),
        ) + rounding::number(part) == rounding::number(total),
        rounding::number(total) < rounding::number(part) ==> rounding::number(
            rest_of(calc, total, part),
        ) == 0real,
{
    rounding::lemma_zeros(0);
    let x = rounding::number(total) - rounding::number(part);
    rounding::lemma_exact_step(calc, Step::Sub(total, part), x);
    rounding::law_higher_score_is_higher_number(
        arithmetic::answer(calc, Step::Sub(total, part)),
        0,
    );
}

} // verus!
