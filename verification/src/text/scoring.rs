//! Adding up what each term of a query contributes to the score of a document.
//!
//! A term contributes its BM25 score: more where it is rare, where the document
//! repeats it, and where the document is short. Scores are numbers held by their
//! bits; single operations on them are the caller's.

use vstd::prelude::*;

use crate::arithmetic;
use crate::arithmetic::{compute, Step, HALF, ONE};
use crate::documents;
use crate::error::{invalid_query, Error};
use crate::order::Order;
use crate::rounding;
use crate::sorted::SortedMap;
use crate::sorting;
use crate::sorting::{sort, Comparison, Ranking};
use crate::text;
use crate::text::index_data;
use crate::text::index_data::{build_index_data, FieldStats, TermPosting};
use crate::text::top_k;
use crate::text::top_k::total_place_of;
use crate::text::{analyze_text, TermFrequency, TokenizerConfig};
use crate::value;
use crate::value::{compare_ids, copy_id, Document, Id, IdView};
use crate::vector;
use crate::vector::{place_of, score_beats};

verus! {

/// The weights of the ranking function, by their bits.
#[derive(Clone, Copy, Debug, PartialEq, Eq, Structural)]
pub struct Bm25Params {
    pub k1: u32,
    pub b: u32,
    pub k3: u32,
}

/// 1.2, by its bits.
pub const DEFAULT_K1: u32 = 0x3f99_999a;

/// 0.75, by its bits.
pub const DEFAULT_B: u32 = 0x3f40_0000;

/// 8, by its bits.
pub const DEFAULT_K3: u32 = 0x4100_0000;

pub open spec fn default_params() -> Bm25Params {
    Bm25Params { k1: DEFAULT_K1, b: DEFAULT_B, k3: DEFAULT_K3 }
}

impl Default for Bm25Params {
    fn default() -> (p: Bm25Params)
        ensures
            p == default_params(),
    {
        Bm25Params { k1: DEFAULT_K1, b: DEFAULT_B, k3: DEFAULT_K3 }
    }
}

/// A number that is neither infinite nor a NaN.
pub open spec fn is_finite(bits: u32) -> bool {
    bits % vector::SCORE_SIGN < vector::SCORE_INFINITY
}

/// Weights that the ranking function is defined for.
pub open spec fn params_ok(p: Bm25Params) -> bool {
    &&& is_finite(p.k1)
    &&& vector::score_place(p.k1) > 0
    &&& is_finite(p.b)
    &&& 0 <= vector::score_place(p.b) <= ONE
    &&& is_finite(p.k3)
    &&& vector::score_place(p.k3) > 0
}

/// Why the ranking function is not defined for some weights.
pub open spec fn params_complaint(p: Bm25Params) -> Seq<char> {
    if !is_finite(p.k1) || vector::score_place(p.k1) <= 0 {
        "BM25 k1 must be finite and > 0"@
    } else if !is_finite(p.b) || !(0 <= vector::score_place(p.b) <= ONE) {
        "BM25 b must be finite and in [0, 1]"@
    } else {
        "BM25 k3 must be finite and > 0"@
    }
}

fn finite(bits: u32) -> (r: bool)
    ensures
        r == is_finite(bits),
{
    bits % vector::SCORE_SIGN < vector::SCORE_INFINITY
}

impl Bm25Params {
    /// Gives the weights back if the ranking function is defined for them.
    pub fn validate(self) -> (r: Result<Bm25Params, Error>)
        ensures
            match r {
                Ok(p) => p == self && params_ok(self),
                Err(e) => e is InvalidQuery && e->InvalidQuery_0@ == params_complaint(self)
                    && !params_ok(self),
            },
    {
        if !finite(self.k1) || place_of(self.k1) <= 0 {
            return Err(invalid_query("BM25 k1 must be finite and > 0"));
        }
        if !finite(self.b) || place_of(self.b) < 0 || place_of(self.b) > ONE as i64 {
            return Err(invalid_query("BM25 b must be finite and in [0, 1]"));
        }
        if !finite(self.k3) || place_of(self.k3) <= 0 {
            return Err(invalid_query("BM25 k3 must be finite and > 0"));
        }
        Ok(self)
    }
}

/// A term of a query, and what is known of it in a column.
#[derive(Clone, Copy, Debug)]
pub struct TermQuery {
    pub params: Bm25Params,
    pub stats: FieldStats,
    /// How many documents have the term.
    pub doc_freq: u64,
    /// How often the query has the term.
    pub frequency: u32,
}

/// A number that is not above zero.
pub open spec fn at_most_zero(bits: u32) -> bool {
    vector::score_rank(bits) is Some && vector::score_rank(bits)->Some_0 <= 0
}

pub(crate) fn is_at_most_zero(bits: u32) -> (r: bool)
    ensures
        r == at_most_zero(bits),
{
    bits % vector::SCORE_SIGN <= vector::SCORE_INFINITY && place_of(bits) <= 0
}

/// The mean length of the documents of a column; zero where there is none.
pub open spec fn average_len<M: Fn(Step) -> u32>(calc: M, stats: FieldStats) -> u32 {
    if stats.doc_count == 0 {
        0
    } else {
        let total = arithmetic::answer(calc, Step::Count(stats.total_doc_len));
        let count = arithmetic::answer(calc, Step::Count(stats.doc_count));
        arithmetic::answer(calc, Step::Div(total, count))
    }
}

/// The mean length of the documents of a column; zero where there is none.
pub fn average_doc_len<M: Copy + Fn(Step) -> u32>(stats: FieldStats, calc: M) -> (r: u32)
    requires
        arithmetic::is_arithmetic(calc),
    ensures
        r == average_len(calc, stats),
{
    if stats.doc_count == 0 {
        return 0;
    }
    let total: u32 = compute(calc, Step::Count(stats.total_doc_len));
    let count: u32 = compute(calc, Step::Count(stats.doc_count));
    compute(calc, Step::Div(total, count))
}

/// How rare a term is that `df` of `n` documents have: the logarithm of
/// `1 + (n - df + 0.5) / (df + 0.5)`.
pub open spec fn rarity<M: Fn(Step) -> u32>(calc: M, n: u32, df: u32) -> u32 {
    let above = arithmetic::answer(
        calc,
        Step::Add(arithmetic::answer(calc, Step::Sub(n, df)), HALF),
    );
    let below = arithmetic::answer(calc, Step::Add(df, HALF));
    let ratio = arithmetic::answer(calc, Step::Div(above, below));
    arithmetic::answer(calc, Step::Ln(arithmetic::answer(calc, Step::Add(ONE, ratio))))
}

/// What scores a term: how rare it is, and how lengths and repetitions count.
#[derive(Clone, Copy, Debug, PartialEq, Eq, Structural)]
pub struct Bm25TermScorer {
    pub idf: u32,
    pub avg_doc_len: u32,
    pub k1: u32,
    pub b: u32,
}

/// What scores a term, if anything does: there must be documents of some length, and
/// one that has the term.
pub open spec fn scorer_of<M: Fn(Step) -> u32>(
    calc: M,
    avg_doc_len: u32,
    doc_count: u64,
    doc_freq: u64,
    params: Bm25Params,
) -> Option<Bm25TermScorer> {
    if at_most_zero(avg_doc_len) || doc_count == 0 || doc_freq == 0 {
        None
    } else {
        let n = arithmetic::answer(calc, Step::Count(doc_count));
        let df = arithmetic::answer(
            calc,
            Step::Count(
                if doc_freq < doc_count {
                    doc_freq
                } else {
                    doc_count
                },
            ),
        );
        Some(
            Bm25TermScorer { idf: rarity(calc, n, df), avg_doc_len, k1: params.k1, b: params.b },
        )
    }
}

/// How the length of a document counts: `1 - b + b * (doc_len / avg_doc_len)`.
pub open spec fn length_norm<M: Fn(Step) -> u32>(
    calc: M,
    scorer: Bm25TermScorer,
    doc_len: u32,
) -> u32 {
    let length = arithmetic::answer(calc, Step::Count(doc_len as u64));
    let share = arithmetic::answer(calc, Step::Div(length, scorer.avg_doc_len));
    let varying = arithmetic::answer(calc, Step::Mul(scorer.b, share));
    let fixed = arithmetic::answer(calc, Step::Sub(ONE, scorer.b));
    arithmetic::answer(calc, Step::Add(fixed, varying))
}

/// The score of a term for a document of `doc_len` terms that has it
/// `term_frequency` times: `idf * (tf * (k1 + 1)) / (tf + k1 * norm)`.
pub open spec fn scored<M: Fn(Step) -> u32>(
    calc: M,
    scorer: Bm25TermScorer,
    term_frequency: u32,
    doc_len: u32,
) -> u32 {
    if term_frequency == 0 || doc_len == 0 {
        0
    } else {
        let tf = arithmetic::answer(calc, Step::Count(term_frequency as u64));
        let most = arithmetic::answer(calc, Step::Add(scorer.k1, ONE));
        let gain = arithmetic::answer(calc, Step::Mul(tf, most));
        let above = arithmetic::answer(calc, Step::Mul(scorer.idf, gain));
        let damped = arithmetic::answer(
            calc,
            Step::Mul(scorer.k1, length_norm(calc, scorer, doc_len)),
        );
        let below = arithmetic::answer(calc, Step::Add(tf, damped));
        arithmetic::answer(calc, Step::Div(above, below))
    }
}

impl Bm25TermScorer {
    pub fn new<M: Copy + Fn(Step) -> u32>(
        avg_doc_len: u32,
        doc_count: u64,
        doc_freq: u64,
        params: Bm25Params,
        calc: M,
    ) -> (r: Option<Bm25TermScorer>)
        requires
            arithmetic::is_arithmetic(calc),
        ensures
            r == scorer_of(calc, avg_doc_len, doc_count, doc_freq, params),
    {
        if is_at_most_zero(avg_doc_len) || doc_count == 0 || doc_freq == 0 {
            return None;
        }
        let n: u32 = compute(calc, Step::Count(doc_count));
        let common: u64 = if doc_freq < doc_count {
            doc_freq
        } else {
            doc_count
        };
        let df: u32 = compute(calc, Step::Count(common));
        let rest: u32 = compute(calc, Step::Sub(n, df));
        let above: u32 = compute(calc, Step::Add(rest, HALF));
        let below: u32 = compute(calc, Step::Add(df, HALF));
        let ratio: u32 = compute(calc, Step::Div(above, below));
        let grown: u32 = compute(calc, Step::Add(ONE, ratio));
        let idf: u32 = compute(calc, Step::Ln(grown));
        Some(Bm25TermScorer { idf, avg_doc_len, k1: params.k1, b: params.b })
    }

    pub fn score<M: Copy + Fn(Step) -> u32>(
        self,
        term_frequency: u32,
        doc_len: u32,
        calc: M,
    ) -> (r: u32)
        requires
            arithmetic::is_arithmetic(calc),
        ensures
            r == scored(calc, self, term_frequency, doc_len),
    {
        if term_frequency == 0 || doc_len == 0 {
            return 0;
        }
        let tf: u32 = compute(calc, Step::Count(term_frequency as u64));
        let length: u32 = compute(calc, Step::Count(doc_len as u64));
        let share: u32 = compute(calc, Step::Div(length, self.avg_doc_len));
        let varying: u32 = compute(calc, Step::Mul(self.b, share));
        let fixed: u32 = compute(calc, Step::Sub(ONE, self.b));
        let norm: u32 = compute(calc, Step::Add(fixed, varying));
        let most: u32 = compute(calc, Step::Add(self.k1, ONE));
        let gain: u32 = compute(calc, Step::Mul(tf, most));
        let above: u32 = compute(calc, Step::Mul(self.idf, gain));
        let damped: u32 = compute(calc, Step::Mul(self.k1, norm));
        let below: u32 = compute(calc, Step::Add(tf, damped));
        compute(calc, Step::Div(above, below))
    }
}

/// The weights that a term is scored with: the given ones, or the usual ones where
/// the ranking function is not defined for those.
pub open spec fn usable_params(params: Bm25Params) -> Bm25Params {
    if params_ok(params) {
        params
    } else {
        default_params()
    }
}

/// The score of a term for a document; zero where nothing scores it.
pub fn bm25_term_score<M: Copy + Fn(Step) -> u32>(
    term_frequency: u32,
    doc_len: u32,
    avg_doc_len: u32,
    doc_count: u64,
    doc_freq: u64,
    params: Bm25Params,
    calc: M,
) -> (r: u32)
    requires
        arithmetic::is_arithmetic(calc),
    ensures
        r == (match scorer_of(calc, avg_doc_len, doc_count, doc_freq, usable_params(params)) {
            Some(scorer) => scored(calc, scorer, term_frequency, doc_len),
            None => 0,
        }),
{
    let usable = match params.validate() {
        Ok(p) => p,
        Err(_) => Bm25Params::default(),
    };
    match Bm25TermScorer::new(avg_doc_len, doc_count, doc_freq, usable, calc) {
        Some(scorer) => scorer.score(term_frequency, doc_len, calc),
        None => 0,
    }
}

/// What a term counts for that a query has `frequency` times:
/// `(qtf * (k3 + 1)) / (qtf + k3)`.
pub open spec fn query_weight<M: Fn(Step) -> u32>(calc: M, k3: u32, frequency: u32) -> u32 {
    let qtf = arithmetic::answer(calc, Step::Count(frequency as u64));
    let most = arithmetic::answer(calc, Step::Add(k3, ONE));
    let above = arithmetic::answer(calc, Step::Mul(qtf, most));
    let below = arithmetic::answer(calc, Step::Add(qtf, k3));
    arithmetic::answer(calc, Step::Div(above, below))
}

pub(crate) fn query_term_frequency_weight<M: Copy + Fn(Step) -> u32>(
    frequency: u32,
    k3: u32,
    calc: M,
) -> (r: u32)
    requires
        arithmetic::is_arithmetic(calc),
    ensures
        r == query_weight(calc, k3, frequency),
{
    let qtf: u32 = compute(calc, Step::Count(frequency as u64));
    let most: u32 = compute(calc, Step::Add(k3, ONE));
    let above: u32 = compute(calc, Step::Mul(qtf, most));
    let below: u32 = compute(calc, Step::Add(qtf, k3));
    compute(calc, Step::Div(above, below))
}

/// What scores the term of a query in its column.
pub open spec fn query_scorer<M: Fn(Step) -> u32>(calc: M, query: TermQuery) -> Option<
    Bm25TermScorer,
> {
    scorer_of(
        calc,
        average_len(calc, query.stats),
        query.stats.doc_count,
        query.doc_freq,
        query.params,
    )
}

impl TermQuery {
    pub(crate) fn scorer<M: Copy + Fn(Step) -> u32>(self, calc: M) -> (r: Option<Bm25TermScorer>)
        requires
            arithmetic::is_arithmetic(calc),
        ensures
            r == query_scorer(calc, self),
    {
        let average: u32 = average_doc_len(self.stats, calc);
        Bm25TermScorer::new(average, self.stats.doc_count, self.doc_freq, self.params, calc)
    }
}

/// The score of a document's entry for a term, however often the query has it.
pub open spec fn rated<M: Fn(Step) -> u32>(
    calc: M,
    query: TermQuery,
    p: index_data::PostingView,
) -> u32 {
    match query_scorer(calc, query) {
        Some(scorer) => scored(calc, scorer, p.term_frequency, p.doc_len),
        None => 0,
    }
}

/// What a document's entry for a term contributes: its score, times what the term
/// counts for.
pub open spec fn contribution<M: Fn(Step) -> u32>(
    calc: M,
    query: TermQuery,
    p: index_data::PostingView,
) -> u32 {
    match query_scorer(calc, query) {
        Some(scorer) => arithmetic::answer(
            calc,
            Step::Mul(
                scored(calc, scorer, p.term_frequency, p.doc_len),
                query_weight(calc, query.params.k3, query.frequency),
            ),
        ),
        None => 0,
    }
}

pub(crate) fn contribute<M: Copy + Fn(Step) -> u32>(
    scorer: Option<Bm25TermScorer>,
    weight: u32,
    p: &TermPosting,
    calc: M,
    Ghost(query): Ghost<TermQuery>,
) -> (r: u32)
    requires
        arithmetic::is_arithmetic(calc),
        scorer == query_scorer(calc, query),
        weight == query_weight(calc, query.params.k3, query.frequency),
    ensures
        r == contribution(calc, query, index_data::posting_view(*p)),
{
    match scorer {
        Some(scorer) => {
            let score: u32 = scorer.score(p.term_frequency, p.doc_len, calc);
            compute(calc, Step::Mul(score, weight))
        },
        None => 0,
    }
}

/// The score of a document so far.
pub open spec fn score_so_far(scores: Map<IdView, u32>, id: IdView) -> u32 {
    if scores.dom().contains(id) {
        scores[id]
    } else {
        0
    }
}

/// The scores once the first `n` entries of a term are added; only what is above
/// zero is.
pub open spec fn posted<M: Fn(Step) -> u32>(
    calc: M,
    scores: Map<IdView, u32>,
    query: TermQuery,
    ps: Seq<index_data::PostingView>,
    n: int,
) -> Map<IdView, u32>
    decreases n,
{
    if n <= 0 {
        scores
    } else {
        let before = posted(calc, scores, query, ps, n - 1);
        let p = ps[n - 1];
        let s = contribution(calc, query, p);
        if vector::beats(s, 0) {
            before.insert(
                p.id,
                arithmetic::answer(calc, Step::Add(score_so_far(before, p.id), s)),
            )
        } else {
            before
        }
    }
}

/// Adds the entries of a term.
pub(crate) fn post_entries<M: Copy + Fn(Step) -> u32>(
    scores: &mut SortedMap<Id, u32>,
    query: TermQuery,
    postings: &Vec<TermPosting>,
    calc: M,
)
    requires
        old(scores).wf(),
        arithmetic::is_arithmetic(calc),
    ensures
        final(scores).wf(),
        final(scores).map() == posted(
            calc,
            old(scores).map(),
            query,
            index_data::postings_view(postings@),
            postings@.len() as int,
        ),
{
    let ghost ps = index_data::postings_view(postings@);
    let ghost start = scores.map();
    let scorer = query.scorer(calc);
    let weight: u32 = query_term_frequency_weight(query.frequency, query.params.k3, calc);
    let mut i: usize = 0;
    while i < postings.len()
        invariant
            i <= postings@.len(),
            ps == index_data::postings_view(postings@),
            scores.wf(),
            arithmetic::is_arithmetic(calc),
            scorer == query_scorer(calc, query),
            weight == query_weight(calc, query.params.k3, query.frequency),
            scores.map() == posted(calc, start, query, ps, i as int),
        decreases postings@.len() - i,
    {
        let p = &postings[i];
        let s: u32 = contribute(scorer, weight, p, calc, Ghost(query));
        if score_beats(s, 0) {
            let so_far: u32 = match scores.get(&p.id) {
                Some(x) => *x,
                None => 0,
            };
            let total: u32 = compute(calc, Step::Add(so_far, s));
            scores.insert(copy_id(&p.id), total);
        }
        i = i + 1;
    }
}

// ---------------------------------------------------------------------------
// Hits
// ---------------------------------------------------------------------------

/// A document with its score.
#[derive(Clone, Debug)]
pub struct TextHit {
    pub id: Id,
    pub score: u32,
}

/// The order of hits: the higher score first, and of equal scores the lower key.
pub struct BestText;

/// `a` may stand before `b`.
pub open spec fn text_precedes(a: TextHit, b: TextHit) -> bool {
    top_k::total_place(a.score) > top_k::total_place(b.score) || (top_k::total_place(a.score)
        == top_k::total_place(b.score) && value::id_order(a.id@, b.id@) != Order::Greater)
}

impl Comparison<TextHit> for BestText {
    open spec fn ranks(&self, a: TextHit) -> bool {
        true
    }

    open spec fn precedes(&self, a: TextHit, b: TextHit) -> bool {
        text_precedes(a, b)
    }

    proof fn lemma_total(&self, a: TextHit, b: TextHit) {
        value::lemma_ids_total(a.id@, b.id@);
        value::lemma_ids_total(b.id@, a.id@);
    }

    fn in_order(&self, a: &TextHit, b: &TextHit) -> (r: bool) {
        let x: i64 = total_place_of(a.score);
        let y: i64 = total_place_of(b.score);
        x > y || (x == y && !matches!(compare_ids(&a.id, &b.id), Order::Greater))
    }
}

impl Ranking<TextHit> for BestText {
    proof fn lemma_transitive(&self, a: TextHit, b: TextHit, c: TextHit) {
        vector::lemma_ids_transitive(a.id@, b.id@, c.id@);
    }
}

/// Hits are those of some scores, best first.
pub open spec fn ranks_scores(hits: Seq<TextHit>, scores: Map<IdView, u32>) -> bool {
    &&& sorting::is_sorted(hits, BestText)
    &&& hits.len() == scores.dom().len()
    &&& forall|i: int|
        0 <= i < hits.len() ==> scores.dom().contains((#[trigger] hits[i]).id@) && scores[hits[i].id@]
            == hits[i].score
    &&& forall|id: IdView| #[trigger] scores.dom().contains(id) ==> has_hit(hits, id)
}

/// A document is among the hits.
pub open spec fn has_hit(hits: Seq<TextHit>, id: IdView) -> bool {
    exists|i: int| 0 <= i < hits.len() && (#[trigger] hits[i]).id@ == id
}

pub(crate) proof fn lemma_same_items<T>(a: Seq<T>, b: Seq<T>)
    requires
        a.to_multiset() == b.to_multiset(),
    ensures
        a.len() == b.len(),
        forall|i: int| 0 <= i < a.len() ==> b.contains(#[trigger] a[i]),
{
    broadcast use vstd::seq_lib::group_to_multiset_ensures;

    assert(a.to_multiset().len() == a.len() && b.to_multiset().len() == b.len());
    assert forall|i: int| 0 <= i < a.len() implies b.contains(#[trigger] a[i]) by {
        assert(a.contains(a[i]));
        assert(a.to_multiset().count(a[i]) > 0);
    }
}

/// The hits of some scores, best first.
pub(crate) fn hits_from_scores(scores: SortedMap<Id, u32>) -> (hits: Vec<TextHit>)
    requires
        scores.wf(),
    ensures
        ranks_scores(hits@, scores.map()),
{
    let ghost keys = scores.keys();
    let ghost vals = scores.values();
    let ghost m = scores.map();
    let ghost given = scores;
    proof {
        scores.lemma_count();
    }
    let n = scores.len();
    let mut list: Vec<TextHit> = Vec::new();
    let mut i: usize = 0;
    while i < n
        invariant
            i <= n,
            n == keys.len(),
            scores == given,
            keys == given.keys(),
            vals == given.values(),
            list@.len() == i,
            forall|k: int|
                0 <= k < i ==> (#[trigger] list@[k]).id@ == keys[k] && list@[k].score == vals[k],
        decreases n - i,
    {
        list.push(TextHit { id: copy_id(scores.key_at(i)), score: *scores.value_at(i) });
        i = i + 1;
    }
    let ghost before = list@;
    let hits = sort(list, &BestText);
    proof {
        lemma_same_items(hits@, before);
        lemma_same_items(before, hits@);
        assert forall|k: int| 0 <= k < hits@.len() implies m.dom().contains(
            (#[trigger] hits@[k]).id@,
        ) && m[hits@[k].id@] == hits@[k].score by {
            assert(before.contains(hits@[k]));
            let j = before.index_of(hits@[k]);
            assert(before[j] == hits@[k]);
            given.lemma_position(j);
        }
        assert forall|id: IdView| #[trigger] m.dom().contains(id) implies has_hit(hits@, id) by {
            let j = keys.index_of(id);
            assert(before[j].id@ == id);
            assert(hits@.contains(before[j]));
            let k = hits@.index_of(before[j]);
            assert(hits@[k].id@ == id);
        }
    }
    hits
}

// ---------------------------------------------------------------------------
// Documents that are not indexed
// ---------------------------------------------------------------------------

/// The scores once the first `n` terms of a query are added.
pub open spec fn document_scores<M: Fn(Step) -> u32>(
    calc: M,
    params: Bm25Params,
    ids: Seq<IdView>,
    docs: documents::Docs,
    column: Seq<char>,
    terms: Seq<TermFrequency>,
    n: int,
) -> Map<IdView, u32>
    decreases n,
{
    if n <= 0 {
        Map::empty()
    } else {
        let before = document_scores(calc, params, ids, docs, column, terms, n - 1);
        let t = terms[n - 1];
        let config = text::default_config();
        let ps = index_data::term_entries(
            ids,
            docs,
            column,
            t.term@,
            config,
            ids.len() as int,
        );
        let stats = index_data::field_totals(ids, docs, column, config, ids.len() as int);
        if ps.len() == 0 {
            before
        } else {
            posted(
                calc,
                before,
                TermQuery { params, stats, doc_freq: ps.len() as u64, frequency: t.frequency },
                ps,
                ps.len() as int,
            )
        }
    }
}

/// Hits are what a query finds in documents.
pub open spec fn finds_documents<M: Fn(Step) -> u32>(
    calc: M,
    params: Bm25Params,
    ids: Seq<IdView>,
    docs: documents::Docs,
    column: Seq<char>,
    terms: Seq<TermFrequency>,
    hits: Seq<TextHit>,
) -> bool {
    let stats = index_data::field_totals(
        ids,
        docs,
        column,
        text::default_config(),
        ids.len() as int,
    );
    if stats.doc_count == 0 || stats.total_doc_len == 0 {
        hits.len() == 0
    } else {
        ranks_scores(
            hits,
            document_scores(calc, params, ids, docs, column, terms, terms.len() as int),
        )
    }
}

/// Hits are what the terms of a text find in documents.
pub open spec fn answers_in_documents<M: Fn(Step) -> u32>(
    calc: M,
    params: Bm25Params,
    ids: Seq<IdView>,
    docs: documents::Docs,
    column: Seq<char>,
    query: Seq<char>,
    hits: Seq<TextHit>,
) -> bool {
    exists|terms: Seq<TermFrequency>| #[trigger]
        text::counts_terms(text::tokens_of(query, text::default_config()), terms)
            && finds_documents(calc, params, ids, docs, column, terms, hits)
}

/// Scores documents that are not indexed.
pub fn score_documents<M: Copy + Fn(Step) -> u32>(
    docs: &SortedMap<Id, Document>,
    column: &str,
    query: &str,
    params: Bm25Params,
    calc: M,
) -> (r: Result<Vec<TextHit>, Error>)
    requires
        documents::docs_wf(*docs),
        arithmetic::is_arithmetic(calc),
    ensures
        match r {
            Ok(hits) => params_ok(params) && answers_in_documents(
                calc,
                params,
                docs.keys(),
                documents::docs_view(*docs),
                column@,
                query@,
                hits@,
            ),
            Err(e) => e is InvalidQuery && e->InvalidQuery_0@ == params_complaint(params)
                && !params_ok(params),
        },
{
    let params = match params.validate() {
        Ok(p) => p,
        Err(e) => return Err(e),
    };
    let ghost ids = docs.keys();
    let ghost all = documents::docs_view(*docs);
    let config = TokenizerConfig::default();
    let data = build_index_data(docs, config);
    let analyzed = analyze_text(query, config);
    let terms = analyzed.terms;
    assert(text::counts_terms(text::tokens_of(query@, text::default_config()), terms@));
    assert(index_data::stats_in(data, column@) == index_data::field_totals(
        ids,
        all,
        column@,
        config,
        ids.len() as int,
    ));
    let stats: FieldStats = match data.field_stats.get(column) {
        Some(stats) => *stats,
        None => {
            let hits: Vec<TextHit> = Vec::new();
            assert(finds_documents(calc, params, ids, all, column@, terms@, hits@));
            return Ok(hits);
        },
    };
    if stats.doc_count == 0 || stats.total_doc_len == 0 {
        let hits: Vec<TextHit> = Vec::new();
        assert(finds_documents(calc, params, ids, all, column@, terms@, hits@));
        return Ok(hits);
    }
    let mut scores: SortedMap<Id, u32> = SortedMap::new();
    let mut i: usize = 0;
    while i < terms.len()
        invariant
            i <= terms@.len(),
            arithmetic::is_arithmetic(calc),
            scores.wf(),
            data.wf(),
            config == text::default_config(),
            stats == index_data::field_totals(ids, all, column@, config, ids.len() as int),
            forall|c: Seq<char>, t: Seq<char>| #[trigger]
                index_data::entries_in(data, c, t) == index_data::term_entries(
                    ids,
                    all,
                    c,
                    t,
                    config,
                    ids.len() as int,
                ),
            scores.map() == document_scores(
                calc,
                params,
                ids,
                all,
                column@,
                terms@,
                i as int,
            ),
        decreases terms@.len() - i,
    {
        let term = &terms[i];
        let key = index_data::TermKey { column: column.to_owned(), term: term.term.clone() };
        assert(index_data::entries_in(data, column@, term.term@) == index_data::term_entries(
            ids,
            all,
            column@,
            term.term@,
            config,
            ids.len() as int,
        ));
        if let Some(postings) = data.postings.get(&key) {
            let query = TermQuery {
                params,
                stats,
                doc_freq: postings.len() as u64,
                frequency: term.frequency,
            };
            post_entries(&mut scores, query, postings, calc);
        }
        i = i + 1;
    }
    let hits = hits_from_scores(scores);
    assert(finds_documents(calc, params, ids, all, column@, terms@, hits@));
    Ok(hits)
}

// ---------------------------------------------------------------------------
// What scores are, up to rounding
// ---------------------------------------------------------------------------

/// The mean length of the documents of a column is the number of all their terms over
/// the number of the documents, rounded: times the number of documents it is all their
/// terms again, where it needs no rounding.
pub proof fn law_mean_length_is_terms_over_documents<M: Fn(Step) -> u32>(
    calc: M,
    stats: FieldStats,
    mean: real,
)
    requires
        rounding::rounds(calc),
        0 < stats.doc_count < 0x100_0000,
        stats.total_doc_len < 0x100_0000,
        mean * (stats.doc_count as real) == stats.total_doc_len as real,
    ensures
        rounding::is_rounded(mean, average_len(calc, stats)),
        rounding::has_bits(mean) ==> rounding::is_number(average_len(calc, stats))
            && rounding::number(average_len(calc, stats)) * (stats.doc_count as real)
            == stats.total_doc_len as real,
{
    rounding::lemma_count(calc, stats.total_doc_len);
    rounding::lemma_count(calc, stats.doc_count);
    let total = arithmetic::answer(calc, Step::Count(stats.total_doc_len));
    let count = arithmetic::answer(calc, Step::Count(stats.doc_count));
    assert(rounding::comes_to(Step::Div(total, count), mean));
    if rounding::has_bits(mean) {
        rounding::lemma_exact(mean, average_len(calc, stats));
    }
}

/// More terms in no more documents make the mean length no lower.
pub proof fn law_mean_length_grows_with_terms<M: Fn(Step) -> u32>(
    calc: M,
    stats: FieldStats,
    other: FieldStats,
)
    requires
        rounding::rounds(calc),
        0 < other.doc_count <= stats.doc_count,
        stats.total_doc_len <= other.total_doc_len,
    ensures
        vector::score_place(average_len(calc, stats)) <= vector::score_place(
            average_len(calc, other),
        ),
{
    rounding::lemma_count(calc, stats.total_doc_len);
    rounding::lemma_count(calc, stats.doc_count);
    rounding::lemma_count(calc, other.total_doc_len);
    rounding::lemma_count(calc, other.doc_count);
    let a = arithmetic::answer(calc, Step::Count(stats.total_doc_len));
    let b = arithmetic::answer(calc, Step::Count(stats.doc_count));
    let c = arithmetic::answer(calc, Step::Count(other.total_doc_len));
    let d = arithmetic::answer(calc, Step::Count(other.doc_count));
    assert(rounding::comes_to(Step::Count(stats.total_doc_len), stats.total_doc_len as real));
    assert(rounding::comes_to(Step::Count(other.total_doc_len), other.total_doc_len as real));
    assert(rounding::comes_to(Step::Count(stats.doc_count), stats.doc_count as real));
    assert(rounding::comes_to(Step::Count(other.doc_count), other.doc_count as real));
    rounding::lemma_places(a, c);
    rounding::lemma_places(d, b);
    let x = rounding::lemma_quotient(rounding::number(a), rounding::number(b));
    let y = rounding::lemma_quotient(rounding::number(c), rounding::number(d));
    rounding::lemma_quotients(
        x,
        y,
        rounding::number(a),
        rounding::number(b),
        rounding::number(c),
        rounding::number(d),
    );
    assert(rounding::comes_to(Step::Div(a, b), x));
    assert(rounding::comes_to(Step::Div(c, d), y));
}

/// The length of a document counts as one, whatever its weight, if it is the mean
/// length.
pub proof fn law_mean_length_counts_as_one<M: Fn(Step) -> u32>(
    calc: M,
    scorer: Bm25TermScorer,
    doc_len: u32,
)
    requires
        rounding::rounds(calc),
        0 < doc_len < 0x100_0000,
        rounding::is_number(scorer.avg_doc_len),
        rounding::number(scorer.avg_doc_len) == doc_len as real,
        rounding::is_number(scorer.b),
        rounding::has_bits(1real - rounding::number(scorer.b)),
    ensures
        rounding::is_number(length_norm(calc, scorer, doc_len)),
        rounding::number(length_norm(calc, scorer, doc_len)) == 1real,
{
    let b = rounding::number(scorer.b);
    let n = doc_len as real;
    rounding::lemma_constants();
    assert(rounding::has_bits(1real));
    assert(rounding::has_bits(b));
    rounding::lemma_count(calc, doc_len as u64);
    assert(doc_len as u64 as real == n);
    assert(1real * n == n) by (nonlinear_arith);
    lemma_length_norm(calc, scorer, doc_len, 1real);
}

/// How the length of a document counts is one less the weight of lengths, and that weight
/// times how often the mean length goes into it.
proof fn lemma_length_norm<M: Fn(Step) -> u32>(
    calc: M,
    scorer: Bm25TermScorer,
    doc_len: u32,
    share: real,
)
    requires
        rounding::rounds(calc),
        doc_len < 0x100_0000,
        rounding::is_number(scorer.avg_doc_len),
        rounding::number(scorer.avg_doc_len) > 0real,
        share * rounding::number(scorer.avg_doc_len) == doc_len as real,
        rounding::is_number(scorer.b),
        rounding::has_bits(share),
        rounding::has_bits(rounding::number(scorer.b) * share),
        rounding::has_bits(1real - rounding::number(scorer.b)),
        rounding::has_bits(
            1real - rounding::number(scorer.b) + rounding::number(scorer.b) * share,
        ),
    ensures
        rounding::is_number(length_norm(calc, scorer, doc_len)),
        rounding::number(length_norm(calc, scorer, doc_len)) == 1real - rounding::number(scorer.b)
            + rounding::number(scorer.b) * share,
{
    let b = rounding::number(scorer.b);
    rounding::lemma_constants();
    rounding::lemma_count(calc, doc_len as u64);
    let length = arithmetic::answer(calc, Step::Count(doc_len as u64));
    rounding::lemma_exact_step(calc, Step::Div(length, scorer.avg_doc_len), share);
    let s = arithmetic::answer(calc, Step::Div(length, scorer.avg_doc_len));
    rounding::lemma_exact_step(calc, Step::Mul(scorer.b, s), b * share);
    let varying = arithmetic::answer(calc, Step::Mul(scorer.b, s));
    rounding::lemma_exact_step(calc, Step::Sub(ONE, scorer.b), 1real - b);
    let fixed = arithmetic::answer(calc, Step::Sub(ONE, scorer.b));
    rounding::lemma_exact_step(calc, Step::Add(fixed, varying), 1real - b + b * share);
}

/// The score of a term that a document of `doc_len` terms has `tf` times, given how rare
/// it is: `idf * tf * (k1 + 1)` over `tf + k1 * norm`, where `norm` is
/// `1 - b + b * doc_len / mean`. It is told of what needs no rounding before that
/// division.
pub proof fn law_term_score_is_bm25<M: Fn(Step) -> u32>(
    calc: M,
    scorer: Bm25TermScorer,
    tf: u32,
    doc_len: u32,
    share: real,
    norm: real,
    score: real,
)
    requires
        rounding::rounds(calc),
        0 < tf < 0x100_0000,
        0 < doc_len < 0x100_0000,
        rounding::is_number(scorer.idf),
        rounding::is_number(scorer.k1),
        rounding::is_number(scorer.b),
        rounding::is_number(scorer.avg_doc_len),
        rounding::number(scorer.avg_doc_len) > 0real,
        share * rounding::number(scorer.avg_doc_len) == doc_len as real,
        norm == 1real - rounding::number(scorer.b) + rounding::number(scorer.b) * share,
        rounding::has_bits(share),
        rounding::has_bits(rounding::number(scorer.b) * share),
        rounding::has_bits(1real - rounding::number(scorer.b)),
        rounding::has_bits(norm),
        rounding::has_bits(rounding::number(scorer.k1) + 1real),
        rounding::has_bits((tf as real) * (rounding::number(scorer.k1) + 1real)),
        rounding::has_bits(
            rounding::number(scorer.idf) * ((tf as real) * (rounding::number(scorer.k1) + 1real)),
        ),
        rounding::has_bits(rounding::number(scorer.k1) * norm),
        rounding::has_bits(tf as real + rounding::number(scorer.k1) * norm),
        tf as real + rounding::number(scorer.k1) * norm != 0real,
        score * (tf as real + rounding::number(scorer.k1) * norm) == rounding::number(scorer.idf)
            * ((tf as real) * (rounding::number(scorer.k1) + 1real)),
    ensures
        rounding::is_rounded(score, scored(calc, scorer, tf, doc_len)),
{
    let k1 = rounding::number(scorer.k1);
    let idf = rounding::number(scorer.idf);
    let n = tf as real;
    rounding::lemma_constants();
    lemma_length_norm(calc, scorer, doc_len, share);
    rounding::lemma_count(calc, tf as u64);
    assert(tf as u64 as real == n);
    let f = arithmetic::answer(calc, Step::Count(tf as u64));
    rounding::lemma_exact_step(calc, Step::Add(scorer.k1, ONE), k1 + 1real);
    let most = arithmetic::answer(calc, Step::Add(scorer.k1, ONE));
    rounding::lemma_exact_step(calc, Step::Mul(f, most), n * (k1 + 1real));
    let gain = arithmetic::answer(calc, Step::Mul(f, most));
    rounding::lemma_exact_step(calc, Step::Mul(scorer.idf, gain), idf * (n * (k1 + 1real)));
    let above = arithmetic::answer(calc, Step::Mul(scorer.idf, gain));
    let counted = length_norm(calc, scorer, doc_len);
    rounding::lemma_exact_step(calc, Step::Mul(scorer.k1, counted), k1 * norm);
    let damped = arithmetic::answer(calc, Step::Mul(scorer.k1, counted));
    rounding::lemma_exact_step(calc, Step::Add(f, damped), n + k1 * norm);
    let below = arithmetic::answer(calc, Step::Add(f, damped));
    assert(rounding::comes_to(Step::Div(above, below), score));
}

/// How rare a term is that `df` of `n` documents have is the logarithm of
/// `(n + 1) / (df + 1/2)`, rounded: one and the quotient of the documents without the
/// term by those with it, with a half more of each. So a term that all documents have
/// is still worth something.
pub proof fn law_rarity_is_told_by_documents<M: Fn(Step) -> u32>(
    calc: M,
    mean: u32,
    n: u64,
    df: u64,
    params: Bm25Params,
    ratio: real,
)
    requires
        rounding::rounds(calc),
        rounding::is_number(mean),
        rounding::number(mean) > 0real,
        0 < df <= n < 0x100_0000,
        rounding::has_bits(n as real - df as real),
        rounding::has_bits(n as real - df as real + rounding::number(HALF)),
        rounding::has_bits(df as real + rounding::number(HALF)),
        ratio * (df as real + rounding::number(HALF)) == n as real - df as real
            + rounding::number(HALF),
        rounding::has_bits(ratio),
    ensures
        scorer_of(calc, mean, n, df, params) is Some,
        exists|z: u32|
            rounding::is_rounded(1real + ratio, z) && scorer_of(calc, mean, n, df, params)->Some_0.idf
                == #[trigger] arithmetic::answer(calc, Step::Ln(z)),
        (1real + ratio) * (df as real + rounding::number(HALF)) == n as real + 1real,
{
    let half = rounding::number(HALF);
    rounding::lemma_constants();
    rounding::lemma_zeros(0);
    rounding::lemma_places(mean, 0);
    rounding::lemma_places(0, mean);
    rounding::lemma_count(calc, n);
    rounding::lemma_count(calc, df);
    let all = arithmetic::answer(calc, Step::Count(n));
    let some = arithmetic::answer(calc, Step::Count(df));
    let x = n as real;
    let y = df as real;
    rounding::lemma_exact_step(calc, Step::Sub(all, some), x - y);
    let rest = arithmetic::answer(calc, Step::Sub(all, some));
    rounding::lemma_exact_step(calc, Step::Add(rest, HALF), x - y + half);
    let above = arithmetic::answer(calc, Step::Add(rest, HALF));
    rounding::lemma_exact_step(calc, Step::Add(some, HALF), y + half);
    let below = arithmetic::answer(calc, Step::Add(some, HALF));
    rounding::lemma_exact_step(calc, Step::Div(above, below), ratio);
    let r = arithmetic::answer(calc, Step::Div(above, below));
    assert(rounding::comes_to(Step::Add(ONE, r), 1real + ratio));
    let z = arithmetic::answer(calc, Step::Add(ONE, r));
    assert(scorer_of(calc, mean, n, df, params)->Some_0.idf == arithmetic::answer(
        calc,
        Step::Ln(z),
    ));
    let d = y + half;
    assert((1real + ratio) * d == d + ratio * d) by (nonlinear_arith);
}

/// A term that a query has once counts for one, whatever the weight of repetitions.
pub proof fn law_single_term_counts_for_one<M: Fn(Step) -> u32>(calc: M, k3: u32)
    requires
        rounding::rounds(calc),
        rounding::is_number(k3),
        rounding::number(k3) > 0real,
        rounding::has_bits(rounding::number(k3) + 1real),
    ensures
        rounding::is_number(query_weight(calc, k3, 1)),
        rounding::number(query_weight(calc, k3, 1)) == 1real,
{
    let k = rounding::number(k3);
    rounding::lemma_constants();
    rounding::lemma_count(calc, 1);
    assert(1u32 as u64 == 1u64);
    assert(1u64 as real == 1real);
    let qtf = arithmetic::answer(calc, Step::Count(1));
    rounding::lemma_exact_step(calc, Step::Add(k3, ONE), k + 1real);
    let most = arithmetic::answer(calc, Step::Add(k3, ONE));
    assert(1real * (k + 1real) == k + 1real) by (nonlinear_arith);
    rounding::lemma_exact_step(calc, Step::Mul(qtf, most), k + 1real);
    let above = arithmetic::answer(calc, Step::Mul(qtf, most));
    rounding::lemma_exact_step(calc, Step::Add(qtf, k3), k + 1real);
    let below = arithmetic::answer(calc, Step::Add(qtf, k3));
    assert(rounding::has_bits(1real));
    rounding::lemma_exact_step(calc, Step::Div(above, below), 1real);
}

/// A term that a query has `frequency` times counts for `frequency * (k3 + 1)` over
/// `frequency + k3`, rounded, where nothing before that division needs rounding.
pub proof fn law_repeated_term_counts_for_more<M: Fn(Step) -> u32>(
    calc: M,
    k3: u32,
    frequency: u32,
    weight: real,
)
    requires
        rounding::rounds(calc),
        rounding::is_number(k3),
        rounding::number(k3) > 0real,
        frequency < 0x100_0000,
        rounding::has_bits(rounding::number(k3) + 1real),
        rounding::has_bits((frequency as real) * (rounding::number(k3) + 1real)),
        rounding::has_bits(frequency as real + rounding::number(k3)),
        weight * (frequency as real + rounding::number(k3)) == (frequency as real) * (
        rounding::number(k3) + 1real),
    ensures
        rounding::is_rounded(weight, query_weight(calc, k3, frequency)),
{
    let k = rounding::number(k3);
    let n = frequency as real;
    rounding::lemma_constants();
    rounding::lemma_count(calc, frequency as u64);
    assert(frequency as u64 as real == n);
    let qtf = arithmetic::answer(calc, Step::Count(frequency as u64));
    rounding::lemma_exact_step(calc, Step::Add(k3, ONE), k + 1real);
    let most = arithmetic::answer(calc, Step::Add(k3, ONE));
    rounding::lemma_exact_step(calc, Step::Mul(qtf, most), n * (k + 1real));
    let above = arithmetic::answer(calc, Step::Mul(qtf, most));
    rounding::lemma_exact_step(calc, Step::Add(qtf, k3), n + k);
    let below = arithmetic::answer(calc, Step::Add(qtf, k3));
    assert(rounding::comes_to(Step::Div(above, below), weight));
}

/// The weights that are accepted are those numbers of which the first and the last are
/// above zero and the other is between zero and one.
pub proof fn law_weights_are_in_range(p: Bm25Params)
    ensures
        params_ok(p) <==> {
            &&& rounding::is_number(p.k1) && rounding::number(p.k1) > 0real
            &&& rounding::is_number(p.b) && 0real <= rounding::number(p.b) <= 1real
            &&& rounding::is_number(p.k3) && rounding::number(p.k3) > 0real
        },
{
    rounding::lemma_constants();
    rounding::lemma_zeros(0);
    if rounding::is_number(p.k1) {
        rounding::lemma_places(0, p.k1);
    }
    if rounding::is_number(p.b) {
        rounding::lemma_places(p.b, 0);
        rounding::lemma_places(ONE, p.b);
    }
    if rounding::is_number(p.k3) {
        rounding::lemma_places(0, p.k3);
    }
}

/// The entries of a term leave the scores of all documents without an entry as they were.
/// Where a document has one entry among them, what it contributes is added to its score
/// if that is above zero, and its score stays as it was otherwise.
pub proof fn law_entries_add_to_scores<M: Fn(Step) -> u32>(
    calc: M,
    scores: Map<IdView, u32>,
    query: TermQuery,
    ps: Seq<index_data::PostingView>,
    n: int,
    id: IdView,
)
    requires
        0 <= n <= ps.len(),
    ensures
        (forall|i: int| 0 <= i < n ==> (#[trigger] ps[i]).id != id) ==> posted(
            calc,
            scores,
            query,
            ps,
            n,
        ).dom().contains(id) == scores.dom().contains(id) && score_so_far(
            posted(calc, scores, query, ps, n),
            id,
        ) == score_so_far(scores, id),
        forall|i: int|
            0 <= i < n && (#[trigger] ps[i]).id == id && (forall|j: int|
                0 <= j < n && j != i ==> (#[trigger] ps[j]).id != id) ==> {
                let now = posted(calc, scores, query, ps, n);
                let more = contribution(calc, query, ps[i]);
                if vector::beats(more, 0) {
                    now.dom().contains(id) && now[id] == arithmetic::answer(
                        calc,
                        Step::Add(score_so_far(scores, id), more),
                    )
                } else {
                    now.dom().contains(id) == scores.dom().contains(id) && score_so_far(now, id)
                        == score_so_far(scores, id)
                }
            },
    decreases n,
{
    if n > 0 {
        law_entries_add_to_scores(calc, scores, query, ps, n - 1, id);
        let last = ps[n - 1];
        if last.id == id {
            if forall|j: int| 0 <= j < n - 1 ==> (#[trigger] ps[j]).id != id {
                assert(score_so_far(posted(calc, scores, query, ps, n - 1), id) == score_so_far(
                    scores,
                    id,
                ));
            }
        }
    }
}

/// Hits come best first: the numbers that their scores stand for never rise, and where
/// two have the same bits the keys rise. Every scored document is among them once.
pub proof fn law_text_hits_come_best_first(
    hits: Seq<TextHit>,
    scores: Map<IdView, u32>,
    i: int,
    j: int,
)
    requires
        ranks_scores(hits, scores),
        0 <= i < j < hits.len(),
    ensures
        rounding::is_number(hits[i].score) && rounding::is_number(hits[j].score)
            ==> rounding::number(hits[i].score) >= rounding::number(hits[j].score),
        hits[i].score == hits[j].score ==> value::id_order(hits[i].id@, hits[j].id@)
            != Order::Greater,
{
    assert(BestText.precedes(hits[i], hits[j]));
    if rounding::is_number(hits[i].score) && rounding::is_number(hits[j].score) {
        rounding::lemma_places(hits[i].score, hits[j].score);
    }
}

/// Terms are always scored with weights that the ranking function is defined for, and with
/// the given ones wherever it is defined for these.
pub proof fn law_weights_used_are_usable(p: Bm25Params)
    ensures
        params_ok(usable_params(p)),
        params_ok(p) ==> usable_params(p) == p,
        usable_params(usable_params(p)) == usable_params(p),
{
}

} // verus!
