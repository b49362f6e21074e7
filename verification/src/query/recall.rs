//! How many of the nearest vectors a vector index finds, measured on a sample of
//! the stored vectors.

use vstd::prelude::*;
use vstd::string::*;
use vstd::utf8::*;

use crate::query::nearest::misfit;
use crate::phrase::say;
use crate::doc;
use crate::doc::encode_id;
use crate::documents;
use crate::error::{invalid_query, Error};
use crate::hash;
use crate::hash::{fnv1a_continue, splitmix64, FNV_OFFSET};
use crate::manifest::VectorIndexMeta;
use crate::query;
use crate::query::execute::{ApproxVectorQuery, ExactVectorQuery, Query};
use crate::query::nearest;
use crate::query::nearest::vector_column_schema;
use crate::query::{matches_filter, FilterExpr, FilterView, RangeBound};
use crate::schema::{DistanceMetric, Schema};
use crate::sorted::SortedMap;
use crate::sorting;
use crate::sorting::{sort, Comparison, Ranking};
use crate::textmap::TextMap;
use crate::value;
use crate::value::{copy_value, Document, Id, IdView};
use crate::vector;
use crate::vector::index::copy_vector;
use crate::vector::numbers;
use crate::vector::numbers::{recall_at, vector_to_f32};
use crate::vector::search;

verus! {

/// How many vectors are sampled unless a request says otherwise.
pub const DEFAULT_RECALL_NUM: usize = 25;

/// How many nearest vectors are compared unless a request says otherwise.
pub const DEFAULT_RECALL_TOP_K: usize = 10;

/// Asks for the recall of a vector index.
#[derive(Debug)]
pub struct RecallRequest {
    pub num: usize,
    pub top_k: usize,
    pub column: Option<String>,
    pub probes: Option<usize>,
    pub metric: Option<DistanceMetric>,
    pub filter: Option<FilterExpr>,
}

impl Default for RecallRequest {
    fn default() -> (r: RecallRequest)
        ensures
            r.num == DEFAULT_RECALL_NUM,
            r.top_k == DEFAULT_RECALL_TOP_K,
            r.column is None,
            r.probes is None,
            r.metric is None,
            r.filter is None,
    {
        RecallRequest {
            num: DEFAULT_RECALL_NUM,
            top_k: DEFAULT_RECALL_TOP_K,
            column: None,
            probes: None,
            metric: None,
            filter: None,
        }
    }
}

/// What a request for recall is about.
#[derive(Clone, Debug)]
pub struct RecallPlan {
    pub column: String,
    pub dim: usize,
    pub metric: DistanceMetric,
}

/// The column that a request is about: the one it names, or else the first that
/// has a vector index.
pub open spec fn recall_column(request: RecallRequest, indexes: Seq<Seq<char>>) -> Option<
    Seq<char>,
> {
    match request.column {
        Some(column) => Some(column@),
        None => if indexes.len() > 0 {
            Some(indexes[0])
        } else {
            None
        },
    }
}

/// A request that can be met.
pub open spec fn recall_ok(
    request: RecallRequest,
    indexes: TextMap<VectorIndexMeta>,
    schema: Schema,
) -> bool {
    &&& request.num > 0
    &&& request.top_k > 0
    &&& recall_column(request, indexes.keys()) matches Some(column) && {
        &&& indexes.map().dom().contains(column)
        &&& nearest::vector_column(schema.columns.map(), column) is Some
    }
}

/// Why a request cannot be met.
pub open spec fn recall_complaint(
    request: RecallRequest,
    indexes: TextMap<VectorIndexMeta>,
    schema: Schema,
) -> Seq<char> {
    if request.num == 0 {
        "recall num must be greater than zero"@
    } else if request.top_k == 0 {
        "recall top_k must be greater than zero"@
    } else {
        match recall_column(request, indexes.keys()) {
            None => "recall requires a published vector index; run flush or compact first"@,
            Some(column) => if !indexes.map().dom().contains(column) {
                "recall requires a published vector index for '"@ + column
                    + "'; run flush or compact first"@
            } else {
                nearest::column_complaint(schema.columns.map(), column)
            },
        }
    }
}

/// Refuses a request that asks for nothing.
pub fn check_recall_request(request: &RecallRequest) -> (r: Result<(), Error>)
    ensures
        r is Ok <==> request.num > 0 && request.top_k > 0,
        r is Err ==> r->Err_0 is InvalidQuery && r->Err_0->InvalidQuery_0@ == (if request.num == 0 {
            "recall num must be greater than zero"@
        } else {
            "recall top_k must be greater than zero"@
        }),
{
    if request.num == 0 {
        return Err(invalid_query("recall num must be greater than zero"));
    }
    if request.top_k == 0 {
        return Err(invalid_query("recall top_k must be greater than zero"));
    }
    Ok(())
}

/// What a request is about. It must ask for something, and its column must have a
/// vector index.
pub fn recall_plan(
    request: &RecallRequest,
    indexes: &TextMap<VectorIndexMeta>,
    schema: &Schema,
) -> (r: Result<RecallPlan, Error>)
    requires
        indexes.wf(),
        schema.columns.wf(),
    ensures
        r is Ok <==> recall_ok(*request, *indexes, *schema),
        r is Err ==> r->Err_0 is InvalidQuery && r->Err_0->InvalidQuery_0@ == recall_complaint(
            *request,
            *indexes,
            *schema,
        ),
        r matches Ok(plan) ==> {
            let column = recall_column(*request, indexes.keys())->Some_0;
            let found = nearest::vector_column(schema.columns.map(), column)->Some_0;
            &&& plan.column@ == column
            &&& plan.dim == found.0
            &&& plan.metric == (match request.metric {
                Some(m) => m,
                None => found.1,
            })
        },
{
    match check_recall_request(request) {
        Ok(_) => {},
        Err(e) => {
            return Err(e);
        },
    }
    let column: String = match &request.column {
        Some(column) => column.clone(),
        None => if indexes.len() > 0 {
            indexes.key_at(0).clone()
        } else {
            return Err(
                invalid_query(
                    "recall requires a published vector index; run flush or compact first",
                ),
            );
        },
    };
    if !indexes.contains_key(column.as_str()) {
        return Err(
            Error::InvalidQuery(
                say("recall requires a published vector index for '").and(column.as_str()).and(
                    "'; run flush or compact first",
                ).done(),
            ),
        );
    }
    match vector_column_schema(schema, column.as_str()) {
        Ok((dim, metric)) => Ok(
            RecallPlan {
                column,
                dim,
                metric: match request.metric {
                    Some(m) => m,
                    None => metric,
                },
            },
        ),
        Err(e) => Err(e),
    }
}

// ---------------------------------------------------------------------------
// The sample
// ---------------------------------------------------------------------------

/// The number by which a document is sampled.
pub open spec fn sample_key(id: IdView, column: Seq<char>) -> u64 {
    hash::splitmix64_of(hash::fnv1a(FNV_OFFSET, encode_utf8(column) + doc::id_bytes(id)))
}

/// The number by which a document is sampled: it depends on the key of the document
/// and the column alone.
pub fn stable_sample_key(id: &Id, column: &str) -> (r: u64)
    ensures
        r == sample_key(id@, column@),
{
    let bytes = encode_id(id);
    let h = fnv1a_continue(FNV_OFFSET, column.as_bytes());
    proof {
        hash::lemma_fnv1a_concat(FNV_OFFSET, encode_utf8(column@), doc::id_bytes(id@));
    }
    splitmix64(fnv1a_continue(h, bytes.as_slice()))
}

/// A stored vector that can be sampled.
#[derive(Clone, Debug)]
pub struct RecallCandidate {
    pub id: Id,
    pub vector: Vec<u32>,
    pub sample_key: u64,
}

/// The documents among the first `n` that meet a filter and have a vector.
pub open spec fn sampled_from(
    ids: Seq<IdView>,
    docs: documents::Docs,
    column: Seq<char>,
    filter: Option<&FilterExpr>,
    n: int,
) -> Seq<IdView>
    decreases n,
{
    if n <= 0 {
        Seq::empty()
    } else {
        let front = sampled_from(ids, docs, column, filter, n - 1);
        let d = docs[ids[n - 1]];
        if query::accepts(filter, d) && d.vectors.dom().contains(column) {
            front.push(ids[n - 1])
        } else {
            front
        }
    }
}

/// A candidate for a document.
pub open spec fn is_candidate(
    docs: documents::Docs,
    column: Seq<char>,
    dim: usize,
    id: IdView,
    c: RecallCandidate,
) -> bool {
    &&& c.id@ == id
    &&& numbers::is_widened(docs[id].vectors[column], c.vector@)
    &&& c.vector@.len() == dim
    &&& c.sample_key == sample_key(id, column)
}

/// The vectors that can be sampled: those of the documents that meet a filter.
pub fn recall_candidates(
    docs: SortedMap<Id, Document>,
    column: &str,
    dim: usize,
    filter: Option<&FilterExpr>,
) -> (r: Result<Vec<RecallCandidate>, Error>)
    requires
        documents::docs_wf(docs),
    ensures
        ({
            let all = documents::docs_view(docs);
            let ids = sampled_from(docs.keys(), all, column@, filter, docs.keys().len() as int);
            match r {
                Ok(out) => {
                    &&& out@.len() == ids.len()
                    &&& forall|i: int|
                        0 <= i < ids.len() ==> is_candidate(
                            all,
                            column@,
                            dim,
                            ids[i],
                            #[trigger] out@[i],
                        )
                },
                Err(e) => e is Corrupt && exists|i: int|
                    0 <= i < ids.len() && value::vector_dim(
                        all[#[trigger] ids[i]].vectors[column@],
                    ) != dim,
            }
        }),
{
    let ghost ids = docs.keys();
    let ghost all = documents::docs_view(docs);
    let n = docs.len();
    let mut out: Vec<RecallCandidate> = Vec::new();
    let mut i: usize = 0;
    while i < n
        invariant
            i <= n,
            n == ids.len(),
            ids == docs.keys(),
            all == documents::docs_view(docs),
            documents::docs_wf(docs),
            out@.len() == sampled_from(ids, all, column@, filter, i as int).len(),
            forall|k: int|
                0 <= k < out@.len() ==> is_candidate(
                    all,
                    column@,
                    dim,
                    sampled_from(ids, all, column@, filter, i as int)[k],
                    #[trigger] out@[k],
                ),
        decreases n - i,
    {
        let ghost front = sampled_from(ids, all, column@, filter, i as int);
        proof {
            docs.lemma_position(i as int);
            assert(docs.map()[ids[i as int]].wf());
        }
        let document = docs.value_at(i);
        assert(all[ids[i as int]] == document@);
        if matches_filter(filter, document) {
            if let Some(stored) = document.vectors.get(column) {
                let wide = vector_to_f32(stored);
                proof {
                    assert(sampled_from(ids, all, column@, filter, i + 1) == front.push(
                        ids[i as int],
                    ));
                }
                if wide.len() != dim {
                    proof {
                        lemma_sampled_prefix(ids, all, column@, filter, i + 1, n as int);
                        let every = sampled_from(ids, all, column@, filter, n as int);
                        assert(every[front.len() as int] == ids[i as int]);
                    }
                    return Err(misfit(column, docs.key_at(i), wide.len(), dim));
                }
                let ghost before = out@;
                out.push(
                    RecallCandidate {
                        id: crate::value::copy_id(docs.key_at(i)),
                        vector: wide,
                        sample_key: stable_sample_key(docs.key_at(i), column),
                    },
                );
                assert forall|k: int| 0 <= k < out@.len() implies is_candidate(
                    all,
                    column@,
                    dim,
                    sampled_from(ids, all, column@, filter, i + 1)[k],
                    #[trigger] out@[k],
                ) by {
                    if k < before.len() {
                        assert(out@[k] == before[k]);
                    }
                }
            }
        }
        i = i + 1;
    }
    Ok(out)
}

proof fn lemma_sampled_prefix(
    ids: Seq<IdView>,
    docs: documents::Docs,
    column: Seq<char>,
    filter: Option<&FilterExpr>,
    i: int,
    n: int,
)
    requires
        0 <= i <= n,
    ensures
        sampled_from(ids, docs, column, filter, i).len() <= sampled_from(
            ids,
            docs,
            column,
            filter,
            n,
        ).len(),
        forall|k: int|
            0 <= k < sampled_from(ids, docs, column, filter, i).len() ==> sampled_from(
                ids,
                docs,
                column,
                filter,
                i,
            )[k] == #[trigger] sampled_from(ids, docs, column, filter, n)[k],
    decreases n - i,
{
    if i < n {
        lemma_sampled_prefix(ids, docs, column, filter, i, n - 1);
    }
}

/// The order in which vectors are sampled.
pub struct BySampleKey;

impl Comparison<RecallCandidate> for BySampleKey {
    open spec fn ranks(&self, a: RecallCandidate) -> bool {
        true
    }

    open spec fn precedes(&self, a: RecallCandidate, b: RecallCandidate) -> bool {
        a.sample_key <= b.sample_key
    }

    proof fn lemma_total(&self, a: RecallCandidate, b: RecallCandidate) {
    }

    fn in_order(&self, a: &RecallCandidate, b: &RecallCandidate) -> (r: bool) {
        a.sample_key <= b.sample_key
    }
}

impl Ranking<RecallCandidate> for BySampleKey {
    proof fn lemma_transitive(&self, a: RecallCandidate, b: RecallCandidate, c: RecallCandidate) {
    }
}

/// A sample of some candidates: the first `num` by their numbers, and of equal numbers
/// those that come first.
pub open spec fn is_sample(
    candidates: Seq<RecallCandidate>,
    num: int,
    ranked: Seq<RecallCandidate>,
    out: Seq<RecallCandidate>,
) -> bool {
    &&& ranked.to_multiset() == candidates.to_multiset()
    &&& sorting::is_sorted(ranked, BySampleKey)
    &&& sorting::keeps_ties(candidates, ranked, BySampleKey)
    &&& out == ranked.take(search::smaller(num, ranked.len() as int))
}

/// `out` can be a sample of some candidates.
pub open spec fn can_sample(
    candidates: Seq<RecallCandidate>,
    num: int,
    out: Seq<RecallCandidate>,
) -> bool {
    exists|ranked: Seq<RecallCandidate>| #[trigger] is_sample(candidates, num, ranked, out)
}

/// A sample of some candidates. Without candidates there is none.
pub fn recall_sample_of(column: &str, candidates: Vec<RecallCandidate>, num: usize) -> (r: Result<
    Vec<RecallCandidate>,
    Error,
>)
    ensures
        match r {
            Ok(out) => candidates@.len() > 0 && can_sample(candidates@, num as int, out@),
            Err(e) => candidates@.len() == 0 && e is InvalidQuery && e->InvalidQuery_0@
                == "recall column '"@ + column@ + "' has no stored vectors"@,
        },
{
    if candidates.len() == 0 {
        return Err(Error::InvalidQuery(
                say("recall column '").and(column).and("' has no stored vectors").done(),
            ));
    }
    let mut out = sort(candidates, &BySampleKey);
    let ghost ranked = out@;
    if num < out.len() {
        out.truncate(num);
    }
    proof {
        assert(out@ =~= ranked.take(search::smaller(num as int, ranked.len() as int)));
        assert(is_sample(candidates@, num as int, ranked, out@));
    }
    Ok(out)
}

// ---------------------------------------------------------------------------
// The queries
// ---------------------------------------------------------------------------

fn copy_bound(b: &Option<RangeBound>) -> (r: Option<RangeBound>)
    ensures
        query::optional_bound_view(r) == query::optional_bound_view(*b),
{
    match b {
        Some(RangeBound::Included(v)) => Some(RangeBound::Included(copy_value(v))),
        Some(RangeBound::Excluded(v)) => Some(RangeBound::Excluded(copy_value(v))),
        None => None,
    }
}

/// A filter equal to `f`.
pub fn copy_filter(f: &FilterExpr) -> (r: FilterExpr)
    ensures
        r@ == f@,
    decreases f,
{
    match f {
        FilterExpr::Eq { column, value } => FilterExpr::Eq {
            column: column.clone(),
            value: copy_value(value),
        },
        FilterExpr::Range { column, lower, upper } => FilterExpr::Range {
            column: column.clone(),
            lower: copy_bound(lower),
            upper: copy_bound(upper),
        },
        FilterExpr::And(filters) => {
            let mut out: Vec<FilterExpr> = Vec::new();
            let mut i: usize = 0;
            while i < filters.len()
                invariant
                    i <= filters@.len(),
                    out@.len() == i,
                    *f == FilterExpr::And(*filters),
                    forall|j: int|
                        0 <= j < i ==> query::filter_view(#[trigger] out@[j])
                            == query::filter_view(filters@[j]),
                decreases filters@.len() - i,
            {
                assert(f->And_0@[i as int] == filters@[i as int]);
                assert(decreases_to!(*f => f->And_0@[i as int]));
                let item = copy_filter(&filters[i]);
                out.push(item);
                i = i + 1;
            }
            let r = FilterExpr::And(out);
            assert(r@->And_0 =~= f@->And_0);
            r
        },
        FilterExpr::Or(filters) => {
            let mut out: Vec<FilterExpr> = Vec::new();
            let mut i: usize = 0;
            while i < filters.len()
                invariant
                    i <= filters@.len(),
                    out@.len() == i,
                    *f == FilterExpr::Or(*filters),
                    forall|j: int|
                        0 <= j < i ==> query::filter_view(#[trigger] out@[j])
                            == query::filter_view(filters@[j]),
                decreases filters@.len() - i,
            {
                assert(f->Or_0@[i as int] == filters@[i as int]);
                assert(decreases_to!(*f => f->Or_0@[i as int]));
                let item = copy_filter(&filters[i]);
                out.push(item);
                i = i + 1;
            }
            let r = FilterExpr::Or(out);
            assert(r@->Or_0 =~= f@->Or_0);
            r
        },
        FilterExpr::Not(inner) => FilterExpr::Not(Box::new(copy_filter(inner))),
    }
}

pub open spec fn optional_filter_view(f: Option<FilterExpr>) -> Option<FilterView> {
    match f {
        Some(f) => Some(f@),
        None => None,
    }
}

fn copy_optional_filter(f: &Option<FilterExpr>) -> (r: Option<FilterExpr>)
    ensures
        optional_filter_view(r) == optional_filter_view(*f),
{
    match f {
        Some(f) => Some(copy_filter(f)),
        None => None,
    }
}

/// A query has the filter of a request and nothing else but a vector part.
pub open spec fn asks_only(q: Query, request: RecallRequest) -> bool {
    &&& optional_filter_view(q.filter) == optional_filter_view(request.filter)
    &&& q.order_by is None
    &&& q.limit is None
    &&& q.aggregates@.len() == 0
}

/// The two queries for a sampled vector: one that scores every candidate, and one
/// that asks the index.
pub fn recall_queries(
    request: &RecallRequest,
    plan: &RecallPlan,
    candidate: &RecallCandidate,
) -> (r: (Query, Query))
    ensures
        asks_only(r.0, *request),
        r.0.approx_vector is None,
        r.0.exact_vector matches Some(q) && q.column@ == plan.column@ && q.vector@
            == candidate.vector@ && q.k == request.top_k && q.metric == Some(plan.metric),
        asks_only(r.1, *request),
        r.1.exact_vector is None,
        r.1.approx_vector matches Some(q) && q.column@ == plan.column@ && q.vector@
            == candidate.vector@ && q.k == request.top_k && q.probes == request.probes && q.metric
            == Some(plan.metric),
{
    let exact = Query {
        filter: copy_optional_filter(&request.filter),
        order_by: None,
        limit: None,
        aggregates: Vec::new(),
        exact_vector: Some(
            ExactVectorQuery {
                column: plan.column.clone(),
                vector: copy_vector(&candidate.vector),
                k: request.top_k,
                metric: Some(plan.metric),
            },
        ),
        approx_vector: None,
    };
    let ann = Query {
        filter: copy_optional_filter(&request.filter),
        order_by: None,
        limit: None,
        aggregates: Vec::new(),
        exact_vector: None,
        approx_vector: Some(
            ApproxVectorQuery {
                column: plan.column.clone(),
                vector: copy_vector(&candidate.vector),
                k: request.top_k,
                probes: request.probes,
                metric: Some(plan.metric),
            },
        ),
    };
    (exact, ann)
}

// ---------------------------------------------------------------------------
// The result
// ---------------------------------------------------------------------------

/// What was found for a sampled vector. The recall is a fraction.
#[derive(Debug)]
pub struct RecallSample {
    pub query_id: Id,
    pub recall: (usize, usize),
    pub exhaustive_count: usize,
    pub ann_count: usize,
    pub exhaustive_ids: Vec<Id>,
    pub ann_ids: Vec<Id>,
}

/// What was found for a sampled vector.
pub fn recall_sample(query_id: Id, exhaustive_ids: Vec<Id>, ann_ids: Vec<Id>, top_k: usize) -> (r:
    RecallSample)
    ensures
        r.query_id == query_id,
        (r.recall.0 as int, r.recall.1 as int) == numbers::recall_of(
            numbers::ids_view(exhaustive_ids@),
            numbers::ids_view(ann_ids@),
            top_k as int,
        ),
        r.recall.1 >= 1,
        r.exhaustive_count == exhaustive_ids@.len(),
        r.ann_count == ann_ids@.len(),
        r.exhaustive_ids == exhaustive_ids,
        r.ann_ids == ann_ids,
{
    let recall = recall_at(&exhaustive_ids, &ann_ids, top_k);
    RecallSample {
        query_id,
        recall,
        exhaustive_count: exhaustive_ids.len(),
        ann_count: ann_ids.len(),
        exhaustive_ids,
        ann_ids,
    }
}

/// How many documents the exact queries of some samples found together, and how
/// many the others.
pub open spec fn counts_of(samples: Seq<RecallSample>) -> (int, int)
    decreases samples.len(),
{
    if samples.len() == 0 {
        (0, 0)
    } else {
        let front = counts_of(samples.drop_last());
        (front.0 + samples.last().exhaustive_count, front.1 + samples.last().ann_count)
    }
}

/// How many documents the queries of some samples found together.
pub fn recall_counts(samples: &Vec<RecallSample>) -> (r: (u128, u128))
    ensures
        (r.0 as int, r.1 as int) == counts_of(samples@),
{
    let mut exhaustive: u128 = 0;
    let mut ann: u128 = 0;
    let mut i: usize = 0;
    assert(samples@.take(0) =~= Seq::empty());
    while i < samples.len()
        invariant
            i <= samples@.len(),
            (exhaustive as int, ann as int) == counts_of(samples@.take(i as int)),
            exhaustive <= i * 0xffff_ffff_ffff_ffff,
            ann <= i * 0xffff_ffff_ffff_ffff,
        decreases samples@.len() - i,
    {
        proof {
            assert(samples@.take(i + 1).drop_last() =~= samples@.take(i as int));
            let k = i as int;
            assert(k * 0xffff_ffff_ffff_ffff + 0xffff_ffff_ffff_ffff == (k + 1)
                * 0xffff_ffff_ffff_ffff) by (nonlinear_arith);
            assert((k + 1) * 0xffff_ffff_ffff_ffff <= 0xffff_ffff_ffff_ffff
                * 0xffff_ffff_ffff_ffff) by (nonlinear_arith)
                requires
                    k + 1 <= 0xffff_ffff_ffff_ffff,
            ;
        }
        exhaustive = exhaustive + samples[i].exhaustive_count as u128;
        ann = ann + samples[i].ann_count as u128;
        i = i + 1;
    }
    assert(samples@.take(i as int) =~= samples@);
    (exhaustive, ann)
}

/// What can be sampled are the documents that meet the filter and have a vector in the
/// column: all of these, and no other.
pub proof fn law_samples_come_from_what_is_searched(
    ids: Seq<IdView>,
    docs: documents::Docs,
    column: Seq<char>,
    filter: Option<&FilterExpr>,
    n: int,
    id: IdView,
)
    requires
        0 <= n <= ids.len(),
    ensures
        sampled_from(ids, docs, column, filter, n).contains(id) <==> ids.take(n).contains(id)
            && query::accepts(filter, docs[id]) && docs[id].vectors.dom().contains(column),
    decreases n,
{
    if n > 0 {
        law_samples_come_from_what_is_searched(ids, docs, column, filter, n - 1, id);
        let front = sampled_from(ids, docs, column, filter, n - 1);
        let all = sampled_from(ids, docs, column, filter, n);
        assert(ids.take(n).drop_last() =~= ids.take(n - 1));
        assert(ids.take(n)[n - 1] == ids[n - 1]);
        if ids.take(n).contains(id) {
            let i = ids.take(n).index_of(id);
            if i < n - 1 {
                assert(ids.take(n - 1)[i] == id);
            }
        }
        if ids.take(n - 1).contains(id) {
            let i = ids.take(n - 1).index_of(id);
            assert(ids.take(n)[i] == id);
        }
        if all.contains(id) {
            let k = all.index_of(id);
            if k < front.len() {
                assert(front[k] == id);
            }
        }
        if front.contains(id) {
            let k = front.index_of(id);
            assert(all[k] == id);
        } else if ids[n - 1] == id && all.len() > front.len() {
            assert(all[front.len() as int] == id);
        }
    } else {
        assert(ids.take(0) =~= Seq::empty());
    }
}

/// A sample has as many vectors as were asked for, or all where there are fewer, and none
/// that was left out comes before one that was taken.
pub proof fn law_sample_takes_the_lowest_numbers(
    candidates: Seq<RecallCandidate>,
    num: int,
    ranked: Seq<RecallCandidate>,
    out: Seq<RecallCandidate>,
    i: int,
    j: int,
)
    requires
        is_sample(candidates, num, ranked, out),
        0 <= num,
        0 <= i < out.len(),
        out.len() <= j < ranked.len(),
    ensures
        out.len() == num || out.len() == candidates.len(),
        out.len() <= num,
        out[i].sample_key <= ranked[j].sample_key,
        candidates.contains(out[i]),
        candidates.contains(ranked[j]),
{
    broadcast use vstd::seq_lib::group_to_multiset_ensures;

    assert(ranked.len() == ranked.to_multiset().len());
    assert(candidates.len() == candidates.to_multiset().len());
    assert(out[i] == ranked[i]);
    assert(ranked.to_multiset().count(ranked[i]) > 0);
    assert(ranked.to_multiset().count(ranked[j]) > 0);
    assert(BySampleKey.precedes(ranked[i], ranked[j]));
}

/// What the samples found adds up.
pub proof fn law_sample_counts_add_up(a: Seq<RecallSample>, b: Seq<RecallSample>, one: RecallSample)
    ensures
        counts_of(a + b).0 == counts_of(a).0 + counts_of(b).0,
        counts_of(a + b).1 == counts_of(a).1 + counts_of(b).1,
        counts_of(seq![one]) == (one.exhaustive_count as int, one.ann_count as int),
    decreases b.len(),
{
    if b.len() == 0 {
        assert(a + b =~= a);
    } else {
        law_sample_counts_add_up(a, b.drop_last(), one);
        assert((a + b).drop_last() =~= a + b.drop_last());
    }
    assert(seq![one].drop_last() =~= Seq::empty());
    reveal_with_fuel(counts_of, 2);
}

/// A request is about the column that it names, and one that names none about the first
/// that has an index.
pub proof fn law_named_column_is_measured(
    named: RecallRequest,
    unnamed: RecallRequest,
    indexes: Seq<Seq<char>>,
    first: Seq<char>,
)
    requires
        named.column is Some,
        unnamed.column is None,
    ensures
        recall_column(named, indexes) == Some(named.column->Some_0@),
        recall_column(unnamed, seq![first] + indexes) == Some(first),
        recall_column(unnamed, Seq::empty()) is None,
{
    assert((seq![first] + indexes)[0] == first);
}

} // verus!
