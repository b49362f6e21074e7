//! Answering a query from a vector index: what the index and its appended
//! segments find, with what has been written since in its place.

use vstd::prelude::*;

use crate::documents;
use crate::error::Error;
use crate::query;
use crate::query::execute;
use crate::query::execute::{ApproxVectorQuery, RowView};
use crate::query::native;
use crate::query::native::native_filter_mask;
use crate::query::nearest;
use crate::query::nearest::{best_rows, keep_count, score_rows};
use crate::query::{matches_filter, FilterExpr, QueryRow};
use crate::schema::DistanceMetric;
use crate::seqs;
use crate::sorted::{SortedMap, SortedSet};
use crate::sorting::reversed;
use crate::value::{copy_document, copy_id, Document, Id, IdView};
use crate::vector;
use crate::vector::index;
use crate::vector::mask::VectorFilterMask;
use crate::vector::search;
use crate::vector::upkeep;
use crate::vector::upkeep::live_in;
use crate::vector::{VectorHit, VectorIndex, VectorVersionMap};

verus! {

/// What a vector index and its segments answer.
#[derive(Debug)]
pub enum AnnSearch {
    /// The filter is none that the index can answer.
    Unanswerable,
    /// The hits in force, and the documents that the answer needs.
    Found { live: Vec<VectorHit>, needed: SortedSet<Id> },
}

/// The index can answer a filter, if there is one.
pub open spec fn can_answer(filter: Option<&FilterExpr>) -> bool {
    filter matches Some(f) ==> native::answerable(f@)
}

/// A mask is what a segment says of a filter, if there is one.
pub open spec fn masks(
    segment: VectorIndex,
    filter: Option<&FilterExpr>,
    mask: Option<&VectorFilterMask>,
) -> bool {
    match (filter, mask) {
        (None, None) => true,
        (Some(f), Some(m)) => native::is_mask_for(segment, f@, *m),
        _ => false,
    }
}

/// A search of a segment, under its mask, can find these hits.
pub open spec fn segment_finds<F: Fn(&Vec<u32>, &Vec<u32>, DistanceMetric) -> Result<u32, Error>>(
    score: F,
    q: ApproxVectorQuery,
    metric: DistanceMetric,
    filter: Option<&FilterExpr>,
    segment: VectorIndex,
    mask: Option<&VectorFilterMask>,
    hits: Seq<VectorHit>,
) -> bool {
    &&& masks(segment, filter, mask)
    &&& vector::has_own_score(score, q.vector, metric)
    &&& search::can_find(
        score,
        q.vector,
        segment,
        metric,
        mask,
        search::probe_count(q.probes, segment.centroids@.len() as int),
        usize::MAX as int,
        hits,
    )
}

/// A segment can find these hits.
pub open spec fn segment_can_find<
    F: Fn(&Vec<u32>, &Vec<u32>, DistanceMetric) -> Result<u32, Error>,
>(
    score: F,
    q: ApproxVectorQuery,
    metric: DistanceMetric,
    filter: Option<&FilterExpr>,
    segment: VectorIndex,
    hits: Seq<VectorHit>,
) -> bool {
    exists|mask: Option<&VectorFilterMask>| #[trigger]
        segment_finds(score, q, metric, filter, segment, mask, hits)
}

/// The hits of an index followed by those of its segments.
pub open spec fn all_find<F: Fn(&Vec<u32>, &Vec<u32>, DistanceMetric) -> Result<u32, Error>>(
    score: F,
    q: ApproxVectorQuery,
    metric: DistanceMetric,
    filter: Option<&FilterExpr>,
    base: VectorIndex,
    appends: Seq<VectorIndex>,
    found: Seq<Seq<VectorHit>>,
) -> bool {
    &&& found.len() == appends.len() + 1
    &&& segment_can_find(score, q, metric, filter, base, found[0])
    &&& forall|i: int|
        0 <= i < appends.len() ==> #[trigger] segment_can_find(
            score,
            q,
            metric,
            filter,
            appends[i],
            found[i + 1],
        )
}

/// A hit that counts: its document has not been written since, and its version is
/// in force.
pub open spec fn is_current(
    touched: Set<IdView>,
    versions: Option<&VectorVersionMap>,
    hit: VectorHit,
) -> bool {
    !touched.contains(hit.id@) && upkeep::in_force(versions, hit.id@, hit.version)
}

/// The hits that count.
pub open spec fn current_hits(
    found: Seq<Seq<VectorHit>>,
    touched: Set<IdView>,
    versions: Option<&VectorVersionMap>,
) -> Seq<VectorHit>
    decreases found.len(),
{
    if found.len() == 0 {
        Seq::empty()
    } else {
        current_hits(found.drop_last(), touched, versions) + seqs::kept(
            found.last(),
            |h: VectorHit| is_current(touched, versions, h),
        )
    }
}

/// What a search of the index and its segments can answer.
pub open spec fn ann_finds<F: Fn(&Vec<u32>, &Vec<u32>, DistanceMetric) -> Result<u32, Error>>(
    score: F,
    q: ApproxVectorQuery,
    metric: DistanceMetric,
    filter: Option<&FilterExpr>,
    base: VectorIndex,
    appends: Seq<VectorIndex>,
    versions: Option<&VectorVersionMap>,
    touched: Set<IdView>,
    live: Seq<VectorHit>,
) -> bool {
    exists|found: Seq<Seq<VectorHit>>| #[trigger]
        all_find(score, q, metric, filter, base, appends, found) && live == current_hits(
            found,
            touched,
            versions,
        )
}

/// A search of a segment, through a mask for the filter, fails.
pub open spec fn masked_search_fails<
    F: Fn(&Vec<u32>, &Vec<u32>, DistanceMetric) -> Result<u32, Error>,
>(
    score: F,
    q: ApproxVectorQuery,
    metric: DistanceMetric,
    filter: Option<&FilterExpr>,
    segment: VectorIndex,
    mask: Option<&VectorFilterMask>,
    e: Error,
) -> bool {
    &&& masks(segment, filter, mask)
    &&& search::search_fails(
        score,
        q.vector,
        segment,
        metric,
        mask,
        search::probe_count(q.probes, segment.centroids@.len() as int),
        e,
    )
}

/// Why a segment cannot be searched.
pub open spec fn segment_fails<F: Fn(&Vec<u32>, &Vec<u32>, DistanceMetric) -> Result<u32, Error>>(
    score: F,
    q: ApproxVectorQuery,
    metric: DistanceMetric,
    filter: Option<&FilterExpr>,
    segment: VectorIndex,
    e: Error,
) -> bool {
    ||| e is InvalidQuery && !index::vector_ok(q.vector@, segment.dim)
    ||| exists|mask: Option<&VectorFilterMask>| #[trigger]
        masked_search_fails(score, q, metric, filter, segment, mask, e)
}

/// Why the index and its segments cannot be searched.
pub open spec fn ann_fails<F: Fn(&Vec<u32>, &Vec<u32>, DistanceMetric) -> Result<u32, Error>>(
    score: F,
    q: ApproxVectorQuery,
    metric: DistanceMetric,
    filter: Option<&FilterExpr>,
    base: VectorIndex,
    appends: Seq<VectorIndex>,
    e: Error,
) -> bool {
    segment_fails(score, q, metric, filter, base, e) || exists|i: int|
        0 <= i < appends.len() && #[trigger] segment_fails(
            score,
            q,
            metric,
            filter,
            appends[i],
            e,
        )
}

/// A segment that can be searched.
pub open spec fn searchable(segment: VectorIndex) -> bool {
    segment.centroids@.len() > 0 && segment.filter_index.columns.wf()
}

/// Adds to `live` the hits of a segment that count.
fn add_current<F: Copy + Fn(&Vec<u32>, &Vec<u32>, DistanceMetric) -> Result<u32, Error>>(
    q: &ApproxVectorQuery,
    metric: DistanceMetric,
    filter: Option<&FilterExpr>,
    segment: &VectorIndex,
    versions: Option<&VectorVersionMap>,
    touched: &SortedSet<Id>,
    score: F,
    live: &mut Vec<VectorHit>,
    needed: &mut SortedSet<Id>,
) -> (r: Result<Ghost<Seq<VectorHit>>, Error>)
    requires
        vector::can_score(score),
        searchable(*segment),
        versions matches Some(m) ==> m.wf(),
        touched.wf(),
        old(needed).wf(),
        can_answer(filter),
    ensures
        match r {
            Ok(found) => {
                &&& segment_can_find(score, *q, metric, filter, *segment, found@)
                &&& final(live)@ == old(live)@ + seqs::kept(
                    found@,
                    |h: VectorHit| is_current(touched.set(), versions, h),
                )
                &&& final(needed).wf()
                &&& forall|id: IdView| #[trigger]
                    final(needed).set().contains(id) == (old(needed).set().contains(id) || has_hit(
                        seqs::kept(
                            found@,
                            |h: VectorHit| is_current(touched.set(), versions, h),
                        ),
                        id,
                    ))
            },
            Err(e) => segment_fails(score, *q, metric, filter, *segment, e),
        },
{
    let mask: Option<VectorFilterMask> = match filter {
        Some(f) => native_filter_mask(segment, f),
        None => None,
    };
    let mask_ref: Option<&VectorFilterMask> = match &mask {
        Some(m) => Some(m),
        None => None,
    };
    assert(masks(*segment, filter, mask_ref));
    let hits = match segment.search_with_filter(
        &q.vector,
        usize::MAX,
        q.probes,
        Some(metric),
        mask_ref,
        score,
    ) {
        Ok(hits) => hits,
        Err(e) => {
            assert(index::vector_ok(q.vector@, segment.dim) ==> masked_search_fails(
                score,
                *q,
                metric,
                filter,
                *segment,
                mask_ref,
                e,
            ));
            return Err(e);
        },
    };
    let ghost found = hits@;
    assert(segment_finds(score, *q, metric, filter, *segment, mask_ref, found));
    let ghost p = |h: VectorHit| is_current(touched.set(), versions, h);
    let ghost start = live@;
    let ghost start_needed = needed.set();
    let n = hits.len();
    let mut rest = reversed(hits);
    let mut i: usize = 0;
    assert(found.take(0) =~= Seq::empty());
    assert(start + seqs::kept(found.take(0), p) =~= start);
    while i < n
        invariant
            i <= n,
            n == found.len(),
            versions matches Some(m) ==> m.wf(),
            touched.wf(),
            needed.wf(),
            p == (|h: VectorHit| is_current(touched.set(), versions, h)),
            rest@.len() == n - i,
            forall|k: int| 0 <= k < rest@.len() ==> #[trigger] rest@[k] == found[n - 1 - k],
            live@ == start + seqs::kept(found.take(i as int), p),
            forall|id: IdView| #[trigger]
                needed.set().contains(id) == (start_needed.contains(id) || has_hit(
                    seqs::kept(found.take(i as int), p),
                    id,
                )),
        decreases n - i,
    {
        assert(rest@[rest@.len() - 1] == found[i as int]);
        let ghost before = seqs::kept(found.take(i as int), p);
        proof {
            seqs::lemma_kept_next(found, p, i as int);
        }
        if let Some(hit) = rest.pop() {
            assert(hit == found[i as int]);
            if !touched.contains(&hit.id) && live_in(versions, &hit.id, hit.version) {
                needed.insert(copy_id(&hit.id));
                live.push(hit);
                proof {
                    let after = before.push(found[i as int]);
                    assert(seqs::kept(found.take(i + 1), p) == after);
                    assert(live@ =~= start + after);
                    assert forall|id: IdView| #[trigger] has_hit(after, id) == (has_hit(before, id)
                        || id == found[i as int].id@) by {
                        if has_hit(before, id) {
                            let k = choose|k: int|
                                0 <= k < before.len() && (#[trigger] before[k]).id@ == id;
                            assert(after[k] == before[k]);
                        }
                        if id == found[i as int].id@ {
                            assert(after[before.len() as int].id@ == id);
                        }
                        if has_hit(after, id) {
                            let k = choose|k: int|
                                0 <= k < after.len() && (#[trigger] after[k]).id@ == id;
                            if k < before.len() {
                                assert(before[k] == after[k]);
                            }
                        }
                    }
                }
            }
        }
        i = i + 1;
    }
    assert(found.take(n as int) =~= found);
    Ok(Ghost(found))
}

/// A list of hits has one for a document.
pub open spec fn has_hit(hits: Seq<VectorHit>, id: IdView) -> bool {
    exists|i: int| 0 <= i < hits.len() && (#[trigger] hits[i]).id@ == id
}

proof fn lemma_has_hit_concat(a: Seq<VectorHit>, b: Seq<VectorHit>, id: IdView)
    ensures
        has_hit(a + b, id) == (has_hit(a, id) || has_hit(b, id)),
{
    if has_hit(a, id) {
        let k = choose|k: int| 0 <= k < a.len() && (#[trigger] a[k]).id@ == id;
        assert((a + b)[k] == a[k]);
    }
    if has_hit(b, id) {
        let k = choose|k: int| 0 <= k < b.len() && (#[trigger] b[k]).id@ == id;
        assert((a + b)[a.len() + k] == b[k]);
    }
    if has_hit(a + b, id) {
        let k = choose|k: int| 0 <= k < (a + b).len() && (#[trigger] (a + b)[k]).id@ == id;
        if k < a.len() {
            assert(a[k] == (a + b)[k]);
        } else {
            assert(b[k - a.len()] == (a + b)[k]);
        }
    }
}

/// Searches an index and its segments for the vectors nearest to a query. Hits of
/// documents that have been written since, and of versions that are not in force,
/// do not count. The documents that the answer needs are those of the hits and
/// those that have been written since.
pub fn ann_search<F: Copy + Fn(&Vec<u32>, &Vec<u32>, DistanceMetric) -> Result<u32, Error>>(
    q: &ApproxVectorQuery,
    metric: DistanceMetric,
    filter: Option<&FilterExpr>,
    base: &VectorIndex,
    appends: &Vec<VectorIndex>,
    versions: Option<&VectorVersionMap>,
    touched: &SortedSet<Id>,
    score: F,
) -> (r: Result<AnnSearch, Error>)
    requires
        vector::can_score(score),
        searchable(*base),
        forall|i: int| 0 <= i < appends@.len() ==> searchable(#[trigger] appends@[i]),
        versions matches Some(m) ==> m.wf(),
        touched.wf(),
    ensures
        match r {
            Ok(AnnSearch::Unanswerable) => !can_answer(filter),
            Ok(AnnSearch::Found { live, needed }) => {
                &&& can_answer(filter)
                &&& ann_finds(
                    score,
                    *q,
                    metric,
                    filter,
                    *base,
                    appends@,
                    versions,
                    touched.set(),
                    live@,
                )
                &&& needed.wf()
                &&& forall|id: IdView| #[trigger]
                    needed.set().contains(id) == (touched.set().contains(id) || has_hit(
                        live@,
                        id,
                    ))
            },
            Err(e) => can_answer(filter) && ann_fails(
                score,
                *q,
                metric,
                filter,
                *base,
                appends@,
                e,
            ),
        },
{
    if let Some(f) = filter {
        if !is_answerable(f) {
            return Ok(AnnSearch::Unanswerable);
        }
    }
    let mut live: Vec<VectorHit> = Vec::new();
    let mut needed: SortedSet<Id> = SortedSet::new();
    let Ghost(first) = match add_current(
        q,
        metric,
        filter,
        base,
        versions,
        touched,
        score,
        &mut live,
        &mut needed,
    ) {
        Ok(found) => found,
        Err(e) => {
            return Err(e);
        },
    };
    let ghost mut found: Seq<Seq<VectorHit>> = seq![first];
    let ghost p = |h: VectorHit| is_current(touched.set(), versions, h);
    proof {
        assert(found.drop_last() =~= Seq::empty());
        assert(found.last() == first);
        assert(live@ =~= seqs::kept(first, p));
        assert(current_hits(found.drop_last(), touched.set(), versions) =~= Seq::empty());
        assert(current_hits(found, touched.set(), versions) =~= seqs::kept(first, p));
    }
    let mut i: usize = 0;
    while i < appends.len()
        invariant
            i <= appends@.len(),
            vector::can_score(score),
            forall|k: int| 0 <= k < appends@.len() ==> searchable(#[trigger] appends@[k]),
            versions matches Some(m) ==> m.wf(),
            touched.wf(),
            needed.wf(),
            can_answer(filter),
            found.len() == i + 1,
            segment_can_find(score, *q, metric, filter, *base, found[0]),
            forall|k: int|
                0 <= k < i ==> #[trigger] segment_can_find(
                    score,
                    *q,
                    metric,
                    filter,
                    appends@[k],
                    found[k + 1],
                ),
            live@ == current_hits(found, touched.set(), versions),
            forall|id: IdView| #[trigger] needed.set().contains(id) == has_hit(live@, id),
        decreases appends@.len() - i,
    {
        let ghost before = live@;
        assert(searchable(appends@[i as int]));
        let Ghost(more) = match add_current(
            q,
            metric,
            filter,
            &appends[i],
            versions,
            touched,
            score,
            &mut live,
            &mut needed,
        ) {
            Ok(more) => more,
            Err(e) => {
                assert(segment_fails(score, *q, metric, filter, appends@[i as int], e));
                return Err(e);
            },
        };
        proof {
            let p = |h: VectorHit| is_current(touched.set(), versions, h);
            let all = found.push(more);
            assert(all.drop_last() =~= found);
            assert forall|k: int| 0 <= k < i + 1 implies #[trigger] segment_can_find(
                score,
                *q,
                metric,
                filter,
                appends@[k],
                all[k + 1],
            ) by {
                if k < i {
                    assert(all[k + 1] == found[k + 1]);
                }
            }
            assert(all[0] == found[0]);
            assert forall|id: IdView| #[trigger] needed.set().contains(id) == has_hit(
                live@,
                id,
            ) by {
                lemma_has_hit_concat(before, seqs::kept(more, p), id);
            }
            found = all;
        }
        i = i + 1;
    }
    assert(all_find(score, *q, metric, filter, *base, appends@, found));
    let ghost hits = live@;
    let n = touched.len();
    let ghost items = touched.items();
    let mut k: usize = 0;
    while k < n
        invariant
            k <= n,
            n == items.len(),
            items == touched.items(),
            needed.wf(),
            forall|id: IdView| #[trigger]
                needed.set().contains(id) == (has_hit(hits, id) || items.take(k as int).contains(
                    id,
                )),
        decreases n - k,
    {
        needed.insert(copy_id(touched.item_at(k)));
        assert forall|id: IdView| items.take(k + 1).contains(id) == (items.take(k as int).contains(
            id,
        ) || id == items[k as int]) by {
            if items.take(k as int).contains(id) {
                let j = items.take(k as int).index_of(id);
                assert(items.take(k + 1)[j] == id);
            }
            if id == items[k as int] {
                assert(items.take(k + 1)[k as int] == id);
            }
            if items.take(k + 1).contains(id) {
                let j = items.take(k + 1).index_of(id);
                if j < k {
                    assert(items.take(k as int)[j] == id);
                }
            }
        }
        k = k + 1;
    }
    assert(items.take(n as int) =~= items);
    Ok(AnnSearch::Found { live, needed })
}

/// Whether the index can answer a filter.
pub fn is_answerable(filter: &FilterExpr) -> (b: bool)
    ensures
        b == native::answerable(filter@),
    decreases filter,
{
    match filter {
        FilterExpr::Eq { column: _, value } => !matches!(value, crate::value::Value::Array(_)),
        FilterExpr::Range { column: _, lower, upper } => native::is_sortable_bound(lower)
            && native::is_sortable_bound(upper),
        FilterExpr::And(filters) => {
            let mut i: usize = 0;
            while i < filters.len()
                invariant
                    i <= filters@.len(),
                    *filter == FilterExpr::And(*filters),
                    forall|j: int| 0 <= j < i ==> native::answerable(#[trigger] filter@->And_0[j]),
                decreases filters@.len() - i,
            {
                assert(filter->And_0@[i as int] == filters@[i as int]);
                assert(decreases_to!(*filter => filter->And_0@[i as int]));
                assert(filter@->And_0[i as int] == filters@[i as int]@);
                if !is_answerable(&filters[i]) {
                    assert(!native::answerable(filter@->And_0[i as int]));
                    return false;
                }
                i = i + 1;
            }
            true
        },
        FilterExpr::Or(filters) => {
            let mut i: usize = 0;
            while i < filters.len()
                invariant
                    i <= filters@.len(),
                    *filter == FilterExpr::Or(*filters),
                    forall|j: int| 0 <= j < i ==> native::answerable(#[trigger] filter@->Or_0[j]),
                decreases filters@.len() - i,
            {
                assert(filter->Or_0@[i as int] == filters@[i as int]);
                assert(decreases_to!(*filter => filter->Or_0@[i as int]));
                assert(filter@->Or_0[i as int] == filters@[i as int]@);
                if !is_answerable(&filters[i]) {
                    assert(!native::answerable(filter@->Or_0[i as int]));
                    return false;
                }
                i = i + 1;
            }
            true
        },
        FilterExpr::Not(inner) => is_answerable(inner),
    }
}

// ---------------------------------------------------------------------------
// Rows
// ---------------------------------------------------------------------------

/// A document to be shown: it is there and meets the filter.
pub open spec fn is_shown(
    docs: documents::Docs,
    filter: Option<&FilterExpr>,
    id: IdView,
) -> bool {
    docs.dom().contains(id) && query::accepts(filter, docs[id])
}

/// Rows, with the scores of the hits, for those of the first `n` hits whose
/// documents are shown.
pub open spec fn hit_rows(
    hits: Seq<VectorHit>,
    docs: documents::Docs,
    filter: Option<&FilterExpr>,
    n: int,
) -> Seq<RowView>
    decreases n,
{
    if n <= 0 {
        Seq::empty()
    } else {
        let front = hit_rows(hits, docs, filter, n - 1);
        let hit = hits[n - 1];
        if is_shown(docs, filter, hit.id@) {
            front.push(RowView { id: hit.id@, document: docs[hit.id@], score: Some(hit.score) })
        } else {
            front
        }
    }
}

/// Rows, without scores, for those of the first `n` documents that are shown.
pub open spec fn shown_rows(
    ids: Seq<IdView>,
    docs: documents::Docs,
    filter: Option<&FilterExpr>,
    n: int,
) -> Seq<RowView>
    decreases n,
{
    if n <= 0 {
        Seq::empty()
    } else {
        let front = shown_rows(ids, docs, filter, n - 1);
        if is_shown(docs, filter, ids[n - 1]) {
            front.push(RowView { id: ids[n - 1], document: docs[ids[n - 1]], score: None })
        } else {
            front
        }
    }
}

fn rows_of_hits(
    hits: Vec<VectorHit>,
    docs: &SortedMap<Id, Document>,
    filter: Option<&FilterExpr>,
) -> (rows: Vec<QueryRow>)
    requires
        documents::docs_wf(*docs),
    ensures
        query::rows_wf(rows@),
        execute::rows_view(rows@) == hit_rows(
            hits@,
            documents::docs_view(*docs),
            filter,
            hits@.len() as int,
        ),
{
    let ghost all = documents::docs_view(*docs);
    let mut rows: Vec<QueryRow> = Vec::new();
    let mut i: usize = 0;
    assert(execute::rows_view(rows@) =~= Seq::empty());
    while i < hits.len()
        invariant
            i <= hits@.len(),
            all == documents::docs_view(*docs),
            documents::docs_wf(*docs),
            query::rows_wf(rows@),
            execute::rows_view(rows@) == hit_rows(hits@, all, filter, i as int),
        decreases hits@.len() - i,
    {
        let hit = &hits[i];
        if let Some(document) = docs.get(&hit.id) {
            assert(all.dom().contains(hit.id@) && all[hit.id@] == document@);
            if matches_filter(filter, document) {
                let ghost before = rows@;
                let row = QueryRow {
                    id: copy_id(&hit.id),
                    document: copy_document(document),
                    score: Some(hit.score),
                };
                rows.push(row);
                assert(execute::rows_view(rows@) =~= execute::rows_view(before).push(
                    execute::row_view(row),
                ));
            }
        }
        i = i + 1;
    }
    rows
}

fn rows_of_touched(
    touched: &SortedSet<Id>,
    docs: &SortedMap<Id, Document>,
    filter: Option<&FilterExpr>,
) -> (rows: Vec<QueryRow>)
    requires
        documents::docs_wf(*docs),
        touched.wf(),
    ensures
        query::rows_wf(rows@),
        execute::rows_view(rows@) == shown_rows(
            touched.items(),
            documents::docs_view(*docs),
            filter,
            touched.items().len() as int,
        ),
{
    let ghost all = documents::docs_view(*docs);
    let ghost ids = touched.items();
    let n = touched.len();
    let mut rows: Vec<QueryRow> = Vec::new();
    let mut i: usize = 0;
    assert(execute::rows_view(rows@) =~= Seq::empty());
    while i < n
        invariant
            i <= n,
            n == ids.len(),
            ids == touched.items(),
            all == documents::docs_view(*docs),
            documents::docs_wf(*docs),
            query::rows_wf(rows@),
            execute::rows_view(rows@) == shown_rows(ids, all, filter, i as int),
        decreases n - i,
    {
        let id = touched.item_at(i);
        if let Some(document) = docs.get(id) {
            assert(all.dom().contains(id@) && all[id@] == document@);
            if matches_filter(filter, document) {
                let ghost before = rows@;
                let row = QueryRow {
                    id: copy_id(id),
                    document: copy_document(document),
                    score: None,
                };
                rows.push(row);
                assert(execute::rows_view(rows@) =~= execute::rows_view(before).push(
                    execute::row_view(row),
                ));
            }
        }
        i = i + 1;
    }
    rows
}

/// The rows of an answer: those of the hits, and those of the documents written
/// since, scored by the vectors that they have now.
pub open spec fn answer_rows<F: Fn(&Vec<u32>, &Vec<u32>, DistanceMetric) -> Result<u32, Error>>(
    score: F,
    q: ApproxVectorQuery,
    metric: DistanceMetric,
    filter: Option<&FilterExpr>,
    live: Seq<VectorHit>,
    touched: Seq<IdView>,
    docs: documents::Docs,
    scored: Seq<RowView>,
    all: Seq<QueryRow>,
) -> bool {
    &&& nearest::rows_scored(
        score,
        q.vector,
        q.column@,
        metric,
        shown_rows(touched, docs, filter, touched.len() as int),
        scored,
    )
    &&& execute::rows_view(all) == hit_rows(live, docs, filter, live.len() as int) + scored
}

/// What the answer can be: the best of those rows.
pub open spec fn can_answer_with<
    F: Fn(&Vec<u32>, &Vec<u32>, DistanceMetric) -> Result<u32, Error>,
>(
    score: F,
    q: ApproxVectorQuery,
    metric: DistanceMetric,
    filter: Option<&FilterExpr>,
    limit: Option<usize>,
    live: Seq<VectorHit>,
    touched: Seq<IdView>,
    docs: documents::Docs,
    out: Seq<QueryRow>,
) -> bool {
    exists|scored: Seq<RowView>, all: Seq<QueryRow>|
        #[trigger] answer_rows(score, q, metric, filter, live, touched, docs, scored, all)
            && nearest::is_best_of(all, nearest::kept_rows(q.k, limit) as int, out)
}

/// Answers a query from the hits that count and the documents that they and the
/// writes since need.
pub fn ann_answer<F: Copy + Fn(&Vec<u32>, &Vec<u32>, DistanceMetric) -> Result<u32, Error>>(
    q: &ApproxVectorQuery,
    metric: DistanceMetric,
    dim: usize,
    filter: Option<&FilterExpr>,
    limit: Option<usize>,
    live: Vec<VectorHit>,
    touched: &SortedSet<Id>,
    docs: &SortedMap<Id, Document>,
    score: F,
) -> (r: Result<Vec<QueryRow>, Error>)
    requires
        vector::can_score(score),
        touched.wf(),
        documents::docs_wf(*docs),
    ensures
        match r {
            Ok(out) => {
                let written = shown_rows(
                    touched.items(),
                    documents::docs_view(*docs),
                    filter,
                    touched.items().len() as int,
                );
                &&& query::rows_wf(out@)
                &&& !nearest::has_misfit(written, q.column@, dim)
                &&& can_answer_with(
                    score,
                    *q,
                    metric,
                    filter,
                    limit,
                    live@,
                    touched.items(),
                    documents::docs_view(*docs),
                    out@,
                )
            },
            Err(e) => {
                let written = shown_rows(
                    touched.items(),
                    documents::docs_view(*docs),
                    filter,
                    touched.items().len() as int,
                );
                ||| nearest::has_unscorable(score, q.vector, q.column@, metric, written, e)
                ||| e is Corrupt && nearest::has_misfit(written, q.column@, dim)
            },
        },
{
    let ghost all_docs = documents::docs_view(*docs);
    let ghost hits = live@;
    let mut rows = rows_of_hits(live, docs, filter);
    let written = rows_of_touched(touched, docs, filter);
    let mut scored = match score_rows(written, q.column.as_str(), &q.vector, metric, dim, score) {
        Ok(scored) => scored,
        Err(e) => {
            return Err(e);
        },
    };
    let ghost a = rows@;
    let ghost b = scored@;
    rows.append(&mut scored);
    proof {
        assert(rows@ =~= a + b);
        assert(execute::rows_view(rows@) =~= execute::rows_view(a) + execute::rows_view(b));
        assert forall|i: int| 0 <= i < rows@.len() implies (#[trigger] rows@[i]).document.wf() by {
            if i < a.len() {
                assert(rows@[i] == a[i]);
            } else {
                assert(rows@[i] == b[i - a.len()]);
            }
        }
        assert(answer_rows(
            score,
            *q,
            metric,
            filter,
            hits,
            touched.items(),
            all_docs,
            execute::rows_view(b),
            rows@,
        ));
    }
    let ghost all = rows@;
    let out = best_rows(rows, keep_count(q.k, limit));
    Ok(out)
}

/// Every hit that counts is of a document that has not been written since the
/// index was built, in the version that is in force.
pub proof fn law_hits_are_current(
    found: Seq<Seq<VectorHit>>,
    touched: Set<IdView>,
    versions: Option<&VectorVersionMap>,
    i: int,
)
    requires
        0 <= i < current_hits(found, touched, versions).len(),
    ensures
        is_current(touched, versions, current_hits(found, touched, versions)[i]),
    decreases found.len(),
{
    let front = current_hits(found.drop_last(), touched, versions);
    let p = |h: VectorHit| is_current(touched, versions, h);
    let back = seqs::kept(found.last(), p);
    if i < front.len() {
        law_hits_are_current(found.drop_last(), touched, versions, i);
        assert(current_hits(found, touched, versions)[i] == front[i]);
    } else {
        seqs::lemma_kept_from(found.last(), p, i - front.len());
        assert(current_hits(found, touched, versions)[i] == back[i - front.len()]);
    }
}

/// The hits that count are all those, and only those, of documents that have not been
/// written since, in the version that the version map has for them.
pub proof fn law_stale_hits_do_not_count(
    found: Seq<Seq<VectorHit>>,
    touched: Set<IdView>,
    versions: Option<&VectorVersionMap>,
    hit: VectorHit,
)
    ensures
        current_hits(found, touched, versions).contains(hit) <==> {
            &&& exists|i: int| 0 <= i < found.len() && (#[trigger] found[i]).contains(hit)
            &&& !touched.contains(hit.id@)
            &&& versions matches Some(m) ==> m.version_of(hit.id@) == Some(hit.version)
        },
    decreases found.len(),
{
    if found.len() > 0 {
        let rest = found.drop_last();
        law_stale_hits_do_not_count(rest, touched, versions, hit);
        let front = current_hits(rest, touched, versions);
        let p = |h: VectorHit| is_current(touched, versions, h);
        let back = seqs::kept(found.last(), p);
        let all = current_hits(found, touched, versions);
        assert(all == front + back);
        lemma_kept_contains(found.last(), p, hit);
        assert(p(hit) == is_current(touched, versions, hit));
        if front.contains(hit) {
            let k = front.index_of(hit);
            assert(all[k] == hit);
            let i = choose|i: int| 0 <= i < rest.len() && (#[trigger] rest[i]).contains(hit);
            assert(found[i] == rest[i]);
        }
        if back.contains(hit) {
            let k = back.index_of(hit);
            assert(all[front.len() + k] == hit);
            assert(found[found.len() - 1].contains(hit));
        }
        if all.contains(hit) {
            let k = all.index_of(hit);
            if k < front.len() {
                assert(front[k] == hit);
            } else {
                assert(back[k - front.len()] == hit);
            }
        }
        if exists|i: int| 0 <= i < found.len() && (#[trigger] found[i]).contains(hit) {
            let i = choose|i: int| 0 <= i < found.len() && (#[trigger] found[i]).contains(hit);
            if i < rest.len() {
                assert(rest[i] == found[i]);
            }
        }
    }
}

proof fn lemma_kept_contains(s: Seq<VectorHit>, p: spec_fn(VectorHit) -> bool, x: VectorHit)
    ensures
        seqs::kept(s, p).contains(x) <==> s.contains(x) && p(x),
    decreases s.len(),
{
    if s.len() > 0 {
        let front = s.drop_last();
        lemma_kept_contains(front, p, x);
        let kept = seqs::kept(front, p);
        let all = seqs::kept(s, p);
        if kept.contains(x) {
            let k = kept.index_of(x);
            assert(all[k] == x);
            let i = front.index_of(x);
            assert(s[i] == x);
        }
        if p(s.last()) && s.last() == x {
            assert(all[kept.len() as int] == x);
            assert(s[s.len() - 1] == x);
        }
        if all.contains(x) {
            let k = all.index_of(x);
            if k < kept.len() {
                assert(kept[k] == x);
            } else {
                assert(s[s.len() - 1] == x);
            }
        }
        if s.contains(x) && p(x) && x != s.last() {
            let i = s.index_of(x);
            assert(front[i] == x);
        }
    }
}

/// A hit is shown exactly if its document is there and meets the filter, with the
/// document as it is and the score of the hit.
pub proof fn law_hits_are_shown_with_their_documents(
    hits: Seq<VectorHit>,
    docs: documents::Docs,
    filter: Option<&FilterExpr>,
    n: int,
    i: int,
)
    requires
        0 <= i < n <= hits.len(),
    ensures
        docs.dom().contains(hits[i].id@) && (filter matches Some(f) ==> query::filter_holds(
            f@,
            docs[hits[i].id@],
        )) ==> hit_rows(hits, docs, filter, n).contains(
            RowView {
                id: hits[i].id@,
                document: docs[hits[i].id@],
                score: Some(hits[i].score),
            },
        ),
        forall|row: RowView| #[trigger]
            hit_rows(hits, docs, filter, n).contains(row) ==> docs.dom().contains(row.id)
                && row.document == docs[row.id] && (filter matches Some(f) ==> query::filter_holds(
                f@,
                docs[row.id],
            )),
    decreases n,
{
    let front = hit_rows(hits, docs, filter, n - 1);
    let all = hit_rows(hits, docs, filter, n);
    if n > 1 {
        law_hits_are_shown_with_their_documents(
            hits,
            docs,
            filter,
            n - 1,
            if i < n - 1 {
                i
            } else {
                0
            },
        );
    } else {
        assert(front =~= Seq::empty());
    }
    let hit = hits[n - 1];
    if is_shown(docs, filter, hit.id@) {
        let last = RowView { id: hit.id@, document: docs[hit.id@], score: Some(hit.score) };
        assert(all[front.len() as int] == last);
        let row = RowView {
            id: hits[i].id@,
            document: docs[hits[i].id@],
            score: Some(hits[i].score),
        };
        if i < n - 1 && front.contains(row) {
            let k = front.index_of(row);
            assert(all[k] == row);
        }
        assert forall|row: RowView| #[trigger] all.contains(row) implies docs.dom().contains(
            row.id,
        ) && row.document == docs[row.id] && (filter matches Some(f) ==> query::filter_holds(
            f@,
            docs[row.id],
        )) by {
            let k = all.index_of(row);
            if k < front.len() {
                assert(front[k] == row);
                assert(front.contains(row));
            }
        }
    }
}

/// The rows that are shown are those of the documents that are there and meet the filter,
/// and no other.
pub proof fn law_shown_rows_are_the_matching_documents(
    ids: Seq<IdView>,
    docs: documents::Docs,
    filter: Option<&FilterExpr>,
    n: int,
    row: RowView,
)
    requires
        0 <= n <= ids.len(),
    ensures
        shown_rows(ids, docs, filter, n).contains(row) <==> ids.take(n).contains(row.id)
            && docs.dom().contains(row.id) && query::accepts(filter, docs[row.id]) && row.document
            == docs[row.id] && row.score is None,
    decreases n,
{
    if n > 0 {
        law_shown_rows_are_the_matching_documents(ids, docs, filter, n - 1, row);
        let front = shown_rows(ids, docs, filter, n - 1);
        let all = shown_rows(ids, docs, filter, n);
        let id = row.id;
        assert(ids.take(n)[n - 1] == ids[n - 1]);
        if ids.take(n).contains(id) {
            let i = ids.take(n).index_of(id);
            if i < n - 1 {
                assert(ids.take(n - 1)[i] == id);
            }
        }
        if ids.take(n - 1).contains(id) {
            let i = ids.take(n - 1).index_of(id);
            assert(ids.take(n)[i] == id);
        }
        if all.contains(row) {
            let k = all.index_of(row);
            if k < front.len() {
                assert(front[k] == row);
            }
        }
        if front.contains(row) {
            let k = front.index_of(row);
            assert(all[k] == row);
        } else if ids[n - 1] == id && all.len() > front.len() && row.document == docs[id]
            && row.score is None {
            assert(all[front.len() as int] == row);
        }
    } else {
        assert(ids.take(0) =~= Seq::empty());
    }
}

} // verus!
