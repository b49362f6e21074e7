//! Building and searching a vector index.

use vstd::prelude::*;

use crate::rounding;
use crate::strings::text2;
use crate::strings;
use crate::phrase::say;
use crate::vector::filter;
use crate::vector;
use crate::value;
use crate::sorting;
use crate::schema;
use crate::documents;
use crate::attr;
use crate::error::{corrupt, Error};
use crate::order::Order;
use crate::schema::DistanceMetric;
use crate::sorted::{Key, SortedMap};
use crate::sorting::{reversed, sort, Comparison, Ranking};
use crate::value::{compare_ids, copy_id, Document, DocumentView, Id, IdView, ValueView};
use crate::vector::filter::VectorFilterIndex;
use crate::vector::{score_beats, EntryView, VectorAddress, VectorEntry, VectorIndex, VectorPosting, KMEANS_ITERS, MAX_CLUSTERS, SCORE_LOWEST, VECTOR_FORMAT_VERSION};

verus! {

// ---------------------------------------------------------------------------
// Forming clusters
// ---------------------------------------------------------------------------

/// A vector of `dim` finite components.
pub open spec fn vector_ok(v: Seq<u32>, dim: usize) -> bool {
    v.len() == dim && forall|i: int| 0 <= i < v.len() ==> schema::f32_is_finite(#[trigger] v[i])
}

/// What is wrong with a vector that has not `dim` finite components.
pub open spec fn shape_complaint(v: Seq<u32>, dim: usize, label: Seq<char>) -> Seq<char> {
    if v.len() != dim {
        label + " has dim "@ + strings::decimal(v.len()) + ", expected "@ + strings::decimal(
            dim as nat,
        )
    } else {
        label + " contains a non-finite value"@
    }
}

/// Refuses a vector that has not `dim` components, or one that is not finite. `label`
/// names the vector in the message.
pub fn validate_query_vector(vector: &Vec<u32>, dim: usize, label: &str) -> (r: Result<(), Error>)
    ensures
        r is Ok <==> vector_ok(vector@, dim),
        r is Err ==> r->Err_0 is InvalidQuery && r->Err_0->InvalidQuery_0@ == shape_complaint(
            vector@,
            dim,
            label@,
        ),
{
    if vector.len() != dim {
        return Err(Error::InvalidQuery(
                say(label).and(" has dim ").number(vector.len() as u64).and(", expected ").number(
                    dim as u64,
                ).done(),
            ));
    }
    let mut i: usize = 0;
    while i < vector.len()
        invariant
            i <= vector@.len(),
            vector@.len() == dim,
            forall|j: int| 0 <= j < i ==> schema::f32_is_finite(#[trigger] vector@[j]),
        decreases vector@.len() - i,
    {
        if vector[i] % 0x8000_0000 >= 0x7f80_0000 {
            assert(!schema::f32_is_finite(vector@[i as int]));
            return Err(Error::InvalidQuery(text2(label, " contains a non-finite value")));
        }
        i = i + 1;
    }
    Ok(())
}

/// The position of the best score, the first of equal ones, with that score;
/// position zero if no score is better than the lowest.
pub open spec fn best_of(ss: Seq<u32>) -> (int, u32)
    decreases ss.len(),
{
    if ss.len() == 0 {
        (0, SCORE_LOWEST)
    } else {
        let p = best_of(ss.drop_last());
        if vector::beats(ss.last(), p.1) {
            (ss.len() - 1, ss.last())
        } else {
            p
        }
    }
}

proof fn lemma_best_bound(ss: Seq<u32>)
    ensures
        0 <= best_of(ss).0,
        ss.len() > 0 ==> best_of(ss).0 < ss.len(),
    decreases ss.len(),
{
    if ss.len() > 0 {
        lemma_best_bound(ss.drop_last());
    }
}

/// `ss` are the scores of a vector with each centroid.
pub open spec fn centroid_scores<F: Fn(&Vec<u32>, &Vec<u32>, DistanceMetric) -> Result<u32, Error>>(
    score: F,
    vector: Vec<u32>,
    centroids: Seq<Vec<u32>>,
    metric: DistanceMetric,
    ss: Seq<u32>,
) -> bool {
    &&& ss.len() == centroids.len()
    &&& forall|i: int|
        0 <= i < ss.len() ==> vector::scores(score, vector, centroids[i], metric, #[trigger] ss[i])
}

/// A vector belongs to a cluster: no centroid before it scores as well, and none
/// behind it better.
pub open spec fn belongs_to<F: Fn(&Vec<u32>, &Vec<u32>, DistanceMetric) -> Result<u32, Error>>(
    score: F,
    vector: Vec<u32>,
    centroids: Seq<Vec<u32>>,
    metric: DistanceMetric,
    cluster: int,
) -> bool {
    exists|ss: Seq<u32>| #[trigger]
        centroid_scores(score, vector, centroids, metric, ss) && best_of(ss).0 == cluster
}

/// The cluster that a vector belongs to.
pub fn best_centroid<
    F: Copy + Fn(&Vec<u32>, &Vec<u32>, DistanceMetric) -> Result<u32, Error>,
>(vector: &Vec<u32>, centroids: &Vec<Vec<u32>>, metric: DistanceMetric, score: F) -> (r: Result<
    usize,
    Error,
>)
    requires
        vector::can_score(score),
    ensures
        match r {
            Ok(c) => belongs_to(score, *vector, centroids@, metric, c as int) && (centroids@.len()
                > 0 ==> c < centroids@.len()),
            Err(e) => vector::no_score_with(score, *vector, centroids@, metric, e),
        },
{
    let mut best: usize = 0;
    let mut best_score: u32 = SCORE_LOWEST;
    let ghost mut ss: Seq<u32> = Seq::empty();
    let mut i: usize = 0;
    while i < centroids.len()
        invariant
            i <= centroids@.len(),
            vector::can_score(score),
            ss.len() == i,
            forall|j: int|
                0 <= j < i ==> vector::scores(score, *vector, centroids@[j], metric, #[trigger] ss[j]),
            best_of(ss) == (best as int, best_score),
        decreases centroids@.len() - i,
    {
        match score(vector, &centroids[i], metric) {
            Ok(s) => {
                assert(vector::scores(score, *vector, centroids@[i as int], metric, s));
                proof {
                    assert(ss.push(s).drop_last() =~= ss);
                    ss = ss.push(s);
                }
                if score_beats(s, best_score) {
                    best = i;
                    best_score = s;
                }
            },
            Err(e) => {
                assert(vector::no_score(score, *vector, centroids@[i as int], metric, e));
                return Err(e);
            },
        }
        i = i + 1;
    }
    proof {
        lemma_best_bound(ss);
        assert(centroid_scores(score, *vector, centroids@, metric, ss));
    }
    Ok(best)
}

/// Every entry is assigned to the cluster that it belongs to.
pub open spec fn well_assigned<F: Fn(&Vec<u32>, &Vec<u32>, DistanceMetric) -> Result<u32, Error>>(
    score: F,
    entries: Seq<VectorEntry>,
    centroids: Seq<Vec<u32>>,
    metric: DistanceMetric,
    assignments: Seq<usize>,
) -> bool {
    &&& assignments.len() == entries.len()
    &&& forall|i: int|
        0 <= i < entries.len() ==> (#[trigger] assignments[i]) < centroids.len() && belongs_to(
            score,
            entries[i].vector,
            centroids,
            metric,
            assignments[i] as int,
        )
}

/// An entry has no score with one of some centroids, for the reason `e`.
pub open spec fn unassignable<F: Fn(&Vec<u32>, &Vec<u32>, DistanceMetric) -> Result<u32, Error>>(
    score: F,
    entries: Seq<VectorEntry>,
    centroids: Seq<Vec<u32>>,
    metric: DistanceMetric,
    e: Error,
) -> bool {
    exists|i: int|
        0 <= i < entries.len() && vector::no_score_with(
            score,
            (#[trigger] entries[i]).vector,
            centroids,
            metric,
            e,
        )
}

/// The cluster of every entry.
pub fn assign_entries<
    F: Copy + Fn(&Vec<u32>, &Vec<u32>, DistanceMetric) -> Result<u32, Error>,
>(
    entries: &Vec<VectorEntry>,
    centroids: &Vec<Vec<u32>>,
    metric: DistanceMetric,
    score: F,
) -> (r: Result<Vec<usize>, Error>)
    requires
        vector::can_score(score),
        centroids@.len() > 0,
    ensures
        match r {
            Ok(a) => well_assigned(score, entries@, centroids@, metric, a@),
            Err(e) => unassignable(score, entries@, centroids@, metric, e),
        },
{
    let mut assignments: Vec<usize> = Vec::new();
    let mut i: usize = 0;
    while i < entries.len()
        invariant
            i <= entries@.len(),
            vector::can_score(score),
            centroids@.len() > 0,
            assignments@.len() == i,
            forall|j: int|
                0 <= j < i ==> (#[trigger] assignments@[j]) < centroids@.len() && belongs_to(
                    score,
                    entries@[j].vector,
                    centroids@,
                    metric,
                    assignments@[j] as int,
                ),
        decreases entries@.len() - i,
    {
        match best_centroid(&entries[i].vector, centroids, metric, score) {
            Ok(c) => {
                assignments.push(c);
            },
            Err(e) => {
                assert(entries@[i as int] == entries[i as int]);
                return Err(e);
            },
        }
        i = i + 1;
    }
    Ok(assignments)
}

/// How many clusters `n` vectors get: about the square root of their number.
pub open spec fn is_cluster_count(n: int, k: int) -> bool {
    if n == 0 {
        k == 0
    } else {
        &&& 1 <= k <= MAX_CLUSTERS
        &&& (k - 1) * (k - 1) < n
        &&& n <= k * k || k == MAX_CLUSTERS
    }
}

/// How many clusters `n` vectors get.
pub fn cluster_count(n: usize) -> (k: usize)
    ensures
        is_cluster_count(n as int, k as int),
{
    if n == 0 {
        return 0;
    }
    let mut k: usize = 1;
    while k < MAX_CLUSTERS && k * k < n
        invariant
            1 <= k <= MAX_CLUSTERS,
            (k - 1) * (k - 1) < n,
            k * k <= 256,
        decreases MAX_CLUSTERS - k,
    {
        k = k + 1;
        assert(k * k <= 256) by (nonlinear_arith)
            requires
                k <= 16,
        ;
    }
    k
}

/// The first centroids: vectors taken at even distances.
pub open spec fn initial_at(n: int, clusters: int, i: int) -> int {
    i * n / clusters
}

/// The first centroids.
pub fn initial_centroids(entries: &Vec<VectorEntry>, clusters: usize) -> (r: Vec<Vec<u32>>)
    requires
        0 < clusters <= entries@.len(),
    ensures
        r@.len() == clusters,
        forall|i: int|
            0 <= i < clusters ==> (#[trigger] r@[i])@ == entries@[initial_at(
                entries@.len() as int,
                clusters as int,
                i,
            )].vector@,
{
    let n = entries.len();
    let mut r: Vec<Vec<u32>> = Vec::new();
    let mut i: usize = 0;
    while i < clusters
        invariant
            i <= clusters,
            n == entries@.len(),
            0 < clusters <= n,
            r@.len() == i,
            forall|j: int|
                0 <= j < i ==> (#[trigger] r@[j])@ == entries@[initial_at(
                    n as int,
                    clusters as int,
                    j,
                )].vector@,
        decreases clusters - i,
    {
        proof {
            let a = i as int;
            let b = n as int;
            let c = clusters as int;
            assert(0 <= a * b <= 0xffff_ffff_ffff_ffff * 0xffff_ffff_ffff_ffff) by (nonlinear_arith)
                requires
                    0 <= a <= 0xffff_ffff_ffff_ffff,
                    0 <= b <= 0xffff_ffff_ffff_ffff,
            ;
            assert(0 <= a * b / c < b) by (nonlinear_arith)
                requires
                    0 <= a < c,
                    0 < b,
            ;
        }
        let at: usize = ((i as u128) * (n as u128) / (clusters as u128)) as usize;
        r.push(copy_vector(&entries[at].vector));
        i = i + 1;
    }
    r
}

/// A copy of a vector.
pub fn copy_vector(v: &Vec<u32>) -> (r: Vec<u32>)
    ensures
        r@ == v@,
{
    let mut r: Vec<u32> = Vec::new();
    let mut i: usize = 0;
    while i < v.len()
        invariant
            i <= v@.len(),
            r@ == v@.take(i as int),
        decreases v@.len() - i,
    {
        r.push(v[i]);
        i = i + 1;
        assert(r@ =~= v@.take(i as int));
    }
    assert(r@ =~= v@);
    r
}

/// Copies of some vectors.
pub fn copy_vectors(vs: &Vec<Vec<u32>>) -> (r: Vec<Vec<u32>>)
    ensures
        r@.len() == vs@.len(),
        forall|i: int| 0 <= i < r@.len() ==> (#[trigger] r@[i])@ == vs@[i]@,
{
    let mut r: Vec<Vec<u32>> = Vec::new();
    let mut i: usize = 0;
    while i < vs.len()
        invariant
            i <= vs@.len(),
            r@.len() == i,
            forall|j: int| 0 <= j < i ==> (#[trigger] r@[j])@ == vs@[j]@,
        decreases vs@.len() - i,
    {
        r.push(copy_vector(&vs[i]));
        i = i + 1;
    }
    r
}

// ---------------------------------------------------------------------------
// Placing vectors
// ---------------------------------------------------------------------------

/// The positions that are assigned to a cluster, in order.
pub open spec fn rows_of(assignments: Seq<usize>, cluster: int) -> Seq<int>
    decreases assignments.len(),
{
    if assignments.len() == 0 {
        Seq::empty()
    } else if assignments.last() == cluster {
        rows_of(assignments.drop_last(), cluster).push(assignments.len() - 1)
    } else {
        rows_of(assignments.drop_last(), cluster)
    }
}

/// What `rows_of` is.
pub proof fn lemma_rows_of(a: Seq<usize>, cluster: int)
    ensures
        rows_of(a, cluster).len() <= a.len(),
        forall|l: int|
            0 <= l < rows_of(a, cluster).len() ==> 0 <= #[trigger] rows_of(a, cluster)[l] < a.len()
                && a[rows_of(a, cluster)[l]] == cluster,
    decreases a.len(),
{
    if a.len() > 0 {
        lemma_rows_of(a.drop_last(), cluster);
        let rest = rows_of(a.drop_last(), cluster);
        assert forall|l: int| 0 <= l < rows_of(a, cluster).len() implies 0 <= #[trigger] rows_of(
            a,
            cluster,
        )[l] < a.len() && a[rows_of(a, cluster)[l]] == cluster by {
            if l < rest.len() {
                assert(rows_of(a, cluster)[l] == rest[l]);
                assert(a.drop_last()[rest[l]] == a[rest[l]]);
            }
        }
    }
}

/// Where a position is among those of its cluster: behind the earlier ones.
pub proof fn lemma_row_at(a: Seq<usize>, i: int)
    requires
        0 <= i < a.len(),
    ensures
        rows_of(a.take(i), a[i] as int).len() < rows_of(a, a[i] as int).len(),
        rows_of(a, a[i] as int)[rows_of(a.take(i), a[i] as int).len() as int] == i,
    decreases a.len(),
{
    let cluster = a[i] as int;
    if i == a.len() - 1 {
        assert(a.take(i) =~= a.drop_last());
    } else {
        lemma_row_at(a.drop_last(), i);
        assert(a.drop_last().take(i) =~= a.take(i));
        assert(a.drop_last()[i] == a[i]);
    }
}

/// The clusters hold the entries assigned to them, in order.
pub open spec fn placed_as(
    postings: Seq<VectorPosting>,
    entries: Seq<EntryView>,
    assignments: Seq<usize>,
) -> bool {
    forall|c: int|
        0 <= c < postings.len() ==> {
            &&& (#[trigger] postings[c]).vectors@.len() == rows_of(assignments, c).len()
            &&& forall|l: int|
                0 <= l < postings[c].vectors@.len() ==> vector::entry_view(
                    #[trigger] postings[c].vectors@[l],
                ) == entries[rows_of(assignments, c)[l]]
        }
}

/// The addresses say where each entry is, in the order of the entries.
pub open spec fn addressed_as(
    addresses: Seq<VectorAddress>,
    entries: Seq<EntryView>,
    assignments: Seq<usize>,
) -> bool {
    &&& addresses.len() == assignments.len()
    &&& forall|i: int|
        0 <= i < addresses.len() ==> {
            &&& (#[trigger] addresses[i]).id@ == entries[i].id
            &&& addresses[i].cluster_id == assignments[i]
            &&& addresses[i].local_id == rows_of(
                assignments.take(i),
                assignments[i] as int,
            ).len()
            &&& addresses[i].version == entries[i].version
        }
}

/// What entries stand for, apart from their places.
pub open spec fn views_of(entries: Seq<VectorEntry>) -> Seq<EntryView> {
    Seq::new(entries.len(), |i: int| vector::entry_view(entries[i]))
}

/// Empty clusters.
fn empty_postings(clusters: usize) -> (postings: Vec<VectorPosting>)
    requires
        clusters <= u32::MAX,
    ensures
        postings@.len() == clusters,
        forall|c: int|
            0 <= c < clusters ==> (#[trigger] postings@[c]).centroid_id == c
                && postings@[c].vectors@.len() == 0,
{
    let mut postings: Vec<VectorPosting> = Vec::new();
    let mut c: usize = 0;
    while c < clusters
        invariant
            c <= clusters,
            clusters <= u32::MAX,
            postings@.len() == c,
            forall|j: int|
                0 <= j < c ==> (#[trigger] postings@[j]).centroid_id == j
                    && postings@[j].vectors@.len() == 0,
        decreases clusters - c,
    {
        postings.push(VectorPosting { centroid_id: c as u32, vectors: Vec::new() });
        c = c + 1;
    }
    postings
}

proof fn lemma_place_step(
    before: Seq<VectorPosting>,
    after: Seq<VectorPosting>,
    entries: Seq<EntryView>,
    a: Seq<usize>,
    i: int,
    entry: VectorEntry,
)
    requires
        0 <= i < a.len(),
        placed_as(before, entries, a.take(i)),
        vector::postings_wf(before),
        0 <= a[i] < before.len(),
        after.len() == before.len(),
        forall|c: int|
            0 <= c < before.len() && c != a[i] ==> #[trigger] after[c] == before[c],
        after[a[i] as int].centroid_id == before[a[i] as int].centroid_id,
        after[a[i] as int].vectors@ == before[a[i] as int].vectors@.push(entry),
        vector::entry_view(entry) == entries[i],
        entry.local_id == before[a[i] as int].vectors@.len(),
    ensures
        placed_as(after, entries, a.take(i + 1)),
        vector::postings_wf(after),
{
    let x = a[i] as int;
    assert(a.take(i + 1).drop_last() =~= a.take(i));
    assert(a.take(i + 1).last() == a[i]);
    assert forall|c: int| 0 <= c < after.len() implies {
        &&& (#[trigger] after[c]).vectors@.len() == rows_of(a.take(i + 1), c).len()
        &&& forall|l: int|
            0 <= l < after[c].vectors@.len() ==> vector::entry_view(#[trigger] after[c].vectors@[l])
                == entries[rows_of(a.take(i + 1), c)[l]]
    } by {
        assert(before[c].vectors@.len() == rows_of(a.take(i), c).len());
        if c == x {
            assert forall|l: int| 0 <= l < after[c].vectors@.len() implies vector::entry_view(
                #[trigger] after[c].vectors@[l],
            ) == entries[rows_of(a.take(i + 1), c)[l]] by {
                if l < before[c].vectors@.len() {
                    assert(after[c].vectors@[l] == before[c].vectors@[l]);
                    assert(rows_of(a.take(i + 1), c)[l] == rows_of(a.take(i), c)[l]);
                }
            }
        } else {
            assert(after[c] == before[c]);
        }
    }
    assert forall|c: int| 0 <= c < after.len() implies (#[trigger] after[c]).centroid_id == c by {
        assert(before[c].centroid_id == c);
    }
    assert forall|c: int, l: int| 0 <= c < after.len() && 0 <= l < after[c].vectors@.len() implies (
    #[trigger] after[c].vectors@[l]).local_id == l by {
        if c == x {
            if l < before[c].vectors@.len() {
                assert(after[c].vectors@[l] == before[c].vectors@[l]);
            }
        } else {
            assert(after[c] == before[c]);
            assert(before[c].vectors@[l].local_id == l);
        }
    }
}

/// Puts every entry into its cluster.
pub fn place_entries(entries: Vec<VectorEntry>, assignments: &Vec<usize>, clusters: usize) -> (r: (
    Vec<VectorPosting>,
    Vec<VectorAddress>,
))
    requires
        clusters <= u32::MAX,
        entries@.len() <= u32::MAX,
        entries@.len() == assignments@.len(),
        forall|i: int| 0 <= i < assignments@.len() ==> (#[trigger] assignments@[i]) < clusters,
    ensures
        r.0@.len() == clusters,
        vector::postings_wf(r.0@),
        placed_as(r.0@, views_of(entries@), assignments@),
        addressed_as(r.1@, views_of(entries@), assignments@),
{
    let ghost es = entries@;
    let ghost views = views_of(es);
    let ghost a = assignments@;
    let n = entries.len();
    let mut postings = empty_postings(clusters);
    let mut addresses: Vec<VectorAddress> = Vec::new();
    let mut rest = reversed(entries);
    let mut i: usize = 0;
    assert(a.take(0) =~= Seq::empty());
    while i < n
        invariant
            i <= n,
            n == es.len(),
            n == a.len(),
            a == assignments@,
            views == views_of(es),
            n <= u32::MAX,
            clusters <= u32::MAX,
            forall|k: int| 0 <= k < a.len() ==> (#[trigger] a[k]) < clusters,
            rest@.len() == n - i,
            forall|k: int| 0 <= k < rest@.len() ==> #[trigger] rest@[k] == es[n - 1 - k],
            postings@.len() == clusters,
            vector::postings_wf(postings@),
            placed_as(postings@, views, a.take(i as int)),
            addresses@.len() == i,
            forall|k: int|
                0 <= k < i ==> {
                    &&& (#[trigger] addresses@[k]).id@ == views[k].id
                    &&& addresses@[k].cluster_id == a[k]
                    &&& addresses@[k].local_id == rows_of(a.take(k), a[k] as int).len()
                    &&& addresses@[k].version == views[k].version
                },
        decreases n - i,
    {
        assert(rest@[rest@.len() - 1] == es[i as int]);
        let c: usize = assignments[i];
        assert(a[i as int] < clusters);
        if let Some(mut entry) = rest.pop() {
            let ghost before = postings@;
            assert(postings@[c as int].vectors@.len() == rows_of(a.take(i as int), c as int).len());
            proof {
                lemma_rows_of(a.take(i as int), c as int);
            }
            let local_id: u32 = postings[c].vectors.len() as u32;
            entry.local_id = local_id;
            assert(vector::entry_view(entry) == views[i as int]);
            addresses.push(
                VectorAddress {
                    id: copy_id(&entry.id),
                    cluster_id: c as u32,
                    local_id,
                    version: entry.version,
                },
            );
            let ghost placed = entry;
            postings[c].vectors.push(entry);
            proof {
                lemma_place_step(before, postings@, views, a, i as int, placed);
            }
        }
        i = i + 1;
    }
    assert(a.take(n as int) =~= a);
    (postings, addresses)
}

// ---------------------------------------------------------------------------
// Building an index
// ---------------------------------------------------------------------------

/// Entries in the order of their keys.
pub struct ById;

impl Comparison<VectorEntry> for ById {
    open spec fn ranks(&self, a: VectorEntry) -> bool {
        true
    }

    open spec fn precedes(&self, a: VectorEntry, b: VectorEntry) -> bool {
        value::id_order(a.id@, b.id@) != Order::Greater
    }

    proof fn lemma_total(&self, a: VectorEntry, b: VectorEntry) {
        <Id as Key>::lemma_total(a.id@, b.id@);
    }

    fn in_order(&self, a: &VectorEntry, b: &VectorEntry) -> (r: bool) {
        !matches!(compare_ids(&a.id, &b.id), Order::Greater)
    }
}

impl Ranking<VectorEntry> for ById {
    proof fn lemma_transitive(&self, a: VectorEntry, b: VectorEntry, c: VectorEntry) {
        vector::lemma_ids_transitive(a.id@, b.id@, c.id@);
    }
}

/// Everything in the documents of the entries can be indexed.
pub open spec fn entries_indexable(
    entries: Seq<EntryView>,
    docs: Map<IdView, DocumentView>,
) -> bool {
    forall|i: int|
        0 <= i < entries.len() && docs.dom().contains((#[trigger] entries[i]).id)
            ==> attr::document_indexable(docs[entries[i].id])
}

proof fn lemma_indexable(
    postings: Seq<VectorPosting>,
    entries: Seq<EntryView>,
    a: Seq<usize>,
    docs: Map<IdView, DocumentView>,
)
    requires
        placed_as(postings, entries, a),
        a.len() == entries.len(),
        forall|i: int| 0 <= i < a.len() ==> (#[trigger] a[i]) < postings.len(),
    ensures
        filter::rows_indexable(postings, docs) == entries_indexable(entries, docs),
{
    if entries_indexable(entries, docs) {
        assert forall|c: int, l: int| (#[trigger] filter::row_document(
            postings,
            docs,
            c,
            l,
        )) matches Some(d) ==> attr::document_indexable(d) by {
            if 0 <= c < postings.len() && 0 <= l < postings[c].vectors@.len() {
                lemma_rows_of(a, c);
                let i = rows_of(a, c)[l];
                assert(vector::entry_view(postings[c].vectors@[l]) == entries[i]);
                assert(entries[i].id == postings[c].vectors@[l].id@);
            }
        }
    }
    if filter::rows_indexable(postings, docs) {
        assert forall|i: int| 0 <= i < entries.len() && docs.dom().contains(
            (#[trigger] entries[i]).id,
        ) implies attr::document_indexable(docs[entries[i].id]) by {
            lemma_row_at(a, i);
            let c = a[i] as int;
            let l = rows_of(a.take(i), c).len() as int;
            assert(postings[c].vectors@.len() == rows_of(a, c).len());
            assert(vector::entry_view(postings[c].vectors@[l]) == entries[i]);
            assert(filter::row_document(postings, docs, c, l) == Some(docs[entries[i].id]));
        }
    }
}

/// An index holds some entries in the clusters that they are assigned to, and
/// knows the attribute values of their documents.
pub open spec fn built_from(
    index: VectorIndex,
    entries: Seq<EntryView>,
    assignments: Seq<usize>,
    docs: Map<IdView, DocumentView>,
) -> bool {
    &&& index.postings@.len() == index.centroids@.len()
    &&& vector::postings_wf(index.postings@)
    &&& placed_as(index.postings@, entries, assignments)
    &&& addressed_as(index.addresses@, entries, assignments)
    &&& index.filter_index.wf(vector::shape_of(index.postings@))
    &&& forall|column: Seq<char>, x: ValueView, cluster: int, row: int| #[trigger]
        filter::index_marks(index.filter_index, column, x, cluster, row) == filter::row_has(
            index.postings@,
            docs,
            column,
            x,
            cluster,
            row,
        )
}

/// An index of entries in given clusters.
pub fn make_index(
    column: String,
    metric: DistanceMetric,
    dim: usize,
    centroids: Vec<Vec<u32>>,
    entries: Vec<VectorEntry>,
    assignments: &Vec<usize>,
    docs: &SortedMap<Id, Document>,
) -> (r: Result<VectorIndex, Error>)
    requires
        documents::docs_wf(*docs),
        centroids@.len() <= u32::MAX,
        entries@.len() <= u32::MAX,
        entries@.len() == assignments@.len(),
        forall|i: int|
            0 <= i < assignments@.len() ==> (#[trigger] assignments@[i]) < centroids@.len(),
    ensures
        r is Ok <==> entries_indexable(views_of(entries@), documents::docs_view(*docs)),
        r is Err ==> r->Err_0 is InvalidSchema,
        match r {
            Ok(index) => {
                &&& index.format_version == VECTOR_FORMAT_VERSION
                &&& index.column == column
                &&& index.dim == dim
                &&& index.metric == metric
                &&& index.centroids == centroids
                &&& built_from(
                    index,
                    views_of(entries@),
                    assignments@,
                    documents::docs_view(*docs),
                )
            },
            Err(_) => true,
        },
{
    let ghost views = views_of(entries@);
    let (postings, addresses) = place_entries(entries, assignments, centroids.len());
    proof {
        lemma_indexable(postings@, views, assignments@, documents::docs_view(*docs));
    }
    match VectorFilterIndex::build(&postings, docs) {
        Ok(filter_index) => Ok(
            VectorIndex {
                format_version: VECTOR_FORMAT_VERSION,
                column,
                dim,
                metric,
                centroids,
                postings,
                addresses,
                filter_index,
            },
        ),
        Err(e) => Err(e),
    }
}

/// Every entry has a vector of `dim` finite components.
pub open spec fn entries_ok(entries: Seq<VectorEntry>, dim: usize) -> bool {
    forall|i: int| 0 <= i < entries.len() ==> vector_ok((#[trigger] entries[i]).vector@, dim)
}

/// What is said of the first of some entries whose vector does not fit the index.
pub open spec fn first_refused(
    entries: Seq<VectorEntry>,
    dim: usize,
    label: Seq<char>,
    words: Seq<char>,
) -> bool {
    exists|i: int| #[trigger] is_first_refused(entries, dim, i) && words == shape_complaint(
        entries[i].vector@,
        dim,
        label,
    )
}

/// The entry at that place is the first whose vector does not fit the index.
pub open spec fn is_first_refused(entries: Seq<VectorEntry>, dim: usize, i: int) -> bool {
    &&& 0 <= i < entries.len()
    &&& !vector_ok(entries[i].vector@, dim)
    &&& forall|j: int| 0 <= j < i ==> vector_ok((#[trigger] entries[j]).vector@, dim)
}

/// What is said of the first entry, in the order of their ids, whose vector does not fit
/// the index.
pub open spec fn first_refused_by_id(
    entries: Seq<VectorEntry>,
    dim: usize,
    label: Seq<char>,
    words: Seq<char>,
) -> bool {
    exists|sorted: Seq<VectorEntry>|
        sorting::is_sorted(sorted, ById) && sorting::keeps_ties(entries, sorted, ById)
            && sorted.to_multiset() == entries.to_multiset() && #[trigger] first_refused(
            sorted,
            dim,
            label,
            words,
        )
}

/// Refuses entries whose vectors do not fit the index.
fn validate_entries(entries: &Vec<VectorEntry>, dim: usize, label: &str) -> (r: Result<(), Error>)
    ensures
        r is Ok <==> entries_ok(entries@, dim),
        r is Err ==> r->Err_0 is InvalidQuery && first_refused(
            entries@,
            dim,
            label@,
            r->Err_0->InvalidQuery_0@,
        ),
{
    let mut i: usize = 0;
    while i < entries.len()
        invariant
            i <= entries@.len(),
            forall|j: int| 0 <= j < i ==> vector_ok((#[trigger] entries@[j]).vector@, dim),
        decreases entries@.len() - i,
    {
        match validate_query_vector(&entries[i].vector, dim, label) {
            Ok(_) => {},
            Err(e) => {
                assert(is_first_refused(entries@, dim, i as int));
                return Err(e);
            },
        }
        i = i + 1;
    }
    Ok(())
}

/// The function that moves centroids to the middle of their clusters can be asked
/// about any clusters, and gives a centroid for each.
pub open spec fn can_recompute<
    G: Fn(&Vec<VectorEntry>, &Vec<usize>, &Vec<Vec<u32>>, DistanceMetric) -> Vec<Vec<u32>>,
>(recompute: G) -> bool {
    &&& forall|
        entries: &Vec<VectorEntry>,
        a: &Vec<usize>,
        centroids: &Vec<Vec<u32>>,
        m: DistanceMetric,
    | #[trigger]
        call_requires(recompute, (entries, a, centroids, m))
    &&& forall|
        entries: &Vec<VectorEntry>,
        a: &Vec<usize>,
        centroids: &Vec<Vec<u32>>,
        m: DistanceMetric,
        next: Vec<Vec<u32>>,
    | #[trigger]
        call_ensures(recompute, (entries, a, centroids, m), next) ==> next@.len() == centroids@.len()
}

/// One round of forming clusters: entries are assigned, then centroids move.
pub open spec fn forms_once<
    F: Fn(&Vec<u32>, &Vec<u32>, DistanceMetric) -> Result<u32, Error>,
    G: Fn(&Vec<VectorEntry>, &Vec<usize>, &Vec<Vec<u32>>, DistanceMetric) -> Vec<Vec<u32>>,
>(
    score: F,
    recompute: G,
    entries: Vec<VectorEntry>,
    metric: DistanceMetric,
    a: Vec<usize>,
    from: Vec<Vec<u32>>,
    to: Vec<Vec<u32>>,
) -> bool {
    &&& well_assigned(score, entries@, from@, metric, a@)
    &&& call_ensures(recompute, (&entries, &a, &from, metric), to)
}

/// Some rounds of forming clusters lead from some centroids to others.
pub open spec fn forms<
    F: Fn(&Vec<u32>, &Vec<u32>, DistanceMetric) -> Result<u32, Error>,
    G: Fn(&Vec<VectorEntry>, &Vec<usize>, &Vec<Vec<u32>>, DistanceMetric) -> Vec<Vec<u32>>,
>(
    score: F,
    recompute: G,
    entries: Vec<VectorEntry>,
    metric: DistanceMetric,
    rounds: nat,
    from: Vec<Vec<u32>>,
    to: Vec<Vec<u32>>,
) -> bool
    decreases rounds,
{
    if rounds == 0 {
        from == to
    } else {
        exists|mid: Vec<Vec<u32>>, a: Vec<usize>|
            forms(score, recompute, entries, metric, (rounds - 1) as nat, from, mid)
                && #[trigger] forms_once(score, recompute, entries, metric, a, mid, to)
    }
}

/// How many clusters are formed: as many as asked for, but at least one and no
/// more than there are entries.
pub open spec fn clusters_formed(asked: int, n: int) -> int {
    if asked < 1 {
        1
    } else if asked > n {
        n
    } else {
        asked
    }
}

/// The centroids that forming clusters starts from: vectors at even distances.
pub open spec fn starts_from(sorted: Seq<VectorEntry>, first: Seq<Vec<u32>>, k: int) -> bool {
    &&& first.len() == k
    &&& forall|i: int|
        0 <= i < k ==> (#[trigger] first[i])@ == sorted[initial_at(
            sorted.len() as int,
            k,
            i,
        )].vector@
}

/// A round of forming clusters fails: an entry has no score with one of the centroids
/// that the rounds before led to, for the reason `e`.
pub open spec fn round_fails<
    F: Fn(&Vec<u32>, &Vec<u32>, DistanceMetric) -> Result<u32, Error>,
    G: Fn(&Vec<VectorEntry>, &Vec<usize>, &Vec<Vec<u32>>, DistanceMetric) -> Vec<Vec<u32>>,
>(
    score: F,
    recompute: G,
    entries: Seq<VectorEntry>,
    clusters: int,
    metric: DistanceMetric,
    sorted: Vec<VectorEntry>,
    first: Vec<Vec<u32>>,
    round: nat,
    reached: Vec<Vec<u32>>,
    e: Error,
) -> bool {
    &&& sorting::is_sorted(sorted@, ById)
    &&& sorting::keeps_ties(entries, sorted@, ById)
    &&& sorted@.to_multiset() == entries.to_multiset()
    &&& starts_from(sorted@, first@, clusters_formed(clusters, entries.len() as int))
    &&& round <= KMEANS_ITERS
    &&& forms(score, recompute, sorted, metric, round, first, reached)
    &&& unassignable(score, sorted@, reached@, metric, e)
}

/// Clusters cannot be formed, for the reason `e`.
pub open spec fn forming_fails<
    F: Fn(&Vec<u32>, &Vec<u32>, DistanceMetric) -> Result<u32, Error>,
    G: Fn(&Vec<VectorEntry>, &Vec<usize>, &Vec<Vec<u32>>, DistanceMetric) -> Vec<Vec<u32>>,
>(
    score: F,
    recompute: G,
    entries: Seq<VectorEntry>,
    clusters: int,
    metric: DistanceMetric,
    e: Error,
) -> bool {
    exists|
        sorted: Vec<VectorEntry>,
        first: Vec<Vec<u32>>,
        round: nat,
        reached: Vec<Vec<u32>>,
    | #[trigger]
        round_fails(
            score,
            recompute,
            entries,
            clusters,
            metric,
            sorted,
            first,
            round,
            reached,
            e,
        )
}

/// The index that is built from some entries.
pub open spec fn is_built<
    F: Fn(&Vec<u32>, &Vec<u32>, DistanceMetric) -> Result<u32, Error>,
    G: Fn(&Vec<VectorEntry>, &Vec<usize>, &Vec<Vec<u32>>, DistanceMetric) -> Vec<Vec<u32>>,
>(
    score: F,
    recompute: G,
    entries: Seq<VectorEntry>,
    clusters: int,
    docs: Map<IdView, DocumentView>,
    index: VectorIndex,
    sorted: Vec<VectorEntry>,
    first: Vec<Vec<u32>>,
    assignments: Seq<usize>,
) -> bool {
    let k = clusters_formed(clusters, entries.len() as int);
    &&& sorting::is_sorted(sorted@, ById)
    &&& sorting::keeps_ties(entries, sorted@, ById)
    &&& sorted@.to_multiset() == entries.to_multiset()
    &&& starts_from(sorted@, first@, k)
    &&& forms(
        score,
        recompute,
        sorted,
        index.metric,
        KMEANS_ITERS as nat,
        first,
        index.centroids,
    )
    &&& index.centroids@.len() == k
    &&& well_assigned(score, sorted@, index.centroids@, index.metric, assignments)
    &&& built_from(index, views_of(sorted@), assignments, docs)
}

proof fn lemma_same_entries(a: Seq<VectorEntry>, b: Seq<VectorEntry>)
    requires
        a.to_multiset() == b.to_multiset(),
    ensures
        forall|i: int| 0 <= i < a.len() ==> b.contains(#[trigger] a[i]),
{
    broadcast use vstd::seq_lib::group_to_multiset_ensures;

    assert forall|i: int| 0 <= i < a.len() implies b.contains(#[trigger] a[i]) by {
        assert(a.contains(a[i]));
        assert(a.to_multiset().count(a[i]) > 0);
    }
}

proof fn lemma_multiset_forall(a: Seq<VectorEntry>, b: Seq<VectorEntry>, dim: usize, docs: Map<
    IdView,
    DocumentView,
>)
    requires
        a.to_multiset() == b.to_multiset(),
    ensures
        entries_ok(a, dim) ==> entries_ok(b, dim),
        entries_indexable(views_of(a), docs) ==> entries_indexable(views_of(b), docs),
{
    broadcast use vstd::seq_lib::group_to_multiset_ensures;

    if entries_ok(a, dim) {
        assert forall|i: int| 0 <= i < b.len() implies vector_ok(
            (#[trigger] b[i]).vector@,
            dim,
        ) by {
            assert(b.contains(b[i]));
            assert(b.to_multiset().count(b[i]) > 0);
            assert(a.contains(b[i]));
            let j = a.index_of(b[i]);
            assert(a[j] == b[i]);
        }
    }
    if entries_indexable(views_of(a), docs) {
        assert forall|i: int| 0 <= i < views_of(b).len() && docs.dom().contains(
            (#[trigger] views_of(b)[i]).id,
        ) implies attr::document_indexable(docs[views_of(b)[i].id]) by {
            assert(b.contains(b[i]));
            assert(b.to_multiset().count(b[i]) > 0);
            assert(a.contains(b[i]));
            let j = a.index_of(b[i]);
            assert(a[j] == b[i]);
            assert(views_of(a)[j] == views_of(b)[i]);
        }
    }
}

impl VectorIndex {
    /// Builds an index of some entries. There is none without entries. The
    /// clusters are formed in rounds, from centroids taken at even distances.
    pub fn build<
        F: Copy + Fn(&Vec<u32>, &Vec<u32>, DistanceMetric) -> Result<u32, Error>,
        G: Copy + Fn(
            &Vec<VectorEntry>,
            &Vec<usize>,
            &Vec<Vec<u32>>,
            DistanceMetric,
        ) -> Vec<Vec<u32>>,
    >(
        column: String,
        metric: DistanceMetric,
        dim: usize,
        entries: Vec<VectorEntry>,
        docs: &SortedMap<Id, Document>,
        score: F,
        recompute: G,
    ) -> (r: Result<Option<VectorIndex>, Error>)
        requires
            documents::docs_wf(*docs),
            entries@.len() <= u32::MAX,
            vector::can_score(score),
            can_recompute(recompute),
        ensures
            exists|clusters: int| #[trigger]
                is_cluster_count(entries@.len() as int, clusters) && build_outcome(
                    score,
                    recompute,
                    clusters,
                    column,
                    metric,
                    dim,
                    entries@,
                    documents::docs_view(*docs),
                    r,
                ),
            r matches Ok(Some(index)) ==> exists|
                clusters: int,
                sorted: Vec<VectorEntry>,
                first: Vec<Vec<u32>>,
                assignments: Seq<usize>,
            |
                is_cluster_count(entries@.len() as int, clusters) && #[trigger] is_built(
                    score,
                    recompute,
                    entries@,
                    clusters,
                    documents::docs_view(*docs),
                    index,
                    sorted,
                    first,
                    assignments,
                ),
    {
        let clusters = cluster_count(entries.len());
        VectorIndex::build_with_cluster_count(
            column,
            metric,
            dim,
            entries,
            docs,
            clusters,
            score,
            recompute,
        )
    }

    /// Builds an index of some entries with a given number of clusters.
    pub fn build_with_cluster_count<
        F: Copy + Fn(&Vec<u32>, &Vec<u32>, DistanceMetric) -> Result<u32, Error>,
        G: Copy + Fn(
            &Vec<VectorEntry>,
            &Vec<usize>,
            &Vec<Vec<u32>>,
            DistanceMetric,
        ) -> Vec<Vec<u32>>,
    >(
        column: String,
        metric: DistanceMetric,
        dim: usize,
        entries: Vec<VectorEntry>,
        docs: &SortedMap<Id, Document>,
        clusters: usize,
        score: F,
        recompute: G,
    ) -> (r: Result<Option<VectorIndex>, Error>)
        requires
            documents::docs_wf(*docs),
            entries@.len() <= u32::MAX,
            vector::can_score(score),
            can_recompute(recompute),
        ensures
            build_outcome(
                score,
                recompute,
                clusters as int,
                column,
                metric,
                dim,
                entries@,
                documents::docs_view(*docs),
                r,
            ),
            r matches Ok(Some(index)) ==> exists|
                sorted: Vec<VectorEntry>,
                first: Vec<Vec<u32>>,
                assignments: Seq<usize>,
            | #[trigger]
                is_built(
                    score,
                    recompute,
                    entries@,
                    clusters as int,
                    documents::docs_view(*docs),
                    index,
                    sorted,
                    first,
                    assignments,
                ),
    {
        let n = entries.len();
        let ghost all = documents::docs_view(*docs);
        if n == 0 {
            return Ok(None);
        }
        let sorted = sort(entries, &ById);
        proof {
            lemma_multiset_forall(entries@, sorted@, dim, all);
            lemma_multiset_forall(sorted@, entries@, dim, all);
        }
        match validate_entries(&sorted, dim, "indexed vector") {
            Ok(_) => {},
            Err(e) => {
                assert(first_refused(
                    sorted@,
                    dim,
                    "indexed vector"@,
                    e->InvalidQuery_0@,
                ));
                return Err(e);
            },
        }
        let k: usize = if clusters < 1 {
            1
        } else if clusters > n {
            n
        } else {
            clusters
        };
        let first = initial_centroids(&sorted, k);
        let ghost start = first;
        proof {
            broadcast use vstd::seq_lib::group_to_multiset_ensures;

            assert(sorted@.len() == sorted@.to_multiset().len());
            assert(entries@.len() == entries@.to_multiset().len());
            assert(starts_from(sorted@, start@, k as int));
        }
        let mut centroids = first;
        let mut round: usize = 0;
        while round < KMEANS_ITERS
            invariant
                round <= KMEANS_ITERS,
                vector::can_score(score),
                can_recompute(recompute),
                0 < k,
                entries@.len() > 0,
                entries_ok(entries@, dim),
                k == clusters_formed(clusters as int, entries@.len() as int),
                sorting::is_sorted(sorted@, ById),
                sorting::keeps_ties(entries@, sorted@, ById),
                sorted@.to_multiset() == entries@.to_multiset(),
                starts_from(sorted@, start@, k as int),
                centroids@.len() == k,
                forms(score, recompute, sorted, metric, round as nat, start, centroids),
            ensures
                forms(score, recompute, sorted, metric, KMEANS_ITERS as nat, start, centroids),
                centroids@.len() == k,
            decreases KMEANS_ITERS - round,
        {
            let a = match assign_entries(&sorted, &centroids, metric, score) {
                Ok(a) => a,
                Err(e) => {
                    assert(round_fails(
                        score,
                        recompute,
                        entries@,
                        clusters as int,
                        metric,
                        sorted,
                        start,
                        round as nat,
                        centroids,
                        e,
                    ));
                    return Err(e);
                },
            };
            let next = recompute(&sorted, &a, &centroids, metric);
            assert(forms_once(score, recompute, sorted, metric, a, centroids, next));
            centroids = next;
            round = round + 1;
        }
        let a = match assign_entries(&sorted, &centroids, metric, score) {
            Ok(a) => a,
            Err(e) => {
                assert(round_fails(
                    score,
                    recompute,
                    entries@,
                    clusters as int,
                    metric,
                    sorted,
                    start,
                    KMEANS_ITERS as nat,
                    centroids,
                    e,
                ));
                return Err(e);
            },
        };
        let ghost kept = sorted;
        let made = make_index(column, metric, dim, centroids, sorted, &a, docs);
        match made {
            Ok(index) => {
                assert(is_built(
                    score,
                    recompute,
                    entries@,
                    clusters as int,
                    all,
                    index,
                    kept,
                    start,
                    a@,
                ));
                Ok(Some(index))
            },
            Err(e) => Err(e),
        }
    }

    /// Builds an index of some entries around the centroids of another one.
    pub fn build_append<
        F: Copy + Fn(&Vec<u32>, &Vec<u32>, DistanceMetric) -> Result<u32, Error>,
    >(
        column: String,
        metric: DistanceMetric,
        dim: usize,
        centroids: Vec<Vec<u32>>,
        entries: Vec<VectorEntry>,
        docs: &SortedMap<Id, Document>,
        score: F,
    ) -> (r: Result<Option<VectorIndex>, Error>)
        requires
            documents::docs_wf(*docs),
            entries@.len() <= u32::MAX,
            centroids@.len() <= u32::MAX,
            vector::can_score(score),
        ensures
            entries@.len() == 0 ==> r is Ok && r->Ok_0 is None,
            entries@.len() > 0 && centroids@.len() == 0 ==> r is Err && r->Err_0 is Corrupt
                && r->Err_0->Corrupt_0@ == "cannot append vectors without base centroids"@,
            entries@.len() > 0 && !centroids_ok(centroids@, dim) ==> r is Err
                && r->Err_0 is InvalidQuery && refused_centroid(
                centroids@,
                dim,
                r->Err_0->InvalidQuery_0@,
            ),
            entries@.len() > 0 && centroids@.len() > 0 && centroids_ok(centroids@, dim)
                && !entries_ok(entries@, dim) ==> r is Err && r->Err_0 is InvalidQuery
                && first_refused_by_id(
                entries@,
                dim,
                "appended vector"@,
                r->Err_0->InvalidQuery_0@,
            ),
            entries@.len() > 0 && centroids@.len() > 0 && centroids_ok(centroids@, dim)
                && entries_ok(entries@, dim) ==> match r {
                Ok(Some(index)) => {
                    &&& entries_indexable(views_of(entries@), documents::docs_view(*docs))
                    &&& index.format_version == VECTOR_FORMAT_VERSION
                    &&& index.column == column
                    &&& index.dim == dim
                    &&& index.metric == metric
                    &&& index.centroids == centroids
                    &&& exists|sorted: Seq<VectorEntry>, assignments: Seq<usize>| #[trigger]
                        is_appended(
                            score,
                            entries@,
                            documents::docs_view(*docs),
                            index,
                            sorted,
                            assignments,
                        )
                },
                Ok(None) => false,
                Err(e) => unassignable(score, entries@, centroids@, metric, e) || (e is InvalidSchema
                    && !entries_indexable(views_of(entries@), documents::docs_view(*docs))),
            },
    {
        let ghost all = documents::docs_view(*docs);
        if entries.len() == 0 {
            return Ok(None);
        }
        if centroids.len() == 0 {
            return Err(corrupt("cannot append vectors without base centroids"));
        }
        let mut i: usize = 0;
        while i < centroids.len()
            invariant
                i <= centroids@.len(),
                centroids@.len() > 0,
                entries@.len() > 0,
                forall|j: int| 0 <= j < i ==> vector_ok((#[trigger] centroids@[j])@, dim),
            decreases centroids@.len() - i,
        {
            match validate_query_vector(&centroids[i], dim, "append centroid") {
                Ok(_) => {},
                Err(e) => {
                    assert(is_refused_centroid(centroids@, dim, i as int));
                    return Err(e);
                },
            }
            i = i + 1;
        }
        let sorted = sort(entries, &ById);
        proof {
            lemma_multiset_forall(entries@, sorted@, dim, all);
            lemma_multiset_forall(sorted@, entries@, dim, all);
        }
        match validate_entries(&sorted, dim, "appended vector") {
            Ok(_) => {},
            Err(e) => {
                assert(first_refused(
                    sorted@,
                    dim,
                    "appended vector"@,
                    e->InvalidQuery_0@,
                ));
                return Err(e);
            },
        }
        let a = match assign_entries(&sorted, &centroids, metric, score) {
            Ok(a) => a,
            Err(e) => {
                proof {
                    lemma_same_entries(sorted@, entries@);
                    let i = choose|i: int|
                        0 <= i < sorted@.len() && vector::no_score_with(
                            score,
                            (#[trigger] sorted@[i]).vector,
                            centroids@,
                            metric,
                            e,
                        );
                    assert(entries@.contains(sorted@[i]));
                    let j = entries@.index_of(sorted@[i]);
                    assert(entries@[j].vector == sorted@[i].vector);
                }
                return Err(e);
            },
        };
        let ghost kept = sorted@;
        match make_index(column, metric, dim, centroids, sorted, &a, docs) {
            Ok(index) => {
                assert(is_appended(score, entries@, all, index, kept, a@));
                Ok(Some(index))
            },
            Err(e) => Err(e),
        }
    }

    /// Refuses an index of an unknown format, and one without clusters.
    pub fn check_format(&self) -> (r: Result<(), Error>)
        ensures
            r is Ok <==> self.format_version == VECTOR_FORMAT_VERSION && self.centroids@.len() > 0,
            r is Err ==> r->Err_0 is Corrupt && r->Err_0->Corrupt_0@ == (if self.format_version
                != VECTOR_FORMAT_VERSION {
                "unsupported vector index body version "@ + strings::decimal(
                    self.format_version as nat,
                )
            } else {
                "vector index has no centroids"@
            }),
    {
        if self.format_version != VECTOR_FORMAT_VERSION {
            return Err(Error::Corrupt(
                    say("unsupported vector index body version ").number(
                        self.format_version as u64,
                    ).done(),
                ));
        }
        if self.centroids.len() == 0 {
            return Err(corrupt("vector index has no centroids"));
        }
        Ok(())
    }
}

/// Every centroid has `dim` finite components.
pub open spec fn centroids_ok(centroids: Seq<Vec<u32>>, dim: usize) -> bool {
    forall|i: int| 0 <= i < centroids.len() ==> vector_ok((#[trigger] centroids[i])@, dim)
}

/// The centroid at that place is the first that does not fit the index.
pub open spec fn is_refused_centroid(centroids: Seq<Vec<u32>>, dim: usize, i: int) -> bool {
    &&& 0 <= i < centroids.len()
    &&& !vector_ok(centroids[i]@, dim)
    &&& forall|j: int| 0 <= j < i ==> vector_ok((#[trigger] centroids[j])@, dim)
}

/// What is said of the first centroid that does not fit the index.
pub open spec fn refused_centroid(centroids: Seq<Vec<u32>>, dim: usize, words: Seq<char>) -> bool {
    exists|i: int| #[trigger] is_refused_centroid(centroids, dim, i) && words == shape_complaint(
        centroids[i]@,
        dim,
        "append centroid"@,
    )
}

/// The index that is built from some entries around given centroids.
pub open spec fn is_appended<F: Fn(&Vec<u32>, &Vec<u32>, DistanceMetric) -> Result<u32, Error>>(
    score: F,
    entries: Seq<VectorEntry>,
    docs: Map<IdView, DocumentView>,
    index: VectorIndex,
    sorted: Seq<VectorEntry>,
    assignments: Seq<usize>,
) -> bool {
    &&& sorting::is_sorted(sorted, ById)
    &&& sorting::keeps_ties(entries, sorted, ById)
    &&& sorted.to_multiset() == entries.to_multiset()
    &&& well_assigned(score, sorted, index.centroids@, index.metric, assignments)
    &&& built_from(index, views_of(sorted), assignments, docs)
}

/// When an index is built, and why it is not.
pub open spec fn build_outcome<
    F: Fn(&Vec<u32>, &Vec<u32>, DistanceMetric) -> Result<u32, Error>,
    G: Fn(&Vec<VectorEntry>, &Vec<usize>, &Vec<Vec<u32>>, DistanceMetric) -> Vec<Vec<u32>>,
>(
    score: F,
    recompute: G,
    clusters: int,
    column: String,
    metric: DistanceMetric,
    dim: usize,
    entries: Seq<VectorEntry>,
    docs: Map<IdView, DocumentView>,
    r: Result<Option<VectorIndex>, Error>,
) -> bool {
    &&& entries.len() == 0 ==> r is Ok && r->Ok_0 is None
    &&& entries.len() > 0 && !entries_ok(entries, dim) ==> r is Err && r->Err_0 is InvalidQuery
        && first_refused_by_id(
        entries,
        dim,
        "indexed vector"@,
        r->Err_0->InvalidQuery_0@,
    )
    &&& entries.len() > 0 && entries_ok(entries, dim) ==> match r {
        Ok(Some(index)) => {
            &&& entries_indexable(views_of(entries), docs)
            &&& index.format_version == VECTOR_FORMAT_VERSION
            &&& index.column == column
            &&& index.dim == dim
            &&& index.metric == metric
        },
        Ok(None) => false,
        Err(e) => forming_fails(score, recompute, entries, clusters, metric, e) || (
        e is InvalidSchema && !entries_indexable(views_of(entries), docs)),
    }
}

/// A vector goes to the cluster whose centroid it scores best with, and of several to the
/// first.
pub proof fn law_best_centroid_has_the_highest_score(ss: Seq<u32>, i: int)
    requires
        forall|k: int| 0 <= k < ss.len() ==> rounding::is_number(#[trigger] ss[k]),
        0 <= i < ss.len(),
    ensures
        0 <= best_of(ss).0 < ss.len(),
        best_of(ss).1 == ss[best_of(ss).0],
        rounding::number(ss[i]) <= rounding::number(ss[best_of(ss).0]),
        i < best_of(ss).0 ==> rounding::number(ss[i]) < rounding::number(ss[best_of(ss).0]),
    decreases ss.len(),
{
    let front = ss.drop_last();
    assert forall|k: int| 0 <= k < front.len() implies rounding::is_number(
        #[trigger] front[k],
    ) by {
        assert(front[k] == ss[k]);
    }
    if front.len() > 0 {
        law_best_centroid_has_the_highest_score(front, if i < front.len() {
            i
        } else {
            0
        });
        let p = best_of(front);
        assert(front[p.0] == ss[p.0]);
        assert(rounding::is_number(ss[p.0]));
        rounding::law_higher_score_is_higher_number(ss.last(), ss[p.0]);
    } else {
        assert(front =~= Seq::empty());
        assert(best_of(front) == (0int, SCORE_LOWEST));
        assert(vector::beats(ss.last(), SCORE_LOWEST));
    }
}

/// More vectors get no fewer clusters; a square of vectors gets as many clusters as each
/// would then hold, up to the limit, and where there is any vector there is a cluster.
pub proof fn law_clusters_grow_with_the_root(n: int, k: int, m: int, l: int, side: int)
    requires
        is_cluster_count(n, k),
        is_cluster_count(m, l),
        0 <= n <= m,
        0 <= side <= MAX_CLUSTERS,
    ensures
        k <= l,
        n == side * side ==> k == side,
        k <= n,
{
    if n > 0 && l < k {
        assert(l * l <= (k - 1) * (k - 1)) by (nonlinear_arith)
            requires
                0 <= l <= k - 1,
        ;
    }
    if n == side * side {
        if side == 0 {
            assert(side * side == 0);
        } else {
            assert(side * side >= 1) by (nonlinear_arith)
                requires
                    side >= 1,
            ;
        }
        if k > side && n > 0 {
            assert(side * side <= (k - 1) * (k - 1)) by (nonlinear_arith)
                requires
                    0 <= side <= k - 1,
            ;
        }
        if k < side {
            assert(k * k < side * side) by (nonlinear_arith)
                requires
                    0 <= k < side,
            ;
        }
    }
    if n > 0 && k >= 2 {
        assert((k - 1) * (k - 1) >= k - 1) by (nonlinear_arith)
            requires
                k - 1 >= 1,
        ;
    }
}

/// The first centroids are vectors of the list, from its first on, each behind the one
/// before; between neighbors there are as many vectors as between any others, but for one.
pub proof fn law_first_centroids_are_spread_evenly(n: int, clusters: int, i: int, j: int)
    requires
        0 < clusters <= n,
        0 <= i < clusters,
        0 <= j < clusters,
    ensures
        initial_at(n, clusters, 0) == 0,
        0 <= initial_at(n, clusters, i) < n,
        initial_at(n, clusters, i) < initial_at(n, clusters, i + 1),
        initial_at(n, clusters, i + 1) - initial_at(n, clusters, i) <= initial_at(
            n,
            clusters,
            j + 1,
        ) - initial_at(n, clusters, j) + 1,
{
    lemma_even_step(n, clusters, i);
    lemma_even_step(n, clusters, j);
    assert(0 * n / clusters == 0) by (nonlinear_arith)
        requires
            clusters > 0,
    ;
    let at = initial_at(n, clusters, i);
    assert(0 <= at < n) by (nonlinear_arith)
        requires
            at == i * n / clusters,
            0 <= i < clusters,
            n > 0,
    ;
}

proof fn lemma_even_step(n: int, clusters: int, i: int)
    requires
        0 < clusters <= n,
        0 <= i,
    ensures
        n / clusters >= 1,
        n / clusters <= initial_at(n, clusters, i + 1) - initial_at(n, clusters, i) <= n / clusters
            + 1,
{
    let a = i * n;
    let q = a / clusters;
    let r = a % clusters;
    let p = n / clusters;
    let s = n % clusters;
    assert((i + 1) * n == a + n) by (nonlinear_arith)
        requires
            a == i * n,
    ;
    vstd::arithmetic::div_mod::lemma_fundamental_div_mod(a, clusters);
    vstd::arithmetic::div_mod::lemma_fundamental_div_mod(n, clusters);
    assert(a + n == clusters * (q + p) + (r + s)) by (nonlinear_arith)
        requires
            a == clusters * q + r,
            n == clusters * p + s,
    ;
    if r + s < clusters {
        vstd::arithmetic::div_mod::lemma_fundamental_div_mod_converse(
            a + n,
            clusters,
            q + p,
            r + s,
        );
    } else {
        assert(clusters * (q + p) + clusters == clusters * (q + p + 1)) by (nonlinear_arith);
        vstd::arithmetic::div_mod::lemma_fundamental_div_mod_converse(
            a + n,
            clusters,
            q + p + 1,
            r + s - clusters,
        );
    }
    assert(p >= 1) by (nonlinear_arith)
        requires
            n == clusters * p + s,
            n >= clusters,
            s < clusters,
            clusters > 0,
    ;
}

/// A cluster has the positions that are assigned to it and no other, each once and in
/// order.
pub proof fn law_clusters_share_out_the_entries(a: Seq<usize>, cluster: int, i: int)
    requires
        0 <= i < a.len(),
    ensures
        rows_of(a, cluster).contains(i) <==> a[i] == cluster,
        forall|k: int, l: int|
            0 <= k < l < rows_of(a, cluster).len() ==> (#[trigger] rows_of(a, cluster)[k]) < (
            #[trigger] rows_of(a, cluster)[l]),
{
    lemma_rows_of(a, cluster);
    lemma_rows_rise(a, cluster);
    if a[i] == cluster {
        lemma_row_at(a, i);
        let k = rows_of(a.take(i), a[i] as int).len() as int;
        assert(rows_of(a, cluster)[k] == i);
    }
    if rows_of(a, cluster).contains(i) {
        let k = rows_of(a, cluster).index_of(i);
        assert(a[rows_of(a, cluster)[k]] == cluster);
    }
}

proof fn lemma_rows_rise(a: Seq<usize>, cluster: int)
    ensures
        forall|k: int, l: int|
            0 <= k < l < rows_of(a, cluster).len() ==> (#[trigger] rows_of(a, cluster)[k]) < (
            #[trigger] rows_of(a, cluster)[l]),
    decreases a.len(),
{
    if a.len() > 0 {
        let front = a.drop_last();
        lemma_rows_rise(front, cluster);
        lemma_rows_of(front, cluster);
        let rows = rows_of(a, cluster);
        let before = rows_of(front, cluster);
        assert forall|k: int, l: int| 0 <= k < l < rows.len() implies (#[trigger] rows[k]) < (
        #[trigger] rows[l]) by {
            if l < before.len() {
                assert(rows[k] == before[k] && rows[l] == before[l]);
            } else {
                assert(rows[k] == before[k]);
            }
        }
    }
}

/// The address of an entry leads to it: in the cluster that it names, at the place that it
/// names, is the entry.
pub proof fn law_addresses_lead_to_their_entries(
    postings: Seq<VectorPosting>,
    addresses: Seq<VectorAddress>,
    entries: Seq<EntryView>,
    assignments: Seq<usize>,
    i: int,
)
    requires
        placed_as(postings, entries, assignments),
        addressed_as(addresses, entries, assignments),
        0 <= i < assignments.len(),
        assignments[i] < postings.len(),
    ensures
        ({
            let a = addresses[i];
            &&& a.local_id < postings[a.cluster_id as int].vectors@.len()
            &&& vector::entry_view(postings[a.cluster_id as int].vectors@[a.local_id as int])
                == entries[i]
            &&& a.id@ == entries[i].id
            &&& a.version == entries[i].version
        }),
{
    lemma_row_at(assignments, i);
    let c = assignments[i] as int;
    assert(postings[c].vectors@.len() == rows_of(assignments, c).len());
    let l = rows_of(assignments.take(i), c).len() as int;
    assert(addresses[i].local_id == l);
    assert(vector::entry_view(postings[c].vectors@[l]) == entries[rows_of(assignments, c)[l]]);
}

} // verus!
