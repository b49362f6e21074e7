//! Keeping a vector index in shape: which clusters have become too large or too
//! small, and moving the vectors around them.

use vstd::prelude::*;

use crate::rounding;
use crate::phrase::say;
use crate::error::{corrupt, Error};
use crate::schema::DistanceMetric;
use crate::seqs;
use crate::sorted;
use crate::sorting;
use crate::sorting::arrange;
use crate::strings::same_text;
use crate::value::{Id, IdView};
use crate::vector;
use crate::vector::index;
use crate::vector::index::validate_query_vector;
use crate::vector::search;
use crate::vector::search::{NearestFirst, ScoredCluster};
use crate::vector::{score_beats, VectorEntry, VectorIndex, VectorPosting, VectorVersionMap};

verus! {

// ---------------------------------------------------------------------------
// The cluster of a vector
// ---------------------------------------------------------------------------

/// Two components are equal as numbers.
pub open spec fn component_eq(a: u32, b: u32) -> bool {
    vector::score_rank(a) is Some && vector::score_rank(a) == vector::score_rank(b)
}

/// Two vectors are equal as numbers.
pub open spec fn same_numbers(a: Seq<u32>, b: Seq<u32>) -> bool {
    a.len() == b.len() && forall|i: int| 0 <= i < a.len() ==> component_eq(#[trigger] a[i], b[i])
}

/// Two lists of centroids are equal as numbers.
pub open spec fn same_topology(a: Seq<Vec<u32>>, b: Seq<Vec<u32>>) -> bool {
    a.len() == b.len() && forall|i: int|
        0 <= i < a.len() ==> same_numbers((#[trigger] a[i])@, b[i]@)
}

fn vectors_equal(a: &Vec<u32>, b: &Vec<u32>) -> (r: bool)
    ensures
        r == same_numbers(a@, b@),
{
    if a.len() != b.len() {
        return false;
    }
    let mut i: usize = 0;
    while i < a.len()
        invariant
            i <= a@.len(),
            a@.len() == b@.len(),
            forall|j: int| 0 <= j < i ==> component_eq(#[trigger] a@[j], b@[j]),
        decreases a@.len() - i,
    {
        let x: u32 = a[i];
        let y: u32 = b[i];
        let nan: bool = x % 0x8000_0000 > 0x7f80_0000 || y % 0x8000_0000 > 0x7f80_0000;
        if nan || vector::place_of(x) != vector::place_of(y) {
            assert(!component_eq(a@[i as int], b@[i as int]));
            return false;
        }
        i = i + 1;
    }
    true
}

pub(crate) fn topology_equal(a: &Vec<Vec<u32>>, b: &Vec<Vec<u32>>) -> (r: bool)
    ensures
        r == same_topology(a@, b@),
{
    if a.len() != b.len() {
        return false;
    }
    let mut i: usize = 0;
    while i < a.len()
        invariant
            i <= a@.len(),
            a@.len() == b@.len(),
            forall|j: int| 0 <= j < i ==> same_numbers((#[trigger] a@[j])@, b@[j]@),
        decreases a@.len() - i,
    {
        if !vectors_equal(&a[i], &b[i]) {
            assert(!same_numbers(a@[i as int]@, b@[i as int]@));
            return false;
        }
        i = i + 1;
    }
    true
}

/// The best of some clusters with its score: the highest score, and of equal ones
/// the lower number.
pub open spec fn nearest_of(ids: Seq<u32>, ss: Seq<u32>) -> (u32, u32)
    decreases ss.len(),
{
    if ss.len() <= 1 {
        (ids[0], ss[0])
    } else {
        let p = nearest_of(ids.drop_last(), ss.drop_last());
        let better = vector::beats(ss.last(), p.1) || (!vector::beats(p.1, ss.last()) && ids.last()
            < p.0);
        if better {
            (ids.last(), ss.last())
        } else {
            p
        }
    }
}

/// `ss` are the scores of a vector with the centroids of some clusters.
pub open spec fn cluster_scores<F: Fn(&Vec<u32>, &Vec<u32>, DistanceMetric) -> Result<u32, Error>>(
    score: F,
    base: VectorIndex,
    vector: Vec<u32>,
    ids: Seq<u32>,
    ss: Seq<u32>,
) -> bool {
    &&& ss.len() == ids.len()
    &&& forall|i: int|
        0 <= i < ss.len() ==> vector::scores(
            score,
            vector,
            base.centroids@[ids[i] as int],
            base.metric,
            #[trigger] ss[i],
        )
}

/// A cluster is the nearest of some to a vector.
pub open spec fn is_nearest<F: Fn(&Vec<u32>, &Vec<u32>, DistanceMetric) -> Result<u32, Error>>(
    score: F,
    base: VectorIndex,
    vector: Vec<u32>,
    ids: Seq<u32>,
    cluster: u32,
) -> bool {
    exists|ss: Seq<u32>| #[trigger]
        cluster_scores(score, base, vector, ids, ss) && nearest_of(ids, ss).0 == cluster
}

proof fn lemma_nearest_is_one(ids: Seq<u32>, ss: Seq<u32>)
    requires
        ids.len() == ss.len(),
        ids.len() > 0,
    ensures
        ids.contains(nearest_of(ids, ss).0),
    decreases ss.len(),
{
    if ss.len() <= 1 {
        assert(ids[0] == nearest_of(ids, ss).0);
    } else {
        lemma_nearest_is_one(ids.drop_last(), ss.drop_last());
        let p = nearest_of(ids.drop_last(), ss.drop_last()).0;
        let i = ids.drop_last().index_of(p);
        assert(ids[i] == p);
        assert(ids[ids.len() - 1] == ids.last());
    }
}

/// A vector has no score with the centroid of one of some clusters, for the reason `e`.
pub open spec fn no_near_score<F: Fn(&Vec<u32>, &Vec<u32>, DistanceMetric) -> Result<u32, Error>>(
    score: F,
    base: VectorIndex,
    vector: Vec<u32>,
    ids: Seq<u32>,
    e: Error,
) -> bool {
    exists|i: int|
        0 <= i < ids.len() && #[trigger] vector::no_score(
            score,
            vector,
            base.centroids@[ids[i] as int],
            base.metric,
            e,
        )
}

/// The nearest of some clusters to a vector. `label` names the vector where it is
/// refused, and `none` says that there are no clusters.
pub fn nearest_cluster<F: Copy + Fn(&Vec<u32>, &Vec<u32>, DistanceMetric) -> Result<u32, Error>>(
    base: &VectorIndex,
    vector: &Vec<u32>,
    ids: &Vec<u32>,
    label: &str,
    none: &str,
    score: F,
) -> (r: Result<u32, Error>)
    requires
        vector::can_score(score),
        forall|i: int| 0 <= i < ids@.len() ==> (#[trigger] ids@[i]) < base.centroids@.len(),
    ensures
        !index::vector_ok(vector@, base.dim) ==> r is Err && r->Err_0 is InvalidQuery
            && r->Err_0->InvalidQuery_0@ == index::shape_complaint(vector@, base.dim, label@),
        index::vector_ok(vector@, base.dim) && ids@.len() == 0 ==> r is Err && r->Err_0 is Corrupt
            && r->Err_0->Corrupt_0@ == none@,
        index::vector_ok(vector@, base.dim) && ids@.len() > 0 ==> match r {
            Ok(c) => is_nearest(score, *base, *vector, ids@, c) && ids@.contains(c),
            Err(e) => no_near_score(score, *base, *vector, ids@, e),
        },
{
    match validate_query_vector(vector, base.dim, label) {
        Ok(_) => {},
        Err(e) => {
            return Err(e);
        },
    }
    if ids.len() == 0 {
        return Err(corrupt(none));
    }
    let mut best: u32 = ids[0];
    assert(ids@[0] < base.centroids@.len());
    let mut best_score: u32 = match score(vector, &base.centroids[best as usize], base.metric) {
        Ok(s) => s,
        Err(e) => {
            assert(vector::no_score(
                score,
                *vector,
                base.centroids@[ids@[0] as int],
                base.metric,
                e,
            ));
            return Err(e);
        },
    };
    let ghost mut ss: Seq<u32> = seq![best_score];
    assert(vector::scores(score, *vector, base.centroids@[best as int], base.metric, best_score));
    let mut i: usize = 1;
    while i < ids.len()
        invariant
            1 <= i <= ids@.len(),
            index::vector_ok(vector@, base.dim),
            vector::can_score(score),
            forall|k: int| 0 <= k < ids@.len() ==> (#[trigger] ids@[k]) < base.centroids@.len(),
            ss.len() == i,
            forall|k: int|
                0 <= k < i ==> vector::scores(
                    score,
                    *vector,
                    base.centroids@[ids@[k] as int],
                    base.metric,
                    #[trigger] ss[k],
                ),
            nearest_of(ids@.take(i as int), ss) == (best, best_score),
        decreases ids@.len() - i,
    {
        let id: u32 = ids[i];
        assert(ids@[i as int] < base.centroids@.len());
        match score(vector, &base.centroids[id as usize], base.metric) {
            Ok(s) => {
                assert(vector::scores(score, *vector, base.centroids@[id as int], base.metric, s));
                proof {
                    assert(ss.push(s).drop_last() =~= ss);
                    assert(ids@.take(i + 1).drop_last() =~= ids@.take(i as int));
                    ss = ss.push(s);
                }
                if score_beats(s, best_score) || (!score_beats(best_score, s) && id < best) {
                    best = id;
                    best_score = s;
                }
            },
            Err(e) => {
                assert(vector::no_score(
                    score,
                    *vector,
                    base.centroids@[ids@[i as int] as int],
                    base.metric,
                    e,
                ));
                return Err(e);
            },
        }
        i = i + 1;
    }
    proof {
        assert(ids@.take(i as int) =~= ids@);
        lemma_nearest_is_one(ids@, ss);
        assert(cluster_scores(score, *base, *vector, ids@, ss));
    }
    Ok(best)
}

/// All clusters of an index, in order.
pub open spec fn all_clusters(n: int) -> Seq<u32> {
    Seq::new(n as nat, |i: int| i as u32)
}

pub(crate) fn cluster_list(n: usize) -> (ids: Vec<u32>)
    requires
        n <= u32::MAX,
    ensures
        ids@ == all_clusters(n as int),
{
    let mut ids: Vec<u32> = Vec::new();
    let mut i: usize = 0;
    while i < n
        invariant
            i <= n,
            n <= u32::MAX,
            ids@ == all_clusters(i as int),
        decreases n - i,
    {
        ids.push(i as u32);
        i = i + 1;
        assert(ids@ =~= all_clusters(i as int));
    }
    ids
}

// ---------------------------------------------------------------------------
// The neighbors of a cluster
// ---------------------------------------------------------------------------

/// The other clusters, each once, with the scores of their centroids, nearest
/// first.
pub open spec fn are_others<F: Fn(&Vec<u32>, &Vec<u32>, DistanceMetric) -> Result<u32, Error>>(
    score: F,
    base: VectorIndex,
    cluster: int,
    others: Seq<ScoredCluster>,
) -> bool {
    &&& forall|i: int|
        0 <= i < others.len() ==> {
            &&& (#[trigger] others[i]).cluster < base.centroids@.len()
            &&& others[i].cluster != cluster
            &&& vector::scores(
                score,
                base.centroids@[cluster],
                base.centroids@[others[i].cluster as int],
                base.metric,
                others[i].score,
            )
        }
    &&& forall|c: int|
        0 <= c < base.centroids@.len() && c != cluster ==> #[trigger] search::has_cluster(others, c)
    &&& others.len() == base.centroids@.len() - 1
}

/// The nearest neighbors of a cluster, at most `limit`.
pub open spec fn are_neighbors<F: Fn(&Vec<u32>, &Vec<u32>, DistanceMetric) -> Result<u32, Error>>(
    score: F,
    base: VectorIndex,
    cluster: int,
    limit: int,
    others: Seq<ScoredCluster>,
    ids: Seq<u32>,
) -> bool {
    &&& are_others(score, base, cluster, others)
    &&& sorting::is_arranged(others, NearestFirst)
    &&& ids.len() == search::smaller(limit, others.len() as int)
    &&& forall|i: int| 0 <= i < ids.len() ==> #[trigger] ids[i] == others[i].cluster
}

/// A list holds the nearest neighbors of a cluster.
pub open spec fn is_neighborhood<
    F: Fn(&Vec<u32>, &Vec<u32>, DistanceMetric) -> Result<u32, Error>,
>(score: F, base: VectorIndex, cluster: int, limit: int, ids: Seq<u32>) -> bool {
    exists|others: Seq<ScoredCluster>| #[trigger]
        are_neighbors(score, base, cluster, limit, others, ids)
}

proof fn lemma_same_others<F: Fn(&Vec<u32>, &Vec<u32>, DistanceMetric) -> Result<u32, Error>>(
    score: F,
    base: VectorIndex,
    cluster: int,
    a: Seq<ScoredCluster>,
    b: Seq<ScoredCluster>,
)
    requires
        are_others(score, base, cluster, a),
        a.to_multiset() == b.to_multiset(),
    ensures
        are_others(score, base, cluster, b),
{
    broadcast use vstd::seq_lib::group_to_multiset_ensures;

    assert(a.len() == a.to_multiset().len());
    assert(b.len() == b.to_multiset().len());
    assert forall|i: int| 0 <= i < b.len() implies {
        &&& (#[trigger] b[i]).cluster < base.centroids@.len()
        &&& b[i].cluster != cluster
        &&& vector::scores(
            score,
            base.centroids@[cluster],
            base.centroids@[b[i].cluster as int],
            base.metric,
            b[i].score,
        )
    } by {
        assert(b.contains(b[i]));
        assert(b.to_multiset().count(b[i]) > 0);
        assert(a.contains(b[i]));
        let j = a.index_of(b[i]);
        assert(a[j] == b[i]);
    }
    assert forall|c: int| 0 <= c < base.centroids@.len() && c
        != cluster implies #[trigger] search::has_cluster(b, c) by {
        assert(search::has_cluster(a, c));
        let i = choose|i: int| 0 <= i < a.len() && (#[trigger] a[i]).cluster == c;
        assert(a.contains(a[i]));
        assert(a.to_multiset().count(a[i]) > 0);
        assert(b.contains(a[i]));
        let j = b.index_of(a[i]);
        assert(b[j].cluster == c);
    }
}

/// The centroid of a cluster has no score with that of another one, for the reason
/// `e`.
pub open spec fn no_neighbor_score<
    F: Fn(&Vec<u32>, &Vec<u32>, DistanceMetric) -> Result<u32, Error>,
>(score: F, base: VectorIndex, cluster: int, e: Error) -> bool {
    exists|c: int|
        0 <= c < base.centroids@.len() && c != cluster && #[trigger] vector::no_score(
            score,
            base.centroids@[cluster],
            base.centroids@[c],
            base.metric,
            e,
        )
}

/// The nearest neighbors of a cluster.
pub fn nearest_cluster_ids<
    F: Copy + Fn(&Vec<u32>, &Vec<u32>, DistanceMetric) -> Result<u32, Error>,
>(base: &VectorIndex, cluster: usize, limit: usize, score: F) -> (r: Result<Vec<u32>, Error>)
    requires
        vector::can_score(score),
        base.centroids@.len() <= u32::MAX,
    ensures
        cluster >= base.centroids@.len() ==> r is Err && r->Err_0 is Corrupt && r->Err_0->Corrupt_0@
            == "vector cluster id out of bounds"@,
        cluster < base.centroids@.len() ==> match r {
            Ok(ids) => {
                &&& is_neighborhood(score, *base, cluster as int, limit as int, ids@)
                &&& forall|i: int|
                    0 <= i < ids@.len() ==> (#[trigger] ids@[i]) < base.centroids@.len() && ids@[i]
                        != cluster
            },
            Err(e) => no_neighbor_score(score, *base, cluster as int, e),
        },
{
    let n = base.centroids.len();
    if cluster >= n {
        return Err(corrupt("vector cluster id out of bounds"));
    }
    let mut others: Vec<ScoredCluster> = Vec::new();
    let mut c: usize = 0;
    while c < n
        invariant
            c <= n,
            n == base.centroids@.len(),
            cluster < n,
            vector::can_score(score),
            forall|i: int|
                0 <= i < others@.len() ==> {
                    &&& (#[trigger] others@[i]).cluster < c
                    &&& others@[i].cluster != cluster
                    &&& vector::scores(
                        score,
                        base.centroids@[cluster as int],
                        base.centroids@[others@[i].cluster as int],
                        base.metric,
                        others@[i].score,
                    )
                },
            forall|d: int|
                0 <= d < c && d != cluster ==> #[trigger] search::has_cluster(others@, d),
            others@.len() == (if cluster < c {
                c - 1
            } else {
                c as int
            }),
        decreases n - c,
    {
        let ghost before = others@;
        if c != cluster {
            match score(&base.centroids[cluster], &base.centroids[c], base.metric) {
                Ok(s) => {
                    assert(vector::scores(
                        score,
                        base.centroids@[cluster as int],
                        base.centroids@[c as int],
                        base.metric,
                        s,
                    ));
                    others.push(ScoredCluster { cluster: c, score: s });
                },
                Err(e) => {
                    assert(vector::no_score(
                        score,
                        base.centroids@[cluster as int],
                        base.centroids@[c as int],
                        base.metric,
                        e,
                    ));
                    return Err(e);
                },
            }
        }
        assert forall|d: int| 0 <= d < c + 1 && d != cluster implies #[trigger] search::has_cluster(
            others@,
            d,
        ) by {
            if d < c {
                assert(search::has_cluster(before, d));
                let i = choose|i: int| 0 <= i < before.len() && (#[trigger] before[i]).cluster == d;
                assert(others@[i] == before[i]);
            } else {
                assert(others@[before.len() as int].cluster == d);
            }
        }
        c = c + 1;
    }
    let sorted = arrange(others, &NearestFirst);
    proof {
        lemma_same_others(score, *base, cluster as int, others@, sorted@);
    }
    let take: usize = if limit < sorted.len() {
        limit
    } else {
        sorted.len()
    };
    let mut ids: Vec<u32> = Vec::new();
    let mut i: usize = 0;
    while i < take
        invariant
            i <= take <= sorted@.len(),
            n <= u32::MAX,
            n == base.centroids@.len(),
            are_others(score, *base, cluster as int, sorted@),
            ids@.len() == i,
            forall|j: int|
                0 <= j < i ==> #[trigger] ids@[j] == sorted@[j].cluster && ids@[j] < n && ids@[j]
                    != cluster,
        decreases take - i,
    {
        assert(sorted@[i as int].cluster < n);
        ids.push(sorted[i].cluster as u32);
        i = i + 1;
    }
    assert(are_neighbors(score, *base, cluster as int, limit as int, sorted@, ids@));
    Ok(ids)
}

// ---------------------------------------------------------------------------
// The rows of the segments of an index
// ---------------------------------------------------------------------------

/// A vector of a segment, with the cluster of the base index that it counts to.
pub struct Row {
    pub entry: VectorEntry,
    pub home: u32,
    pub live: bool,
    pub append: bool,
}

/// A version of a vector is in force; without a version map every one is.
pub open spec fn in_force(versions: Option<&VectorVersionMap>, id: IdView, version: u64) -> bool {
    match versions {
        Some(m) => m.version_of(id) == Some(version),
        None => true,
    }
}

/// A segment is of the same column, dimension and metric as the base index.
pub open spec fn segment_fits(base: VectorIndex, segment: VectorIndex) -> bool {
    segment.column@ == base.column@ && segment.dim == base.dim && segment.metric == base.metric
}

/// The places of the vectors of some clusters.
pub open spec fn places_of(postings: Seq<VectorPosting>) -> Seq<(int, int)>
    decreases postings.len(),
{
    if postings.len() == 0 {
        Seq::empty()
    } else {
        places_of(postings.drop_last()) + Seq::new(
            postings.last().vectors@.len(),
            |l: int| (postings.len() - 1, l),
        )
    }
}

/// The cluster of the base index that a vector of a segment counts to: its own
/// where the segment has the same centroids, and else the nearest.
pub open spec fn counts_to<F: Fn(&Vec<u32>, &Vec<u32>, DistanceMetric) -> Result<u32, Error>>(
    score: F,
    base: VectorIndex,
    segment: VectorIndex,
    place: (int, int),
    home: u32,
) -> bool {
    let posting = segment.postings@[place.0];
    if same_topology(segment.centroids@, base.centroids@) {
        home == posting.centroid_id
    } else {
        is_nearest(
            score,
            base,
            posting.vectors@[place.1].vector,
            all_clusters(base.centroids@.len() as int),
            home,
        )
    }
}

/// `row` is the vector at a place of a segment. Where only the live ones matter,
/// the cluster of the others is left open.
pub open spec fn is_row<F: Fn(&Vec<u32>, &Vec<u32>, DistanceMetric) -> Result<u32, Error>>(
    score: F,
    base: VectorIndex,
    segment: VectorIndex,
    append: bool,
    versions: Option<&VectorVersionMap>,
    only_live: bool,
    place: (int, int),
    row: Row,
) -> bool {
    let entry = segment.postings@[place.0].vectors@[place.1];
    &&& row.entry == entry
    &&& row.live == in_force(versions, entry.id@, entry.version)
    &&& row.append == append
    &&& (row.live || !only_live) ==> counts_to(score, base, segment, place, row.home)
}

/// The first vectors of a segment.
pub open spec fn are_rows<F: Fn(&Vec<u32>, &Vec<u32>, DistanceMetric) -> Result<u32, Error>>(
    score: F,
    base: VectorIndex,
    segment: VectorIndex,
    append: bool,
    versions: Option<&VectorVersionMap>,
    only_live: bool,
    places: Seq<(int, int)>,
    rows: Seq<Row>,
) -> bool {
    &&& rows.len() == places.len()
    &&& forall|i: int|
        0 <= i < rows.len() ==> is_row(
            score,
            base,
            segment,
            append,
            versions,
            only_live,
            places[i],
            #[trigger] rows[i],
        )
}

/// The vectors of a base index followed by those of its appended segments.
pub open spec fn all_rows<F: Fn(&Vec<u32>, &Vec<u32>, DistanceMetric) -> Result<u32, Error>>(
    score: F,
    base: VectorIndex,
    appends: Seq<VectorIndex>,
    versions: Option<&VectorVersionMap>,
    only_live: bool,
    rows: Seq<Row>,
) -> bool
    decreases appends.len(),
{
    if appends.len() == 0 {
        are_rows(
            score,
            base,
            base,
            false,
            versions,
            only_live,
            places_of(base.postings@),
            rows,
        )
    } else {
        let n = places_of(appends.last().postings@).len();
        &&& n <= rows.len()
        &&& are_rows(
            score,
            base,
            appends.last(),
            true,
            versions,
            only_live,
            places_of(appends.last().postings@),
            rows.skip(rows.len() - n),
        )
        &&& all_rows(
            score,
            base,
            appends.drop_last(),
            versions,
            only_live,
            rows.take(rows.len() - n),
        )
    }
}

// ---------------------------------------------------------------------------
// Counting rows
// ---------------------------------------------------------------------------

/// How many vectors count to a cluster.
#[derive(Clone, Copy, Debug, PartialEq, Eq, Structural)]
pub struct VectorPostingMaintenanceStats {
    pub cluster_id: u32,
    pub live_rows: u64,
    pub stale_rows: u64,
    pub append_rows: u64,
    pub total_rows: u64,
}

/// The counts of the rows of each cluster.
pub open spec fn stats_count(stats: Seq<VectorPostingMaintenanceStats>, rows: Seq<Row>) -> bool {
    forall|c: int|
        0 <= c < stats.len() ==> {
            &&& (#[trigger] stats[c]).cluster_id == c
            &&& stats[c].total_rows == seqs::count_where(rows, |r: Row| r.home == c)
            &&& stats[c].live_rows == seqs::count_where(rows, |r: Row| r.home == c && r.live)
            &&& stats[c].stale_rows == seqs::count_where(rows, |r: Row| r.home == c && !r.live)
            &&& stats[c].append_rows == seqs::count_where(rows, |r: Row| r.home == c && r.append)
        }
}

/// Counts for no rows.
pub(crate) fn no_stats(n: usize) -> (stats: Vec<VectorPostingMaintenanceStats>)
    requires
        n <= u32::MAX,
    ensures
        stats@.len() == n,
        stats_count(stats@, Seq::empty()),
{
    let mut stats: Vec<VectorPostingMaintenanceStats> = Vec::new();
    let mut c: usize = 0;
    while c < n
        invariant
            c <= n,
            n <= u32::MAX,
            stats@.len() == c,
            stats_count(stats@, Seq::empty()),
        decreases n - c,
    {
        let ghost before = stats@;
        stats.push(
            VectorPostingMaintenanceStats {
                cluster_id: c as u32,
                live_rows: 0,
                stale_rows: 0,
                append_rows: 0,
                total_rows: 0,
            },
        );
        assert forall|d: int| 0 <= d < stats@.len() implies {
            &&& (#[trigger] stats@[d]).cluster_id == d
            &&& stats@[d].total_rows == seqs::count_where(Seq::<Row>::empty(), |r: Row| r.home == d)
            &&& stats@[d].live_rows == seqs::count_where(
                Seq::<Row>::empty(),
                |r: Row| r.home == d && r.live,
            )
            &&& stats@[d].stale_rows == seqs::count_where(
                Seq::<Row>::empty(),
                |r: Row| r.home == d && !r.live,
            )
            &&& stats@[d].append_rows == seqs::count_where(
                Seq::<Row>::empty(),
                |r: Row| r.home == d && r.append,
            )
        } by {
            if d < c {
                assert(stats@[d] == before[d]);
            }
        }
        c = c + 1;
    }
    stats
}

proof fn lemma_count_push(rows: Seq<Row>, row: Row, p: spec_fn(Row) -> bool)
    ensures
        seqs::count_where(rows.push(row), p) == seqs::count_where(rows, p) + (if p(row) {
            1nat
        } else {
            0nat
        }),
        seqs::count_where(rows, p) <= rows.len(),
{
    assert(rows.push(row).drop_last() =~= rows);
    seqs::lemma_count_bound(rows, p);
}

/// Counts one row more.
fn count_row(
    stats: &mut Vec<VectorPostingMaintenanceStats>,
    home: u32,
    live: bool,
    append: bool,
    rows: Ghost<Seq<Row>>,
    row: Ghost<Row>,
)
    requires
        stats_count(old(stats)@, rows@),
        home < old(stats)@.len(),
        rows@.len() < u64::MAX,
        row@.home == home,
        row@.live == live,
        row@.append == append,
    ensures
        final(stats)@.len() == old(stats)@.len(),
        stats_count(final(stats)@, rows@.push(row@)),
{
    let ghost before = stats@;
    let h: usize = home as usize;
    proof {
        let c = home as int;
        lemma_count_push(rows@, row@, |r: Row| r.home == c);
        lemma_count_push(rows@, row@, |r: Row| r.home == c && r.live);
        lemma_count_push(rows@, row@, |r: Row| r.home == c && !r.live);
        lemma_count_push(rows@, row@, |r: Row| r.home == c && r.append);
        assert(before[c].cluster_id == c);
    }
    let s: VectorPostingMaintenanceStats = stats[h];
    let next = VectorPostingMaintenanceStats {
        cluster_id: s.cluster_id,
        live_rows: if live {
            s.live_rows + 1
        } else {
            s.live_rows
        },
        stale_rows: if live {
            s.stale_rows
        } else {
            s.stale_rows + 1
        },
        append_rows: if append {
            s.append_rows + 1
        } else {
            s.append_rows
        },
        total_rows: s.total_rows + 1,
    };
    stats.set(h, next);
    assert forall|c: int| 0 <= c < stats@.len() implies {
        &&& (#[trigger] stats@[c]).cluster_id == c
        &&& stats@[c].total_rows == seqs::count_where(rows@.push(row@), |r: Row| r.home == c)
        &&& stats@[c].live_rows == seqs::count_where(
            rows@.push(row@),
            |r: Row| r.home == c && r.live,
        )
        &&& stats@[c].stale_rows == seqs::count_where(
            rows@.push(row@),
            |r: Row| r.home == c && !r.live,
        )
        &&& stats@[c].append_rows == seqs::count_where(
            rows@.push(row@),
            |r: Row| r.home == c && r.append,
        )
    } by {
        assert(before[c].cluster_id == c);
        lemma_count_push(rows@, row@, |r: Row| r.home == c);
        lemma_count_push(rows@, row@, |r: Row| r.home == c && r.live);
        lemma_count_push(rows@, row@, |r: Row| r.home == c && !r.live);
        lemma_count_push(rows@, row@, |r: Row| r.home == c && r.append);
    }
}

/// A vector of a segment, which has other clusters than the base index, counts to none
/// of the clusters of the base index, for the reason `e`.
pub open spec fn is_homeless<F: Fn(&Vec<u32>, &Vec<u32>, DistanceMetric) -> Result<u32, Error>>(
    score: F,
    base: VectorIndex,
    segment: VectorIndex,
    place: (int, int),
    e: Error,
) -> bool {
    let vector = segment.postings@[place.0].vectors@[place.1].vector;
    &&& !same_topology(segment.centroids@, base.centroids@)
    &&& {
        ||| e is InvalidQuery && !index::vector_ok(vector@, base.dim)
        ||| e is Corrupt && base.centroids@.len() == 0
        ||| vector::no_score_with(score, vector, base.centroids@, base.metric, e)
    }
}

/// The cluster of the base index that a vector of a segment counts to.
pub(crate) fn home_of<F: Copy + Fn(&Vec<u32>, &Vec<u32>, DistanceMetric) -> Result<u32, Error>>(
    base: &VectorIndex,
    segment: &VectorIndex,
    same: bool,
    clusters: &Vec<u32>,
    p: usize,
    l: usize,
    score: F,
) -> (r: Result<u32, Error>)
    requires
        vector::can_score(score),
        base.centroids@.len() <= u32::MAX,
        clusters@ == all_clusters(base.centroids@.len() as int),
        same == same_topology(segment.centroids@, base.centroids@),
        p < segment.postings@.len(),
        l < segment.postings@[p as int].vectors@.len(),
    ensures
        match r {
            Ok(home) => counts_to(score, *base, *segment, (p as int, l as int), home),
            Err(e) => is_homeless(score, *base, *segment, (p as int, l as int), e),
        },
{
    if same {
        Ok(segment.postings[p].centroid_id)
    } else {
        let r = nearest_cluster(
            base,
            &segment.postings[p].vectors[l].vector,
            clusters,
            "maintenance vector",
            "vector index has no centroids",
            score,
        );
        proof {
            let vector = segment.postings@[p as int].vectors@[l as int].vector;
            if r is Err && no_near_score(score, *base, vector, clusters@, r->Err_0) {
                let e = r->Err_0;
                let i = choose|i: int|
                    0 <= i < clusters@.len() && #[trigger] vector::no_score(
                        score,
                        vector,
                        base.centroids@[clusters@[i] as int],
                        base.metric,
                        e,
                    );
                assert(clusters@[i] == i as u32);
                assert(vector::no_score(score, vector, base.centroids@[i], base.metric, e));
            }
        }
        r
    }
}

/// Whether a version is in force.
pub(crate) fn live_in(versions: Option<&VectorVersionMap>, id: &Id, version: u64) -> (b: bool)
    requires
        versions matches Some(m) ==> m.wf(),
    ensures
        b == in_force(versions, id@, version),
{
    match versions {
        Some(m) => m.is_live(id, version),
        None => true,
    }
}

/// Whether a segment belongs to the base index.
pub(crate) fn check_segment(base: &VectorIndex, segment: &VectorIndex) -> (r: Result<(), Error>)
    ensures
        r is Ok <==> segment_fits(*base, *segment),
        r is Err ==> r->Err_0 is Corrupt && r->Err_0->Corrupt_0@ == "vector segment for '"@
            + base.column@ + "' does not match base index"@,
{
    if !same_text(segment.column.as_str(), base.column.as_str()) || segment.dim != base.dim
        || segment.metric != base.metric {
        return Err(Error::Corrupt(
                say("vector segment for '").and(base.column.as_str()).and(
                    "' does not match base index",
                ).done(),
            ));
    }
    Ok(())
}

pub(crate) proof fn lemma_place_next(postings: Seq<VectorPosting>, p: int, l: int)
    requires
        0 <= p < postings.len(),
        0 <= l < postings[p].vectors@.len(),
    ensures
        places_upto(postings, p, l + 1) == places_upto(postings, p, l).push((p, l)),
{
    assert(places_upto(postings, p, l + 1) =~= places_upto(postings, p, l).push((p, l)));
}

/// The places before place `l` of cluster `p`.
pub open spec fn places_upto(postings: Seq<VectorPosting>, p: int, l: int) -> Seq<(int, int)> {
    places_of(postings.take(p)) + Seq::new(l as nat, |i: int| (p, i))
}

pub(crate) proof fn lemma_places_cluster(postings: Seq<VectorPosting>, p: int)
    requires
        0 <= p < postings.len(),
    ensures
        places_upto(postings, p, postings[p].vectors@.len() as int) == places_upto(
            postings,
            p + 1,
            0,
        ),
{
    let n = postings[p].vectors@.len();
    assert(postings.take(p + 1).drop_last() =~= postings.take(p));
    assert(postings.take(p + 1).last() == postings[p]);
    let tail = Seq::new(
        postings.take(p + 1).last().vectors@.len(),
        |l: int| (postings.take(p + 1).len() - 1, l),
    );
    assert(tail =~= Seq::new(n, |i: int| (p, i)));
    assert(places_upto(postings, p + 1, 0) =~= places_of(postings.take(p + 1)));
}

/// A vector of a segment stops the work: it counts to no cluster, or, where all are
/// counted, to one that the base index does not have.
pub open spec fn row_fails<F: Fn(&Vec<u32>, &Vec<u32>, DistanceMetric) -> Result<u32, Error>>(
    score: F,
    base: VectorIndex,
    segment: VectorIndex,
    versions: Option<&VectorVersionMap>,
    only_live: bool,
    place: (int, int),
    e: Error,
) -> bool {
    let posting = segment.postings@[place.0];
    let entry = posting.vectors@[place.1];
    &&& 0 <= place.0 < segment.postings@.len()
    &&& 0 <= place.1 < posting.vectors@.len()
    &&& only_live ==> in_force(versions, entry.id@, entry.version)
    &&& {
        ||| is_homeless(score, base, segment, place, e)
        ||| e is Corrupt && !only_live && same_topology(segment.centroids@, base.centroids@)
            && posting.centroid_id >= base.centroids@.len()
    }
}

/// What goes wrong with the vectors of a segment.
pub open spec fn segment_fails<F: Fn(&Vec<u32>, &Vec<u32>, DistanceMetric) -> Result<u32, Error>>(
    score: F,
    base: VectorIndex,
    segment: VectorIndex,
    versions: Option<&VectorVersionMap>,
    only_live: bool,
    e: Error,
) -> bool {
    ||| e is Corrupt && !segment_fits(base, segment)
    ||| exists|place: (int, int)| #[trigger]
        row_fails(score, base, segment, versions, only_live, place, e)
}

/// Counts the vectors of a segment.
pub(crate) fn accumulate_maintenance_stats<
    F: Copy + Fn(&Vec<u32>, &Vec<u32>, DistanceMetric) -> Result<u32, Error>,
>(
    base: &VectorIndex,
    segment: &VectorIndex,
    append: bool,
    versions: Option<&VectorVersionMap>,
    stats: &mut Vec<VectorPostingMaintenanceStats>,
    score: F,
    earlier: Ghost<Seq<Row>>,
) -> (r: Result<Ghost<Seq<Row>>, Error>)
    requires
        vector::can_score(score),
        versions matches Some(m) ==> m.wf(),
        base.centroids@.len() <= u32::MAX,
        old(stats)@.len() == base.centroids@.len(),
        stats_count(old(stats)@, earlier@),
        earlier@.len() + places_of(segment.postings@).len() < u64::MAX,
    ensures
        match r {
            Ok(rows) => {
                &&& segment_fits(*base, *segment)
                &&& final(stats)@.len() == base.centroids@.len()
                &&& are_rows(
                    score,
                    *base,
                    *segment,
                    append,
                    versions,
                    false,
                    places_of(segment.postings@),
                    rows@,
                )
                &&& stats_count(final(stats)@, earlier@ + rows@)
            },
            Err(e) => segment_fails(score, *base, *segment, versions, false, e),
        },
{
    match check_segment(base, segment) {
        Ok(_) => {},
        Err(e) => {
            return Err(e);
        },
    }
    let same = topology_equal(&segment.centroids, &base.centroids);
    let clusters = cluster_list(base.centroids.len());
    let ghost ps = segment.postings@;
    let ghost mut rows: Seq<Row> = Seq::empty();
    let mut p: usize = 0;
    assert(ps.take(0) =~= Seq::empty());
    assert(places_upto(ps, 0, 0) =~= Seq::empty());
    assert(earlier@ + rows =~= earlier@);
    while p < segment.postings.len()
        invariant
            p <= ps.len(),
            ps == segment.postings@,
            segment_fits(*base, *segment),
            vector::can_score(score),
            versions matches Some(m) ==> m.wf(),
            base.centroids@.len() <= u32::MAX,
            clusters@ == all_clusters(base.centroids@.len() as int),
            same == same_topology(segment.centroids@, base.centroids@),
            stats@.len() == base.centroids@.len(),
            stats_count(stats@, earlier@ + rows),
            earlier@.len() + places_of(ps).len() < u64::MAX,
            are_rows(
                score,
                *base,
                *segment,
                append,
                versions,
                false,
                places_upto(ps, p as int, 0),
                rows,
            ),
        decreases ps.len() - p,
    {
        let mut l: usize = 0;
        while l < segment.postings[p].vectors.len()
            invariant
                l <= ps[p as int].vectors@.len(),
                p < ps.len(),
                ps == segment.postings@,
                segment_fits(*base, *segment),
                vector::can_score(score),
                versions matches Some(m) ==> m.wf(),
                base.centroids@.len() <= u32::MAX,
                clusters@ == all_clusters(base.centroids@.len() as int),
                same == same_topology(segment.centroids@, base.centroids@),
                stats@.len() == base.centroids@.len(),
                stats_count(stats@, earlier@ + rows),
                earlier@.len() + places_of(ps).len() < u64::MAX,
                are_rows(
                    score,
                    *base,
                    *segment,
                    append,
                    versions,
                    false,
                    places_upto(ps, p as int, l as int),
                    rows,
                ),
            decreases ps[p as int].vectors@.len() - l,
        {
            let home = match home_of(base, segment, same, &clusters, p, l, score) {
                Ok(home) => home,
                Err(e) => {
                    assert(row_fails(
                        score,
                        *base,
                        *segment,
                        versions,
                        false,
                        (p as int, l as int),
                        e,
                    ));
                    return Err(e);
                },
            };
            if home as usize >= stats.len() {
                let stray = corrupt("vector posting id out of bounds");
                proof {
                    if same {
                        assert(ps[p as int].centroid_id == home);
                    } else {
                        lemma_home_in_range(
                            score,
                            *base,
                            ps[p as int].vectors@[l as int].vector,
                            home,
                        );
                    }
                    assert(row_fails(
                        score,
                        *base,
                        *segment,
                        versions,
                        false,
                        (p as int, l as int),
                        stray,
                    ));
                }
                return Err(stray);
            }
            let entry = &segment.postings[p].vectors[l];
            let live = live_in(versions, &entry.id, entry.version);
            let ghost row = Row { entry: ps[p as int].vectors@[l as int], home, live, append };
            let ghost before = rows;
            proof {
                lemma_places_bound(ps, p as int, l as int);
            }
            count_row(stats, home, live, append, Ghost(earlier@ + rows), Ghost(row));
            proof {
                lemma_place_next(ps, p as int, l as int);
                assert((earlier@ + rows).push(row) =~= earlier@ + rows.push(row));
                rows = rows.push(row);
                let places = places_upto(ps, p as int, l + 1);
                assert(places.last() == (p as int, l as int));
                assert forall|i: int| 0 <= i < rows.len() implies is_row(
                    score,
                    *base,
                    *segment,
                    append,
                    versions,
                    false,
                    places[i],
                    #[trigger] rows[i],
                ) by {
                    if i < before.len() {
                        assert(rows[i] == before[i]);
                        assert(places[i] == places_upto(ps, p as int, l as int)[i]);
                    }
                }
            }
            l = l + 1;
        }
        proof {
            lemma_places_cluster(ps, p as int);
        }
        p = p + 1;
    }
    proof {
        assert(ps.take(p as int) =~= ps);
        assert(places_upto(ps, p as int, 0) =~= places_of(ps));
    }
    Ok(Ghost(rows))
}

proof fn lemma_home_in_range<F: Fn(&Vec<u32>, &Vec<u32>, DistanceMetric) -> Result<u32, Error>>(
    score: F,
    base: VectorIndex,
    vector: Vec<u32>,
    home: u32,
)
    requires
        base.centroids@.len() <= u32::MAX,
        is_nearest(score, base, vector, all_clusters(base.centroids@.len() as int), home),
    ensures
        base.centroids@.len() > 0 ==> home < base.centroids@.len(),
{
    let ids = all_clusters(base.centroids@.len() as int);
    let ss = choose|ss: Seq<u32>| #[trigger]
        cluster_scores(score, base, vector, ids, ss) && nearest_of(ids, ss).0 == home;
    if base.centroids@.len() > 0 {
        lemma_nearest_is_one(ids, ss);
        let i = ids.index_of(home);
        assert(ids[i] == home);
    }
}

proof fn lemma_places_bound(postings: Seq<VectorPosting>, p: int, l: int)
    requires
        0 <= p < postings.len(),
        0 <= l < postings[p].vectors@.len(),
    ensures
        places_upto(postings, p, l).len() < places_of(postings).len(),
{
    lemma_places_cluster(postings, p);
    lemma_places_grow(postings, p + 1);
    assert(places_upto(postings, p + 1, 0) =~= places_of(postings.take(p + 1)));
    assert(places_upto(postings, p, l).len() == places_of(postings.take(p)).len() + l);
    assert(places_upto(postings, p, postings[p].vectors@.len() as int).len() == places_of(
        postings.take(p),
    ).len() + postings[p].vectors@.len());
}

proof fn lemma_places_grow(postings: Seq<VectorPosting>, p: int)
    requires
        0 <= p <= postings.len(),
    ensures
        places_of(postings.take(p)).len() <= places_of(postings).len(),
    decreases postings.len(),
{
    if p == postings.len() {
        assert(postings.take(p) =~= postings);
    } else {
        lemma_places_grow(postings.drop_last(), p);
        assert(postings.drop_last().take(p) =~= postings.take(p));
    }
}

/// The nearest of some clusters has the highest score of them all, and of those with this
/// score the lowest number.
pub proof fn law_nearest_cluster_has_the_highest_score(ids: Seq<u32>, ss: Seq<u32>, i: int)
    requires
        ids.len() == ss.len(),
        0 <= i < ss.len(),
        forall|k: int| 0 <= k < ss.len() ==> rounding::is_number(#[trigger] ss[k]),
    ensures
        rounding::is_number(nearest_of(ids, ss).1),
        exists|k: int|
            0 <= k < ss.len() && nearest_of(ids, ss) == (#[trigger] ids[k], ss[k]),
        rounding::number(ss[i]) <= rounding::number(nearest_of(ids, ss).1),
        rounding::number(ss[i]) == rounding::number(nearest_of(ids, ss).1) ==> nearest_of(
            ids,
            ss,
        ).0 <= ids[i],
    decreases ss.len(),
{
    if ss.len() > 1 {
        let a = ids.drop_last();
        let b = ss.drop_last();
        assert forall|k: int| 0 <= k < b.len() implies rounding::is_number(#[trigger] b[k]) by {
            assert(b[k] == ss[k]);
        }
        law_nearest_cluster_has_the_highest_score(
            a,
            b,
            if i < b.len() {
                i
            } else {
                0
            },
        );
        let p = nearest_of(a, b);
        let k = choose|k: int| 0 <= k < b.len() && p == (#[trigger] a[k], b[k]);
        assert(p == (ids[k], ss[k]));
        rounding::law_higher_score_is_higher_number(ss.last(), p.1);
        rounding::law_higher_score_is_higher_number(p.1, ss.last());
        assert(ids[ids.len() - 1] == ids.last());
    } else {
        assert(nearest_of(ids, ss) == (ids[0], ss[0]));
    }
}

/// Vectors are the same where they stand for the same numbers, whatever the sign of a zero.
pub proof fn law_same_vectors_have_the_same_numbers(a: Seq<u32>, b: Seq<u32>)
    requires
        a.len() == b.len(),
        forall|i: int|
            0 <= i < a.len() ==> rounding::is_number(#[trigger] a[i]) && rounding::is_number(b[i]),
    ensures
        same_numbers(a, b) <==> forall|i: int|
            0 <= i < a.len() ==> rounding::number(#[trigger] a[i]) == rounding::number(b[i]),
{
    assert forall|i: int| 0 <= i < a.len() implies (component_eq(#[trigger] a[i], b[i])
        <==> rounding::number(a[i]) == rounding::number(b[i])) by {
        rounding::lemma_places(a[i], b[i]);
    }
}

/// Every vector of every cluster has its place, and there are no other places.
pub proof fn law_places_are_those_of_the_vectors(postings: Seq<VectorPosting>, c: int, l: int)
    ensures
        places_of(postings).contains((c, l)) <==> 0 <= c < postings.len() && 0 <= l
            < postings[c].vectors@.len(),
    decreases postings.len(),
{
    if postings.len() > 0 {
        let n = postings.len() - 1;
        let front = places_of(postings.drop_last());
        let last = Seq::new(postings.last().vectors@.len(), |l: int| (n, l));
        let all = places_of(postings);
        assert(all =~= front + last);
        law_places_are_those_of_the_vectors(postings.drop_last(), c, l);
        if all.contains((c, l)) {
            let k = all.index_of((c, l));
            if k < front.len() {
                assert(front[k] == (c, l));
                assert(front.contains((c, l)));
            } else {
                assert(last[k - front.len()] == (c, l));
            }
        }
        if 0 <= c < postings.len() && 0 <= l < postings[c].vectors@.len() {
            if c < n {
                let k = front.index_of((c, l));
                assert(all[k] == (c, l));
            } else {
                assert(all[front.len() + l] == (c, l));
            }
        }
    }
}

/// A version map keeps one version of a vector in force, and none of one that it does not
/// name.
pub proof fn law_one_version_is_in_force(
    versions: VectorVersionMap,
    id: IdView,
    a: u64,
    b: u64,
)
    ensures
        in_force(Some(&versions), id, a) && in_force(Some(&versions), id, b) ==> a == b,
        versions.version_of(id) matches Some(v) ==> in_force(Some(&versions), id, v),
        versions.version_of(id) is None ==> !in_force(Some(&versions), id, a),
{
}

/// Of the rows of a cluster each is either live or stale, and no more were appended than
/// there are.
pub proof fn law_rows_are_live_or_stale(
    stats: Seq<VectorPostingMaintenanceStats>,
    rows: Seq<Row>,
    c: int,
)
    requires
        stats_count(stats, rows),
        0 <= c < stats.len(),
    ensures
        stats[c].total_rows == stats[c].live_rows + stats[c].stale_rows,
        stats[c].append_rows <= stats[c].total_rows <= rows.len(),
{
    lemma_rows_counted(rows, c);
    assert(stats[c].cluster_id == c);
}

proof fn lemma_rows_counted(rows: Seq<Row>, c: int)
    ensures
        seqs::count_where(rows, |r: Row| r.home == c) == seqs::count_where(
            rows,
            |r: Row| r.home == c && r.live,
        ) + seqs::count_where(rows, |r: Row| r.home == c && !r.live),
        seqs::count_where(rows, |r: Row| r.home == c && r.append) <= seqs::count_where(
            rows,
            |r: Row| r.home == c,
        ) <= rows.len(),
    decreases rows.len(),
{
    if rows.len() > 0 {
        lemma_rows_counted(rows.drop_last(), c);
    }
}

} // verus!
