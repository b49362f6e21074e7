//! Searching a vector index: the clusters nearest to the query are probed, and
//! the vectors in them that a filter allows are ranked by their scores.

use vstd::prelude::*;

use crate::arithmetic::Step;
use crate::error::{corrupt, invalid_query, Error};
use crate::manifest::VectorMaintenanceThresholds;
use crate::order::Order;
use crate::rounding;
use crate::schema::DistanceMetric;
use crate::sorting;
use crate::sorting::{arrange, Comparison};
use crate::value;
use crate::value::{copy_id, Value};
use crate::vector;
use crate::vector::filter;
use crate::vector::index;
use crate::vector::kernel;
use crate::vector::index::validate_query_vector;
use crate::vector::mask::VectorFilterMask;
use crate::vector::{row_counts_of, score_beats, sort_hits, BestFirst, VectorEntry, VectorHit, VectorIndex, VectorPosting};

verus! {

/// A cluster with the score of its centroid.
pub struct ScoredCluster {
    pub cluster: usize,
    pub score: u32,
}

/// The order in which clusters are probed: the higher score stands first, and where
/// neither is higher the lower number. A NaN is neither higher nor lower than any score.
pub struct NearestFirst;

impl Comparison<ScoredCluster> for NearestFirst {
    open spec fn ranks(&self, a: ScoredCluster) -> bool {
        true
    }

    open spec fn precedes(&self, a: ScoredCluster, b: ScoredCluster) -> bool {
        vector::beats(a.score, b.score) || (!vector::beats(b.score, a.score) && a.cluster
            <= b.cluster)
    }

    proof fn lemma_total(&self, a: ScoredCluster, b: ScoredCluster) {
    }

    fn in_order(&self, a: &ScoredCluster, b: &ScoredCluster) -> (r: bool) {
        score_beats(a.score, b.score) || (!score_beats(b.score, a.score) && a.cluster <= b.cluster)
    }
}

/// Clusters whose scores are numbers are ordered: the nearest ones are probed.
pub proof fn law_numbered_clusters_are_ordered(clusters: Seq<ScoredCluster>)
    requires
        forall|i: int|
            0 <= i < clusters.len() ==> vector::score_rank((#[trigger] clusters[i]).score) is Some,
    ensures
        sorting::is_consistent(clusters, NearestFirst),
{
    assert forall|a: ScoredCluster, b: ScoredCluster, c: ScoredCluster|
        clusters.contains(a) && clusters.contains(b) && clusters.contains(c)
            && #[trigger] NearestFirst.precedes(a, b) && #[trigger] NearestFirst.precedes(
            b,
            c,
        ) implies NearestFirst.precedes(a, c) by {
        assert(vector::score_rank(clusters[clusters.index_of(a)].score) is Some);
        assert(vector::score_rank(clusters[clusters.index_of(b)].score) is Some);
        assert(vector::score_rank(clusters[clusters.index_of(c)].score) is Some);
    }
}

/// A filter leaves something of a cluster to search.
pub open spec fn worth_probing(filter: Option<&VectorFilterMask>, cluster: int) -> bool {
    match filter {
        Some(mask) => exists|row: int| #[trigger] mask.bit(cluster, row),
        None => true,
    }
}

/// A filter allows a row.
pub open spec fn row_allowed(filter: Option<&VectorFilterMask>, cluster: int, row: int) -> bool {
    match filter {
        Some(mask) => mask.allows_row(cluster, row),
        None => true,
    }
}

/// The clusters to probe, each with a score of its centroid.
pub open spec fn are_clusters<F: Fn(&Vec<u32>, &Vec<u32>, DistanceMetric) -> Result<u32, Error>>(
    score: F,
    query: Vec<u32>,
    centroids: Seq<Vec<u32>>,
    metric: DistanceMetric,
    filter: Option<&VectorFilterMask>,
    found: Seq<ScoredCluster>,
) -> bool {
    &&& forall|i: int|
        0 <= i < found.len() ==> {
            &&& (#[trigger] found[i]).cluster < centroids.len()
            &&& worth_probing(filter, found[i].cluster as int)
            &&& vector::scores(
                score,
                query,
                centroids[found[i].cluster as int],
                metric,
                found[i].score,
            )
        }
    &&& forall|i: int, j: int|
        0 <= i < j < found.len() ==> (#[trigger] found[i]).cluster != (#[trigger] found[j]).cluster
    &&& forall|c: int|
        0 <= c < centroids.len() && #[trigger] worth_probing(filter, c) ==> has_cluster(found, c)
}

/// A cluster is in a list.
pub open spec fn has_cluster(found: Seq<ScoredCluster>, cluster: int) -> bool {
    exists|i: int| 0 <= i < found.len() && (#[trigger] found[i]).cluster == cluster
}

/// The positions in a cluster, below `n`, that a filter allows.
pub open spec fn allowed_positions(
    entries: Seq<VectorEntry>,
    filter: Option<&VectorFilterMask>,
    cluster: int,
    n: int,
) -> Seq<(int, int)>
    decreases n,
{
    if n <= 0 {
        Seq::empty()
    } else {
        let front = allowed_positions(entries, filter, cluster, n - 1);
        if row_allowed(filter, cluster, entries[n - 1].local_id as int) {
            front.push((cluster, n - 1))
        } else {
            front
        }
    }
}

/// The places, in the clusters probed, that a filter allows.
pub open spec fn probed_places(
    postings: Seq<VectorPosting>,
    filter: Option<&VectorFilterMask>,
    probed: Seq<ScoredCluster>,
) -> Seq<(int, int)>
    decreases probed.len(),
{
    if probed.len() == 0 {
        Seq::empty()
    } else {
        let c = probed.last().cluster as int;
        probed_places(postings, filter, probed.drop_last()) + allowed_positions(
            postings[c].vectors@,
            filter,
            c,
            postings[c].vectors@.len() as int,
        )
    }
}

/// A hit for the vector at a place, with a score of that vector.
pub open spec fn is_hit<F: Fn(&Vec<u32>, &Vec<u32>, DistanceMetric) -> Result<u32, Error>>(
    score: F,
    query: Vec<u32>,
    postings: Seq<VectorPosting>,
    metric: DistanceMetric,
    place: (int, int),
    hit: VectorHit,
) -> bool {
    let entry = postings[place.0].vectors@[place.1];
    &&& hit.id@ == entry.id@
    &&& hit.version == entry.version
    &&& vector::scores(score, query, entry.vector, metric, hit.score)
}

/// Hits for the vectors at some places.
pub open spec fn are_hits<F: Fn(&Vec<u32>, &Vec<u32>, DistanceMetric) -> Result<u32, Error>>(
    score: F,
    query: Vec<u32>,
    postings: Seq<VectorPosting>,
    metric: DistanceMetric,
    places: Seq<(int, int)>,
    hits: Seq<VectorHit>,
) -> bool {
    &&& hits.len() == places.len()
    &&& forall|i: int|
        0 <= i < hits.len() ==> is_hit(
            score,
            query,
            postings,
            metric,
            places[i],
            #[trigger] hits[i],
        )
}

/// How many clusters are probed.
pub open spec fn probe_count(probes: Option<usize>, clusters: int) -> int {
    let asked = match probes {
        Some(n) => n as int,
        None => if clusters < 4 {
            clusters
        } else {
            4
        },
    };
    if asked < 1 {
        1
    } else if asked > clusters {
        clusters
    } else {
        asked
    }
}

pub open spec fn smaller(a: int, b: int) -> int {
    if a < b {
        a
    } else {
        b
    }
}

/// What a search finds: of the clusters worth probing the nearest ones are
/// probed, every vector in them that the filter allows is scored, and the best
/// `k` are returned, best first.
pub open spec fn search_finds<F: Fn(&Vec<u32>, &Vec<u32>, DistanceMetric) -> Result<u32, Error>>(
    score: F,
    query: Vec<u32>,
    index: VectorIndex,
    metric: DistanceMetric,
    filter: Option<&VectorFilterMask>,
    probes: int,
    k: int,
    clusters: Seq<ScoredCluster>,
    gathered: Seq<VectorHit>,
    ranked: Seq<VectorHit>,
    hits: Seq<VectorHit>,
) -> bool {
    &&& are_clusters(score, query, index.centroids@, metric, filter, clusters)
    &&& sorting::is_arranged(clusters, NearestFirst)
    &&& forall|i: int|
        0 <= i < smaller(probes, clusters.len() as int) ==> (#[trigger] clusters[i]).cluster
            < index.postings@.len()
    &&& are_hits(
        score,
        query,
        index.postings@,
        metric,
        probed_places(
            index.postings@,
            filter,
            clusters.take(smaller(probes, clusters.len() as int)),
        ),
        gathered,
    )
    &&& sorting::is_arrangement(gathered, ranked, BestFirst)
    &&& hits == ranked.take(smaller(k, ranked.len() as int))
}

/// A search can find these hits.
pub open spec fn can_find<F: Fn(&Vec<u32>, &Vec<u32>, DistanceMetric) -> Result<u32, Error>>(
    score: F,
    query: Vec<u32>,
    index: VectorIndex,
    metric: DistanceMetric,
    filter: Option<&VectorFilterMask>,
    probes: int,
    k: int,
    hits: Seq<VectorHit>,
) -> bool {
    exists|clusters: Seq<ScoredCluster>, gathered: Seq<VectorHit>, ranked: Seq<VectorHit>|
        #[trigger]
        search_finds(
            score,
            query,
            index,
            metric,
            filter,
            probes,
            k,
            clusters,
            gathered,
            ranked,
            hits,
        )
}

/// A query has no score with the centroid of a cluster worth probing, for the reason
/// `e`.
pub open spec fn no_cluster_score<
    F: Fn(&Vec<u32>, &Vec<u32>, DistanceMetric) -> Result<u32, Error>,
>(
    score: F,
    query: Vec<u32>,
    centroids: Seq<Vec<u32>>,
    metric: DistanceMetric,
    filter: Option<&VectorFilterMask>,
    e: Error,
) -> bool {
    exists|c: int|
        0 <= c < centroids.len() && worth_probing(filter, c) && #[trigger] vector::no_score(
            score,
            query,
            centroids[c],
            metric,
            e,
        )
}

/// A query has no score with a row, at a place of the probed clusters that the filter
/// allows, for the reason `e`.
pub open spec fn no_row_score<F: Fn(&Vec<u32>, &Vec<u32>, DistanceMetric) -> Result<u32, Error>>(
    score: F,
    query: Vec<u32>,
    index: VectorIndex,
    metric: DistanceMetric,
    filter: Option<&VectorFilterMask>,
    probes: int,
    clusters: Seq<ScoredCluster>,
    place: (int, int),
    e: Error,
) -> bool {
    &&& are_clusters(score, query, index.centroids@, metric, filter, clusters)
    &&& sorting::is_arranged(clusters, NearestFirst)
    &&& 0 <= place.0 < index.postings@.len()
    &&& place_probed(
        index.postings@,
        filter,
        clusters.take(smaller(probes, clusters.len() as int)),
        place,
    )
    &&& vector::no_score(
        score,
        query,
        index.postings@[place.0].vectors@[place.1].vector,
        metric,
        e,
    )
}

/// One of the clusters that are probed has no vectors stored for it.
pub open spec fn misses_posting<F: Fn(&Vec<u32>, &Vec<u32>, DistanceMetric) -> Result<u32, Error>>(
    score: F,
    query: Vec<u32>,
    index: VectorIndex,
    metric: DistanceMetric,
    filter: Option<&VectorFilterMask>,
    probes: int,
    clusters: Seq<ScoredCluster>,
) -> bool {
    &&& are_clusters(score, query, index.centroids@, metric, filter, clusters)
    &&& sorting::is_arranged(clusters, NearestFirst)
    &&& exists|i: int|
        0 <= i < smaller(probes, clusters.len() as int) && (#[trigger] clusters[i]).cluster
            >= index.postings@.len()
}

/// Why a search fails: the query has no score with itself, with a centroid that has to
/// be compared, or with a row that has to be scored; or a probed cluster has no vectors
/// stored for it.
pub open spec fn search_fails<F: Fn(&Vec<u32>, &Vec<u32>, DistanceMetric) -> Result<u32, Error>>(
    score: F,
    query: Vec<u32>,
    index: VectorIndex,
    metric: DistanceMetric,
    filter: Option<&VectorFilterMask>,
    probes: int,
    e: Error,
) -> bool {
    ||| vector::no_score(score, query, query, metric, e)
    ||| no_cluster_score(score, query, index.centroids@, metric, filter, e)
    ||| exists|clusters: Seq<ScoredCluster>, place: (int, int)| #[trigger]
        no_row_score(score, query, index, metric, filter, probes, clusters, place, e)
    ||| e is Corrupt && exists|clusters: Seq<ScoredCluster>| #[trigger]
        misses_posting(score, query, index, metric, filter, probes, clusters)
}

/// Scores the centroids of the clusters worth probing.
fn score_clusters<F: Copy + Fn(&Vec<u32>, &Vec<u32>, DistanceMetric) -> Result<u32, Error>>(
    query: &Vec<u32>,
    centroids: &Vec<Vec<u32>>,
    metric: DistanceMetric,
    filter: Option<&VectorFilterMask>,
    score: F,
) -> (r: Result<Vec<ScoredCluster>, Error>)
    requires
        vector::can_score(score),
    ensures
        match r {
            Ok(found) => are_clusters(score, *query, centroids@, metric, filter, found@),
            Err(e) => no_cluster_score(score, *query, centroids@, metric, filter, e),
        },
{
    let mut found: Vec<ScoredCluster> = Vec::new();
    let mut c: usize = 0;
    while c < centroids.len()
        invariant
            c <= centroids@.len(),
            vector::can_score(score),
            forall|i: int|
                0 <= i < found@.len() ==> {
                    &&& (#[trigger] found@[i]).cluster < c
                    &&& worth_probing(filter, found@[i].cluster as int)
                    &&& vector::scores(
                        score,
                        *query,
                        centroids@[found@[i].cluster as int],
                        metric,
                        found@[i].score,
                    )
                },
            forall|i: int, j: int|
                0 <= i < j < found@.len() ==> (#[trigger] found@[i]).cluster != (
                #[trigger] found@[j]).cluster,
            forall|d: int|
                0 <= d < c && #[trigger] worth_probing(filter, d) ==> has_cluster(found@, d),
        decreases centroids@.len() - c,
    {
        let worth: bool = match filter {
            Some(mask) => mask.cluster_has_any(c),
            None => true,
        };
        let ghost before = found@;
        if worth {
            match score(query, &centroids[c], metric) {
                Ok(s) => {
                    assert(vector::scores(score, *query, centroids@[c as int], metric, s));
                    found.push(ScoredCluster { cluster: c, score: s });
                },
                Err(e) => {
                    assert(vector::no_score(score, *query, centroids@[c as int], metric, e));
                    return Err(e);
                },
            }
        }
        assert forall|d: int| 0 <= d < c + 1 && #[trigger] worth_probing(
            filter,
            d,
        ) implies has_cluster(found@, d) by {
            if d < c {
                let i = choose|i: int| 0 <= i < before.len() && (#[trigger] before[i]).cluster == d;
                assert(found@[i] == before[i]);
            } else {
                assert(found@[before.len() as int].cluster == d);
            }
        }
        c = c + 1;
    }
    Ok(found)
}

proof fn lemma_same_clusters<F: Fn(&Vec<u32>, &Vec<u32>, DistanceMetric) -> Result<u32, Error>>(
    score: F,
    query: Vec<u32>,
    centroids: Seq<Vec<u32>>,
    metric: DistanceMetric,
    filter: Option<&VectorFilterMask>,
    a: Seq<ScoredCluster>,
    b: Seq<ScoredCluster>,
)
    requires
        are_clusters(score, query, centroids, metric, filter, a),
        a.to_multiset() == b.to_multiset(),
    ensures
        are_clusters(score, query, centroids, metric, filter, b),
{
    broadcast use vstd::seq_lib::group_to_multiset_ensures;

    assert forall|i: int| 0 <= i < b.len() implies a.contains(#[trigger] b[i]) by {
        assert(b.contains(b[i]));
        assert(b.to_multiset().count(b[i]) > 0);
    }
    assert forall|i: int| 0 <= i < a.len() implies b.contains(#[trigger] a[i]) by {
        assert(a.contains(a[i]));
        assert(a.to_multiset().count(a[i]) > 0);
    }
    assert forall|i: int| 0 <= i < b.len() implies {
        &&& (#[trigger] b[i]).cluster < centroids.len()
        &&& worth_probing(filter, b[i].cluster as int)
        &&& vector::scores(score, query, centroids[b[i].cluster as int], metric, b[i].score)
    } by {
        let j = a.index_of(b[i]);
        assert(a[j] == b[i]);
    }
    assert forall|c: int| 0 <= c < centroids.len() && #[trigger] worth_probing(
        filter,
        c,
    ) implies has_cluster(b, c) by {
        let i = choose|i: int| 0 <= i < a.len() && (#[trigger] a[i]).cluster == c;
        let j = b.index_of(a[i]);
        assert(b[j].cluster == c);
    }
    assert(a.no_duplicates());
    a.lemma_multiset_has_no_duplicates();
    assert(a.len() == a.to_multiset().len());
    assert(b.len() == b.to_multiset().len());
    assert forall|i: int, j: int| 0 <= i < j < b.len() implies (#[trigger] b[i]).cluster != (
    #[trigger] b[j]).cluster by {
        if b[i].cluster == b[j].cluster {
            let x = a.index_of(b[i]);
            let y = a.index_of(b[j]);
            assert(a[x] == b[i] && a[y] == b[j]);
            if x < y {
                assert(a[x].cluster != a[y].cluster);
            } else if y < x {
                assert(a[y].cluster != a[x].cluster);
            }
            assert(b[i] == b[j]);
            b.lemma_multiset_has_no_duplicates_conv();
        }
    }
}

/// Scores the vectors of a cluster that the filter allows.
fn gather_cluster<F: Copy + Fn(&Vec<u32>, &Vec<u32>, DistanceMetric) -> Result<u32, Error>>(
    query: &Vec<u32>,
    postings: &Vec<VectorPosting>,
    cluster: usize,
    metric: DistanceMetric,
    filter: Option<&VectorFilterMask>,
    score: F,
    hits: &mut Vec<VectorHit>,
    places: Ghost<Seq<(int, int)>>,
) -> (r: Result<(), Error>)
    requires
        vector::can_score(score),
        cluster < postings@.len(),
        are_hits(score, *query, postings@, metric, places@, old(hits)@),
    ensures
        match r {
            Ok(_) => are_hits(
                score,
                *query,
                postings@,
                metric,
                places@ + allowed_positions(
                    postings@[cluster as int].vectors@,
                    filter,
                    cluster as int,
                    postings@[cluster as int].vectors@.len() as int,
                ),
                final(hits)@,
            ),
            Err(e) => exists|l: int|
                0 <= l < postings@[cluster as int].vectors@.len() && row_allowed(
                    filter,
                    cluster as int,
                    postings@[cluster as int].vectors@[l].local_id as int,
                ) && #[trigger] vector::no_score(
                    score,
                    *query,
                    postings@[cluster as int].vectors@[l].vector,
                    metric,
                    e,
                ),
        },
{
    let ghost entries = postings@[cluster as int].vectors@;
    let ghost c = cluster as int;
    let posting = &postings[cluster];
    let mut l: usize = 0;
    assert(places@ + allowed_positions(entries, filter, c, 0) =~= places@);
    while l < posting.vectors.len()
        invariant
            l <= entries.len(),
            entries == posting.vectors@,
            *posting == postings@[c],
            cluster == c,
            cluster < postings@.len(),
            vector::can_score(score),
            are_hits(
                score,
                *query,
                postings@,
                metric,
                places@ + allowed_positions(entries, filter, c, l as int),
                hits@,
            ),
        decreases entries.len() - l,
    {
        let entry = &posting.vectors[l];
        let allowed: bool = match filter {
            Some(mask) => mask.allows(cluster, entry.local_id as usize),
            None => true,
        };
        let ghost so_far = places@ + allowed_positions(entries, filter, c, l as int);
        if allowed {
            match score(query, &entry.vector, metric) {
                Ok(s) => {
                    assert(vector::scores(score, *query, entries[l as int].vector, metric, s));
                    let ghost before = hits@;
                    hits.push(VectorHit { id: copy_id(&entry.id), version: entry.version, score: s });
                    proof {
                        let next = places@ + allowed_positions(entries, filter, c, l + 1);
                        assert(next =~= so_far.push((c, l as int)));
                        assert forall|i: int| 0 <= i < hits@.len() implies is_hit(
                            score,
                            *query,
                            postings@,
                            metric,
                            next[i],
                            #[trigger] hits@[i],
                        ) by {
                            if i < before.len() {
                                assert(hits@[i] == before[i]);
                                assert(next[i] == so_far[i]);
                            }
                        }
                    }
                },
                Err(e) => {
                    assert(vector::no_score(score, *query, entries[l as int].vector, metric, e));
                    return Err(e);
                },
            }
        } else {
            assert(places@ + allowed_positions(entries, filter, c, l + 1) =~= so_far);
        }
        l = l + 1;
    }
    Ok(())
}

/// The clusters worth probing all have vectors stored for them.
pub open spec fn postings_cover(index: VectorIndex) -> bool {
    index.centroids@.len() <= index.postings@.len()
}

impl VectorIndex {
    /// The vectors nearest to a query.
    pub fn search<F: Copy + Fn(&Vec<u32>, &Vec<u32>, DistanceMetric) -> Result<u32, Error>>(
        &self,
        query: &Vec<u32>,
        k: usize,
        probes: Option<usize>,
        metric: Option<DistanceMetric>,
        score: F,
    ) -> (r: Result<Vec<VectorHit>, Error>)
        requires
            vector::can_score(score),
            self.centroids@.len() > 0,
        ensures
            search_outcome(*self, *query, k, probes, metric, None, score, r),
    {
        self.search_with_filter(query, k, probes, metric, None, score)
    }

    /// The vectors nearest to a query, among those that a filter allows.
    pub fn search_with_filter<
        F: Copy + Fn(&Vec<u32>, &Vec<u32>, DistanceMetric) -> Result<u32, Error>,
    >(
        &self,
        query: &Vec<u32>,
        k: usize,
        probes: Option<usize>,
        metric: Option<DistanceMetric>,
        filter: Option<&VectorFilterMask>,
        score: F,
    ) -> (r: Result<Vec<VectorHit>, Error>)
        requires
            vector::can_score(score),
            self.centroids@.len() > 0,
        ensures
            search_outcome(*self, *query, k, probes, metric, filter, score, r),
    {
        if k == 0 {
            return Err(invalid_query("ANN query k must be greater than zero"));
        }
        match validate_query_vector(query, self.dim, "ANN query vector") {
            Ok(_) => {},
            Err(e) => {
                return Err(e);
            },
        }
        let used: DistanceMetric = match metric {
            Some(m) => m,
            None => self.metric,
        };
        let n = self.centroids.len();
        let asked: usize = match probes {
            Some(p) => p,
            None => if n < 4 {
                n
            } else {
                4
            },
        };
        let probe_limit: usize = if asked < 1 {
            1
        } else if asked > n {
            n
        } else {
            asked
        };
        match score(query, query, used) {
            Ok(s) => {
                assert(vector::scores(score, *query, *query, used, s));
            },
            Err(e) => {
                assert(vector::no_score(score, *query, *query, used, e));
                return Err(e);
            },
        }
        let found = match score_clusters(query, &self.centroids, used, filter, score) {
            Ok(found) => found,
            Err(e) => {
                return Err(e);
            },
        };
        let clusters = arrange(found, &NearestFirst);
        proof {
            lemma_same_clusters(
                score,
                *query,
                self.centroids@,
                used,
                filter,
                found@,
                clusters@,
            );
        }
        let limit: usize = if probe_limit < clusters.len() {
            probe_limit
        } else {
            clusters.len()
        };
        let mut hits: Vec<VectorHit> = Vec::new();
        let mut i: usize = 0;
        assert(clusters@.take(0) =~= Seq::empty());
        while i < limit
            invariant
                i <= limit <= clusters@.len(),
                vector::can_score(score),
                are_clusters(score, *query, self.centroids@, used, filter, clusters@),
                sorting::is_arranged(clusters@, NearestFirst),
                forall|j: int|
                    0 <= j < i ==> (#[trigger] clusters@[j]).cluster < self.postings@.len(),
                probe_limit == probe_count(probes, self.centroids@.len() as int),
                limit == smaller(probe_limit as int, clusters@.len() as int),
                k > 0,
                used == metric_used(metric, *self),
                index::vector_ok(query@, self.dim),
                are_hits(
                    score,
                    *query,
                    self.postings@,
                    used,
                    probed_places(self.postings@, filter, clusters@.take(i as int)),
                    hits@,
                ),
            decreases limit - i,
        {
            let c: usize = clusters[i].cluster;
            assert(clusters@[i as int].cluster < self.centroids@.len());
            if c >= self.postings.len() {
                assert(misses_posting(
                    score,
                    *query,
                    *self,
                    used,
                    filter,
                    probe_limit as int,
                    clusters@,
                ));
                return Err(corrupt("vector posting id out of bounds"));
            }
            assert(clusters@.take(i + 1).drop_last() =~= clusters@.take(i as int));
            let ghost places = probed_places(self.postings@, filter, clusters@.take(i as int));
            match gather_cluster(
                query,
                &self.postings,
                c,
                used,
                filter,
                score,
                &mut hits,
                Ghost(places),
            ) {
                Ok(_) => {},
                Err(e) => {
                    proof {
                        let l = choose|l: int|
                            0 <= l < self.postings@[c as int].vectors@.len() && row_allowed(
                                filter,
                                c as int,
                                self.postings@[c as int].vectors@[l].local_id as int,
                            ) && #[trigger] vector::no_score(
                                score,
                                *query,
                                self.postings@[c as int].vectors@[l].vector,
                                used,
                                e,
                            );
                        assert(clusters@.take(limit as int)[i as int].cluster == c);
                        assert(no_row_score(
                            score,
                            *query,
                            *self,
                            used,
                            filter,
                            probe_limit as int,
                            clusters@,
                            (c as int, l),
                            e,
                        ));
                    }
                    return Err(e);
                },
            }
            i = i + 1;
        }
        let ghost gathered = hits@;
        sort_hits(&mut hits);
        let ghost ranked = hits@;
        if k < hits.len() {
            hits.truncate(k);
        }
        proof {
            assert(hits@ =~= ranked.take(smaller(k as int, ranked.len() as int)));
            assert(probe_limit == probe_count(probes, self.centroids@.len() as int));
            assert(search_finds(
                score,
                *query,
                *self,
                metric_used(metric, *self),
                filter,
                probe_count(probes, self.centroids@.len() as int),
                k as int,
                clusters@,
                gathered,
                ranked,
                hits@,
            ));
        }
        Ok(hits)
    }

    /// How many vectors each cluster has.
    fn cluster_row_counts(&self) -> (counts: Vec<usize>)
        ensures
            counts@ == vector::shape_of(self.postings@),
    {
        row_counts_of(&self.postings)
    }

    /// Allows every row.
    pub fn all_filter_mask(&self) -> (m: VectorFilterMask)
        ensures
            m.wf(),
            m.shape() == vector::shape_of(self.postings@),
            forall|c: int, i: int| #[trigger]
                m.bit(c, i) == (0 <= c < self.postings@.len() && 0 <= i
                    < self.postings@[c].vectors@.len()),
    {
        VectorFilterMask::all(self.cluster_row_counts())
    }

    /// Allows no row.
    pub fn empty_filter_mask(&self) -> (m: VectorFilterMask)
        ensures
            m.wf(),
            m.shape() == vector::shape_of(self.postings@),
            forall|c: int, i: int| !#[trigger] m.bit(c, i),
    {
        VectorFilterMask::empty(self.cluster_row_counts())
    }

    /// Allows the rows that have, in a column, a value that `matches` accepts.
    pub fn filter_mask_by_value<F: Fn(&Value) -> bool>(&self, column: &str, matches: F) -> (mask:
        VectorFilterMask)
        requires
            self.filter_index.columns.wf(),
            forall|v: &Value| #[trigger] call_requires(matches, (v,)),
        ensures
            mask.wf(),
            mask.shape() == vector::shape_of(self.postings@),
            forall|cluster: int, row: int| #[trigger]
                mask.bit(cluster, row) ==> exists|j: int|
                    mask.covers(cluster, row) && #[trigger] filter::accepted(
                        matches,
                        filter::column_values(self.filter_index, column@),
                        j,
                        true,
                    ) && filter::rows_mark(
                        filter::column_values(self.filter_index, column@)[j].rows@,
                        cluster,
                        row,
                    ),
            forall|cluster: int, row: int, j: int|
                mask.covers(cluster, row) && !#[trigger] mask.bit(cluster, row) && 0 <= j
                    < filter::column_values(self.filter_index, column@).len()
                    && #[trigger] filter::rows_mark(
                    filter::column_values(self.filter_index, column@)[j].rows@,
                    cluster,
                    row,
                ) ==> filter::accepted(
                    matches,
                    filter::column_values(self.filter_index, column@),
                    j,
                    false,
                ),
    {
        self.filter_index.mask_by_value(self.cluster_row_counts(), column, matches)
    }

    /// How many vectors the index holds.
    pub fn row_count(&self) -> (n: usize)
        requires
            total_rows(self.postings@) <= usize::MAX,
        ensures
            n == total_rows(self.postings@),
    {
        let mut n: usize = 0;
        let mut c: usize = 0;
        assert(self.postings@.take(0) =~= Seq::empty());
        while c < self.postings.len()
            invariant
                c <= self.postings@.len(),
                n == total_rows(self.postings@.take(c as int)),
                total_rows(self.postings@) <= usize::MAX,
            decreases self.postings@.len() - c,
        {
            proof {
                lemma_total_rows_grows(self.postings@, c + 1);
                assert(self.postings@.take(c + 1).drop_last() =~= self.postings@.take(c as int));
            }
            n = n + self.postings[c].vectors.len();
            c = c + 1;
        }
        assert(self.postings@.take(c as int) =~= self.postings@);
        n
    }

    /// From which sizes on clusters are split or merged: twice and half the size
    /// that they would have if all had the same.
    pub fn maintenance_thresholds(&self) -> (t: VectorMaintenanceThresholds)
        requires
            2 * total_rows(self.postings@) + 2 <= usize::MAX,
        ensures
            t == thresholds_for(total_rows(self.postings@) as int, self.centroids@.len() as int),
    {
        let clusters: usize = if self.centroids.len() < 1 {
            1
        } else {
            self.centroids.len()
        };
        let rows: usize = self.row_count();
        let even: usize = div_up(rows, clusters);
        proof {
            lemma_even_share(rows as int, clusters as int);
        }
        let target: usize = if even < 1 {
            1
        } else {
            even
        };
        let half: usize = div_up(target, 2);
        let low: usize = if half < 1 {
            1
        } else {
            half
        };
        let high: usize = if target * 2 < low + 1 {
            low + 1
        } else {
            target * 2
        };
        VectorMaintenanceThresholds {
            min_posting_rows: low as u64,
            max_posting_rows: high as u64,
            reassign_neighborhood: REASSIGN_NEIGHBORHOOD,
        }
    }
}

/// How many clusters around a split or merged one are looked at.
pub const REASSIGN_NEIGHBORHOOD: usize = 64;

/// How many vectors some clusters hold together.
pub open spec fn total_rows(postings: Seq<VectorPosting>) -> nat
    decreases postings.len(),
{
    if postings.len() == 0 {
        0
    } else {
        total_rows(postings.drop_last()) + postings.last().vectors@.len()
    }
}

proof fn lemma_total_rows_grows(postings: Seq<VectorPosting>, c: int)
    requires
        0 <= c <= postings.len(),
    ensures
        total_rows(postings.take(c)) <= total_rows(postings),
    decreases postings.len(),
{
    if c == postings.len() {
        assert(postings.take(c) =~= postings);
    } else {
        lemma_total_rows_grows(postings.drop_last(), c);
        assert(postings.drop_last().take(c) =~= postings.take(c));
    }
}

/// `a` divided by `b`, rounded up.
pub open spec fn rounded_up(a: int, b: int) -> int {
    if a % b == 0 {
        a / b
    } else {
        a / b + 1
    }
}

fn div_up(a: usize, b: usize) -> (q: usize)
    requires
        b > 0,
        a < usize::MAX,
    ensures
        q == rounded_up(a as int, b as int),
{
    proof {
        let x = a as int;
        let y = b as int;
        assert(x / y <= x) by (nonlinear_arith)
            requires
                x >= 0,
                y > 0,
        ;
    }
    if a % b == 0 {
        a / b
    } else {
        a / b + 1
    }
}

proof fn lemma_even_share(rows: int, clusters: int)
    requires
        rows >= 0,
        clusters > 0,
    ensures
        0 <= rounded_up(rows, clusters) <= rows,
{
    assert(0 <= rows / clusters && rows / clusters * clusters + rows % clusters == rows && 0 <= rows
        % clusters < clusters && (rows % clusters > 0 ==> rows / clusters + 1 <= rows) && rows
        / clusters <= rows) by (nonlinear_arith)
        requires
            rows >= 0,
            clusters > 0,
    ;
}

pub open spec fn larger(a: int, b: int) -> int {
    if a < b {
        b
    } else {
        a
    }
}

/// The thresholds for an index of some size.
pub open spec fn thresholds_for(rows: int, clusters: int) -> VectorMaintenanceThresholds {
    let target = larger(rounded_up(rows, larger(clusters, 1)), 1);
    let low = larger(rounded_up(target, 2), 1);
    VectorMaintenanceThresholds {
        min_posting_rows: low as u64,
        max_posting_rows: larger(target * 2, low + 1) as u64,
        reassign_neighborhood: REASSIGN_NEIGHBORHOOD,
    }
}

/// The metric of a search: the one asked for, or else that of the index.
pub open spec fn metric_used(metric: Option<DistanceMetric>, index: VectorIndex) -> DistanceMetric {
    match metric {
        Some(m) => m,
        None => index.metric,
    }
}

/// What a search answers, and when it fails.
pub open spec fn search_outcome<F: Fn(&Vec<u32>, &Vec<u32>, DistanceMetric) -> Result<u32, Error>>(
    index: VectorIndex,
    query: Vec<u32>,
    k: usize,
    probes: Option<usize>,
    metric: Option<DistanceMetric>,
    filter: Option<&VectorFilterMask>,
    score: F,
    r: Result<Vec<VectorHit>, Error>,
) -> bool {
    let m = metric_used(metric, index);
    if k == 0 || !index::vector_ok(query@, index.dim) {
        r is Err && r->Err_0 is InvalidQuery && r->Err_0->InvalidQuery_0@ == (if k == 0 {
            "ANN query k must be greater than zero"@
        } else {
            index::shape_complaint(query@, index.dim, "ANN query vector"@)
        })
    } else {
        match r {
            Ok(hits) => vector::has_own_score(score, query, m) && can_find(
                score,
                query,
                index,
                m,
                filter,
                probe_count(probes, index.centroids@.len() as int),
                k as int,
                hits@,
            ),
            Err(e) => search_fails(
                score,
                query,
                index,
                m,
                filter,
                probe_count(probes, index.centroids@.len() as int),
                e,
            ),
        }
    }
}

proof fn lemma_allowed_positions(
    entries: Seq<VectorEntry>,
    filter: Option<&VectorFilterMask>,
    cluster: int,
    n: int,
)
    requires
        0 <= n <= entries.len(),
    ensures
        forall|i: int|
            0 <= i < allowed_positions(entries, filter, cluster, n).len() ==> {
                let place = #[trigger] allowed_positions(entries, filter, cluster, n)[i];
                &&& place.0 == cluster
                &&& 0 <= place.1 < n
                &&& row_allowed(filter, cluster, entries[place.1].local_id as int)
            },
        forall|l: int|
            0 <= l < n && row_allowed(
                filter,
                cluster,
                (#[trigger] entries[l]).local_id as int,
            ) ==> allowed_positions(entries, filter, cluster, n).contains((cluster, l)),
    decreases n,
{
    if n > 0 {
        lemma_allowed_positions(entries, filter, cluster, n - 1);
        let front = allowed_positions(entries, filter, cluster, n - 1);
        let all = allowed_positions(entries, filter, cluster, n);
        assert forall|i: int| 0 <= i < all.len() implies {
            let place = #[trigger] all[i];
            &&& place.0 == cluster
            &&& 0 <= place.1 < n
            &&& row_allowed(filter, cluster, entries[place.1].local_id as int)
        } by {
            if i < front.len() {
                assert(all[i] == front[i]);
            }
        }
        assert forall|l: int| 0 <= l < n && row_allowed(
            filter,
            cluster,
            (#[trigger] entries[l]).local_id as int,
        ) implies all.contains((cluster, l)) by {
            if l < n - 1 {
                let i = front.index_of((cluster, l));
                assert(front[i] == (cluster, l));
                assert(all[i] == (cluster, l));
            } else {
                assert(all[front.len() as int] == (cluster, l));
            }
        }
    }
}

/// A place is in a cluster that is probed, and the filter allows it.
pub open spec fn place_probed(
    postings: Seq<VectorPosting>,
    filter: Option<&VectorFilterMask>,
    probed: Seq<ScoredCluster>,
    place: (int, int),
) -> bool {
    &&& has_cluster(probed, place.0)
    &&& 0 <= place.1 < postings[place.0].vectors@.len()
    &&& row_allowed(filter, place.0, postings[place.0].vectors@[place.1].local_id as int)
}

proof fn lemma_probed_places(
    postings: Seq<VectorPosting>,
    filter: Option<&VectorFilterMask>,
    probed: Seq<ScoredCluster>,
    place: (int, int),
)
    ensures
        probed_places(postings, filter, probed).contains(place) == place_probed(
            postings,
            filter,
            probed,
            place,
        ),
    decreases probed.len(),
{
    if probed.len() > 0 {
        let rest = probed.drop_last();
        let c = probed.last().cluster as int;
        let entries = postings[c].vectors@;
        let front = probed_places(postings, filter, rest);
        let back = allowed_positions(entries, filter, c, entries.len() as int);
        lemma_probed_places(postings, filter, rest, place);
        lemma_allowed_positions(entries, filter, c, entries.len() as int);
        if (front + back).contains(place) {
            let i = (front + back).index_of(place);
            if i < front.len() {
                assert(front[i] == place);
                let j = choose|j: int|
                    0 <= j < rest.len() && (#[trigger] rest[j]).cluster == place.0;
                assert(probed[j] == rest[j]);
            } else {
                assert(back[i - front.len()] == place);
                assert(probed[probed.len() - 1].cluster == place.0);
            }
        }
        if place_probed(postings, filter, probed, place) {
            let j = choose|j: int|
                0 <= j < probed.len() && (#[trigger] probed[j]).cluster == place.0;
            if j < rest.len() {
                assert(rest[j].cluster == place.0);
                let i = front.index_of(place);
                assert((front + back)[i] == place);
            } else {
                assert(entries[place.1] == postings[place.0].vectors@[place.1]);
                let i = back.index_of((c, place.1));
                assert((front + back)[front.len() + i] == place);
            }
        }
    }
}

/// A search scores a vector exactly if its cluster is probed and the filter allows
/// it; and where every cluster worth probing is probed, it scores every vector
/// that the filter allows. So a filter saves work and loses nothing.
pub proof fn law_search_scores_what_the_filter_allows<
    F: Fn(&Vec<u32>, &Vec<u32>, DistanceMetric) -> Result<u32, Error>,
>(
    score: F,
    query: Vec<u32>,
    index: VectorIndex,
    metric: DistanceMetric,
    filter: Option<&VectorFilterMask>,
    clusters: Seq<ScoredCluster>,
    probes: int,
    cluster: int,
    row: int,
)
    requires
        are_clusters(score, query, index.centroids@, metric, filter, clusters),
        vector::postings_wf(index.postings@),
        index.postings@.len() == index.centroids@.len(),
        0 <= cluster < index.centroids@.len(),
        0 <= row < index.postings@[cluster].vectors@.len(),
        0 <= probes <= clusters.len(),
    ensures
        probed_places(index.postings@, filter, clusters.take(probes)).contains((cluster, row)) <==> (
        has_cluster(clusters.take(probes), cluster) && row_allowed(filter, cluster, row)),
        row_allowed(filter, cluster, row) ==> probed_places(
            index.postings@,
            filter,
            clusters,
        ).contains((cluster, row)),
{
    lemma_probed_places(index.postings@, filter, clusters.take(probes), (cluster, row));
    lemma_probed_places(index.postings@, filter, clusters, (cluster, row));
    assert(index.postings@[cluster].vectors@[row].local_id == row);
    if row_allowed(filter, cluster, row) {
        match filter {
            Some(mask) => {
                assert(mask.bit(cluster, row));
            },
            None => {},
        }
        assert(worth_probing(filter, cluster));
        assert(has_cluster(clusters, cluster));
    }
}

/// A vector is sound: it has `dim` components, all finite, and can be scored.
pub open spec fn vector_sound<M: Fn(Step) -> u32>(
    calc: M,
    v: Seq<u32>,
    dim: usize,
    metric: DistanceMetric,
) -> bool {
    index::vector_ok(v, dim) && kernel::is_scorable(calc, v, metric)
}

/// The vectors of an index are sound, and every cluster has its place.
pub open spec fn is_sound<M: Fn(Step) -> u32>(
    calc: M,
    index: VectorIndex,
    metric: DistanceMetric,
) -> bool {
    &&& postings_cover(index)
    &&& forall|c: int|
        0 <= c < index.centroids@.len() ==> vector_sound(
            calc,
            (#[trigger] index.centroids@[c])@,
            index.dim,
            metric,
        )
    &&& forall|p: int, l: int|
        0 <= p < index.postings@.len() && 0 <= l < index.postings@[p].vectors@.len()
            ==> vector_sound(
            calc,
            (#[trigger] index.postings@[p].vectors@[l]).vector@,
            index.dim,
            metric,
        )
}

/// A search of a sound index for a sound query is answered.
pub proof fn law_sound_index_answers<
    F: Fn(&Vec<u32>, &Vec<u32>, DistanceMetric) -> Result<u32, Error>,
    M: Fn(Step) -> u32,
>(
    score: F,
    calc: M,
    index: VectorIndex,
    query: Vec<u32>,
    k: usize,
    probes: Option<usize>,
    metric: Option<DistanceMetric>,
    filter: Option<&VectorFilterMask>,
    r: Result<Vec<VectorHit>, Error>,
)
    requires
        kernel::is_kernel(score, calc),
        is_sound(calc, index, metric_used(metric, index)),
        k > 0,
        vector_sound(calc, query@, index.dim, metric_used(metric, index)),
        search_outcome(index, query, k, probes, metric, filter, score, r),
    ensures
        r is Ok,
{
    if let Err(e) = r {
        let m = metric_used(metric, index);
        let n = probe_count(probes, index.centroids@.len() as int);
        assert forall|other: Vec<u32>| vector_sound(calc, other@, index.dim, m) implies
            !#[trigger] vector::no_score(score, query, other, m, e) by {
            if vector::no_score(score, query, other, m, e) {
                assert(kernel::is_scored(calc, query@, other@, m, Err::<u32, Error>(e)));
            }
        }
        if exists|clusters: Seq<ScoredCluster>, place: (int, int)| #[trigger]
            no_row_score(score, query, index, m, filter, n, clusters, place, e) {
            let (clusters, place) = choose|clusters: Seq<ScoredCluster>, place: (int, int)|
                #[trigger]
                no_row_score(score, query, index, m, filter, n, clusters, place, e);
            assert(vector_sound(
                calc,
                index.postings@[place.0].vectors@[place.1].vector@,
                index.dim,
                m,
            ));
        }
    }
}

/// A search returns as many hits as asked for, or all that were scored where those are
/// fewer. They come best first, and nothing that was scored and left out is better than
/// any of them. This is told of scores that are numbers.
pub proof fn law_search_returns_the_best<
    F: Fn(&Vec<u32>, &Vec<u32>, DistanceMetric) -> Result<u32, Error>,
>(
    score: F,
    query: Vec<u32>,
    index: VectorIndex,
    metric: DistanceMetric,
    filter: Option<&VectorFilterMask>,
    probes: int,
    k: int,
    clusters: Seq<ScoredCluster>,
    gathered: Seq<VectorHit>,
    ranked: Seq<VectorHit>,
    hits: Seq<VectorHit>,
    i: int,
    j: int,
    other: VectorHit,
)
    requires
        search_finds(
            score,
            query,
            index,
            metric,
            filter,
            probes,
            k,
            clusters,
            gathered,
            ranked,
            hits,
        ),
        k >= 0,
        forall|g: VectorHit| #[trigger] gathered.contains(g) ==> rounding::is_number(g.score),
        0 <= i < j < hits.len(),
        gathered.contains(other),
        !hits.contains(other),
    ensures
        hits.len() <= k,
        hits.len() <= gathered.len(),
        hits.len() == k || hits.len() == gathered.len(),
        gathered.contains(hits[i]),
        rounding::number(hits[i].score) >= rounding::number(hits[j].score),
        rounding::number(hits[i].score) >= rounding::number(other.score),
        rounding::number(hits[i].score) == rounding::number(hits[j].score) ==> value::id_order(
            hits[i].id@,
            hits[j].id@,
        ) != Order::Greater,
{
    sorting::lemma_nothing_is_lost(gathered, ranked);
    assert forall|m: int| 0 <= m < ranked.len() implies vector::score_rank(
        (#[trigger] ranked[m]).score,
    ) is Some by {
        assert(ranked.contains(ranked[m]));
        assert(gathered.contains(ranked[m]));
    }
    vector::law_numbered_hits_are_ordered(ranked);
    assert(hits[i] == ranked[i] && hits[j] == ranked[j]);
    assert(ranked.contains(ranked[i]) && ranked.contains(ranked[j]));
    assert(gathered.contains(ranked[i]) && gathered.contains(ranked[j]));
    assert(BestFirst.precedes(ranked[i], ranked[j]));
    sorting::lemma_first_come_first(gathered, ranked, BestFirst, hits.len() as int, i, other);
    rounding::law_higher_score_is_higher_number(ranked[i].score, ranked[j].score);
    rounding::law_higher_score_is_higher_number(ranked[j].score, ranked[i].score);
    rounding::law_higher_score_is_higher_number(ranked[i].score, other.score);
    rounding::law_higher_score_is_higher_number(other.score, ranked[i].score);
}

/// The clusters that are probed are the nearest ones: the centroid of no other cluster
/// worth probing has a higher score than that of one that is probed.
pub proof fn law_nearest_clusters_are_probed<
    F: Fn(&Vec<u32>, &Vec<u32>, DistanceMetric) -> Result<u32, Error>,
>(
    score: F,
    query: Vec<u32>,
    index: VectorIndex,
    metric: DistanceMetric,
    filter: Option<&VectorFilterMask>,
    probes: int,
    k: int,
    clusters: Seq<ScoredCluster>,
    gathered: Seq<VectorHit>,
    ranked: Seq<VectorHit>,
    hits: Seq<VectorHit>,
    i: int,
    j: int,
)
    requires
        search_finds(
            score,
            query,
            index,
            metric,
            filter,
            probes,
            k,
            clusters,
            gathered,
            ranked,
            hits,
        ),
        forall|c: int| 0 <= c < clusters.len() ==> rounding::is_number((#[trigger] clusters[c]).score),
        0 <= i < probes,
        probes <= j < clusters.len(),
    ensures
        rounding::number(clusters[i].score) >= rounding::number(clusters[j].score),
        place_probed(
            index.postings@,
            filter,
            clusters.take(smaller(probes, clusters.len() as int)),
            (clusters[i].cluster as int, 0),
        ) || index.postings@[clusters[i].cluster as int].vectors@.len() == 0 || !row_allowed(
            filter,
            clusters[i].cluster as int,
            index.postings@[clusters[i].cluster as int].vectors@[0].local_id as int,
        ),
{
    law_numbered_clusters_are_ordered(clusters);
    assert(NearestFirst.precedes(clusters[i], clusters[j]));
    rounding::law_higher_score_is_higher_number(clusters[j].score, clusters[i].score);
    rounding::law_higher_score_is_higher_number(clusters[i].score, clusters[j].score);
    let probed = clusters.take(smaller(probes, clusters.len() as int));
    assert(probed[i] == clusters[i]);
    assert(has_cluster(probed, clusters[i].cluster as int));
}

/// As many clusters are probed as asked for, but at least one and no more than there are;
/// four where nothing is asked for.
pub proof fn law_probes_are_bounded(probes: Option<usize>, clusters: int)
    requires
        clusters >= 1,
    ensures
        1 <= probe_count(probes, clusters) <= clusters,
        probes matches Some(n) ==> 1 <= n <= clusters ==> probe_count(probes, clusters) == n,
        probes matches Some(n) ==> n > clusters ==> probe_count(probes, clusters) == clusters,
        probes is None && clusters >= 4 ==> probe_count(probes, clusters) == 4,
        probes is None && clusters < 4 ==> probe_count(probes, clusters) == clusters,
{
}

/// Every hit of a search is a vector of the index with its document and version, and with
/// the score of that very vector.
pub proof fn law_hits_carry_their_own_scores<
    F: Fn(&Vec<u32>, &Vec<u32>, DistanceMetric) -> Result<u32, Error>,
>(
    score: F,
    query: Vec<u32>,
    postings: Seq<VectorPosting>,
    metric: DistanceMetric,
    places: Seq<(int, int)>,
    hits: Seq<VectorHit>,
    i: int,
)
    requires
        are_hits(score, query, postings, metric, places, hits),
        0 <= i < hits.len(),
    ensures
        hits[i].id@ == postings[places[i].0].vectors@[places[i].1].id@,
        hits[i].version == postings[places[i].0].vectors@[places[i].1].version,
        call_ensures(
            score,
            (&query, &postings[places[i].0].vectors@[places[i].1].vector, metric),
            Ok::<u32, Error>(hits[i].score),
        ),
        hits.len() == places.len(),
{
    assert(is_hit(score, query, postings, metric, places[i], hits[i]));
}

/// The share of a cluster is the number of rows over that of the clusters, rounded up: it
/// holds all of them, and one less would not. A cluster is too small below half of it,
/// and too large above twice it.
pub proof fn law_thresholds_go_by_the_share(rows: int, clusters: int)
    requires
        rows >= 1,
        clusters >= 1,
        rows <= 0x7fff_ffff_ffff,
    ensures
        ({
            let share = rounded_up(rows, clusters);
            let t = thresholds_for(rows, clusters);
            &&& share * clusters >= rows
            &&& (share - 1) * clusters < rows
            &&& 2 * t.min_posting_rows >= share
            &&& 2 * (t.min_posting_rows - 1) < share
            &&& share >= 2 ==> t.max_posting_rows == 2 * share
            &&& t.min_posting_rows < t.max_posting_rows
        }),
{
    let q = rows / clusters;
    let r = rows % clusters;
    assert(q * clusters + r == rows && 0 <= r < clusters && q >= 0) by (nonlinear_arith)
        requires
            q == rows / clusters,
            r == rows % clusters,
            clusters >= 1,
            rows >= 1,
    ;
    assert((q + 1) * clusters == q * clusters + clusters) by (nonlinear_arith);
    assert((q - 1) * clusters == q * clusters - clusters) by (nonlinear_arith);
    lemma_even_share(rows, clusters);
    let share = rounded_up(rows, clusters);
    assert(share >= 1) by (nonlinear_arith)
        requires
            share * clusters >= rows,
            rows >= 1,
            clusters >= 1,
    ;
}

/// The metric that a search names counts, and else that of the index.
pub proof fn law_named_metric_is_searched_with(index: VectorIndex, metric: DistanceMetric)
    ensures
        metric_used(Some(metric), index) == metric,
        metric_used(None, index) == index.metric,
        metric_used(Some(index.metric), index) == metric_used(None, index),
{
}

} // verus!
